//! The batch pipeline's bookkeeping: bounded chunk planning, outcome
//! counters, and the failure side-channel's row format.
//!
//! Rows stream in order; encoded items are grouped into consecutive chunks
//! of the configured batch size, the last chunk holding the remainder. Each
//! chunk is sent as one atomic request; an accepted chunk adds its size to
//! the success counter, a rejected one adds its size to the failure counter
//! and its source rows go to the failure side-channel, quoted for safe
//! re-ingestion. No counter ever moves otherwise.

use vstd::prelude::*;

use vstd::arithmetic::div_mod::lemma_fundamental_div_mod_converse;
use crate::value::texts_model;
use crate::util::chars_to_string;

verus! {

/// The bounds of the chunks that `n` items form under a batch size: chunk
/// `i` holds the items of `[i*size, min((i+1)*size, n))`.
pub open spec fn chunk_ok(r: Seq<(usize, usize)>, n: int, size: int) -> bool {
    &&& forall|i: int| 0 <= i < r.len() ==> r[i].0 == i * size
    &&& forall|i: int|
        0 <= i < r.len() ==> r[i].1 == if (i + 1) * size < n {
            (i + 1) * size
        } else {
            n
        }
}

/// Plans the batches: the consecutive index ranges of the chunks that the
/// items at `0..n` form. There are exactly `ceil(n / batch_size)` chunks;
/// every chunk holds `batch_size` items except the last, which holds the
/// remainder (or a full `batch_size` when it divides evenly).
pub fn chunk_bounds(n: usize, batch_size: usize) -> (r: Vec<(usize, usize)>)
    requires
        batch_size >= 1,
    ensures
        chunk_ok(r@, n as int, batch_size as int),
        r@.len() == ((n + batch_size - 1) as int) / (batch_size as int),
        n > 0 ==> r@.len() >= 1 && r@[r@.len() - 1].1 == n,
        n == 0 ==> r@.len() == 0,
{
    let mut r: Vec<(usize, usize)> = Vec::new();
    let mut s: usize = 0;
    while s < n
        invariant
            batch_size >= 1,
            s <= n,
            chunk_ok(r@, n as int, batch_size as int),
            s < n ==> s == r@.len() * batch_size,
            s == n ==> ((n == 0 && r@.len() == 0) || (r@.len() >= 1 && r@[r@.len() - 1].1 == n
                && (r@.len() - 1) * batch_size < n && n <= r@.len() * batch_size)),
        decreases n - s,
    {
        let ghost m = r@.len() as int;
        assert(s == m * batch_size);
        let e: usize = if n - s > batch_size {
            s + batch_size
        } else {
            n
        };
        assert((m + 1) * batch_size == m * batch_size + batch_size) by (nonlinear_arith);
        r.push((s, e));
        assert(chunk_ok(r@, n as int, batch_size as int)) by {
            assert(forall|i: int| 0 <= i < m ==> r@[i] == r@.subrange(0, m)[i]);
            assert(r@[m].0 == m * batch_size && r@[m].1 == e);
        }
        s = e;
    }
    proof {
        let m = r@.len() as int;
        let ni = n as int;
        let b = batch_size as int;
        if n == 0 {
            assert(m == 0);
            assert((ni + b - 1) / b == 0) by {
                lemma_fundamental_div_mod_converse(ni + b - 1, b, 0, b - 1);
            }
        } else {
            assert(m >= 1);
            assert((m - 1) * b < ni <= m * b);
            let last = ni - (m - 1) * b;
            assert(1 <= last <= b) by (nonlinear_arith)
                requires
                    (m - 1) * b < ni <= m * b,
                    last == ni - (m - 1) * b,
                    b >= 1,
            ;
            assert(ni + b - 1 == (m - 1) * b + last + b - 1);
            if last == b {
                assert(ni + b - 1 == m * b + (b - 1)) by (nonlinear_arith)
                    requires
                        ni + b - 1 == (m - 1) * b + last + b - 1,
                        last == b,
                ;
                lemma_fundamental_div_mod_converse(ni + b - 1, b, m, b - 1);
            } else {
                assert(ni + b - 1 == m * b + (last - 1)) by (nonlinear_arith)
                    requires
                        ni + b - 1 == (m - 1) * b + last + b - 1,
                ;
                lemma_fundamental_div_mod_converse(ni + b - 1, b, m, last - 1);
            }
        }
    }
    r
}

/// The counters a run reports: rows handed to sends, rows in accepted
/// batches, and rows in rejected batches.
#[derive(Debug, PartialEq, Eq, Clone, Copy)]
pub struct RunStats {
    pub processed: usize,
    pub succeeded: usize,
    pub failed: usize,
}

impl RunStats {
    /// Fresh counters, all zero.
    pub fn new() -> (r: RunStats)
        ensures
            r.processed == 0 && r.succeeded == 0 && r.failed == 0,
    {
        RunStats { processed: 0, succeeded: 0, failed: 0 }
    }

    /// Records one batch's outcome: an accepted batch adds its size to the
    /// success counter, a rejected one to the failure counter; counters
    /// only ever grow.
    pub fn apply_batch(&mut self, batch_len: usize, ok: bool)
        requires
            old(self).processed + batch_len <= usize::MAX,
            old(self).succeeded + batch_len <= usize::MAX,
            old(self).failed + batch_len <= usize::MAX,
        ensures
            final(self).processed == old(self).processed + batch_len,
            ok ==> final(self).succeeded == old(self).succeeded + batch_len && final(self).failed
                == old(self).failed,
            !ok ==> final(self).failed == old(self).failed + batch_len && final(self).succeeded
                == old(self).succeeded,
    {
        self.processed = self.processed + batch_len;
        if ok {
            self.succeeded = self.succeeded + batch_len;
        } else {
            self.failed = self.failed + batch_len;
        }
    }
}

/// The total size of the chunks from index `i` on.
pub open spec fn sum_sizes(bounds: Seq<(usize, usize)>, i: int) -> int
    decreases bounds.len() - i,
{
    if i < 0 || i >= bounds.len() {
        0
    } else {
        (bounds[i].1 - bounds[i].0) + sum_sizes(bounds, i + 1)
    }
}

/// The total size of the chunks from index `i` on whose outcome is `want`.
pub open spec fn sum_sizes_where(
    bounds: Seq<(usize, usize)>,
    outcomes: Seq<bool>,
    want: bool,
    i: int,
) -> int
    decreases bounds.len() - i,
{
    if i < 0 || i >= bounds.len() {
        0
    } else {
        (if i < outcomes.len() && outcomes[i] == want {
            bounds[i].1 - bounds[i].0
        } else {
            0
        }) + sum_sizes_where(bounds, outcomes, want, i + 1)
    }
}

/// Tallies a whole run: one outcome per chunk, each accepted chunk counted
/// into the successes, each rejected one into the failures.
pub fn tally_outcomes(bounds: &Vec<(usize, usize)>, outcomes: &Vec<bool>) -> (r: RunStats)
    requires
        bounds@.len() == outcomes@.len(),
        forall|j: int| 0 <= j < bounds@.len() ==> bounds@[j].0 <= bounds@[j].1,
        sum_sizes(bounds@, 0) <= usize::MAX,
    ensures
        r.processed == sum_sizes(bounds@, 0),
        r.succeeded == sum_sizes_where(bounds@, outcomes@, true, 0),
        r.failed == sum_sizes_where(bounds@, outcomes@, false, 0),
        r.processed == r.succeeded + r.failed,
{
    let mut stats = RunStats::new();
    let ghost bs = bounds@;
    let ghost os = outcomes@;
    let mut i: usize = 0;
    while i < bounds.len()
        invariant
            i <= bs.len(),
            bs == bounds@,
            os == outcomes@,
            bs.len() == os.len(),
            forall|j: int| 0 <= j < bs.len() ==> bs[j].0 <= bs[j].1,
            sum_sizes(bs, 0) <= usize::MAX,
            stats.processed + sum_sizes(bs, i as int) == sum_sizes(bs, 0),
            stats.succeeded + sum_sizes_where(bs, os, true, i as int) == sum_sizes_where(
                bs,
                os,
                true,
                0,
            ),
            stats.failed + sum_sizes_where(bs, os, false, i as int) == sum_sizes_where(
                bs,
                os,
                false,
                0,
            ),
            stats.processed == stats.succeeded + stats.failed,
        decreases bs.len() - i,
    {
        let (lo, hi) = bounds[i];
        let len: usize = hi - lo;
        proof {
            lemma_sum_sizes_nonneg(bs, i as int + 1);
            lemma_sum_sizes_where_bounds(bs, os, true, i as int + 1);
            lemma_sum_sizes_where_bounds(bs, os, false, i as int + 1);
            assert(sum_sizes(bs, i as int) == len + sum_sizes(bs, i as int + 1));
        }
        stats.apply_batch(len, outcomes[i]);
        i = i + 1;
    }
    stats
}

/// Partial sums of sizes are at least zero.
proof fn lemma_sum_sizes_nonneg(bounds: Seq<(usize, usize)>, i: int)
    requires
        forall|j: int| 0 <= j < bounds.len() ==> bounds[j].0 <= bounds[j].1,
    ensures
        sum_sizes(bounds, i) >= 0,
    decreases bounds.len() - i,
{
    if 0 <= i < bounds.len() {
        lemma_sum_sizes_nonneg(bounds, i + 1);
    }
}

/// Partial sums of outcome-filtered sizes are at least zero and at most
/// the unfiltered sum.
proof fn lemma_sum_sizes_where_bounds(
    bounds: Seq<(usize, usize)>,
    outcomes: Seq<bool>,
    want: bool,
    i: int,
)
    requires
        forall|j: int| 0 <= j < bounds.len() ==> bounds[j].0 <= bounds[j].1,
    ensures
        0 <= sum_sizes_where(bounds, outcomes, want, i) <= sum_sizes(bounds, i),
    decreases bounds.len() - i,
{
    if 0 <= i < bounds.len() {
        lemma_sum_sizes_where_bounds(bounds, outcomes, want, i + 1);
    }
}

/// The characters of one cell's interior in the failure side-channel, from
/// position `i` on: every quote is doubled, all else verbatim.
pub open spec fn csv_escape_from(c: Seq<char>, i: int) -> Seq<char>
    decreases c.len() - i,
{
    if i < 0 || i >= c.len() {
        Seq::empty()
    } else {
        (if c[i] == '"' {
            seq!['"', '"']
        } else {
            seq![c[i]]
        }) + csv_escape_from(c, i + 1)
    }
}

/// One quoted cell.
pub open spec fn csv_cell(c: Seq<char>) -> Seq<char> {
    seq!['"'] + csv_escape_from(c, 0) + seq!['"']
}

/// One line of the failure side-channel, from cell `i` on: every cell
/// quoted, cells joined by commas.
pub open spec fn csv_line_from(row: Seq<Seq<char>>, i: int) -> Seq<char>
    decreases row.len() - i,
{
    if i < 0 || i >= row.len() {
        Seq::empty()
    } else if i == row.len() - 1 {
        csv_cell(row[i])
    } else {
        csv_cell(row[i]) + seq![','] + csv_line_from(row, i + 1)
    }
}

/// Appends one quoted cell.
fn push_csv_cell(out: &mut Vec<char>, cell: &String)
    ensures
        final(out)@ == old(out)@ + csv_cell(cell@),
{
    let cs = crate::util::str_chars(cell.as_str());
    out.push('"');
    let ghost mid = out@;
    let mut i: usize = 0;
    while i < cs.len()
        invariant
            i <= cs@.len(),
            cs@ == cell@,
            mid + csv_escape_from(cs@, 0) == out@ + csv_escape_from(cs@, i as int),
        decreases cs@.len() - i,
    {
        let c = cs[i];
        if c == '"' {
            out.push('"');
            out.push('"');
            assert(mid + csv_escape_from(cs@, 0) =~= out@ + csv_escape_from(cs@, i as int + 1));
        } else {
            out.push(c);
            assert(mid + csv_escape_from(cs@, 0) =~= out@ + csv_escape_from(cs@, i as int + 1));
        }
        i = i + 1;
    }
    assert(out@ =~= mid + csv_escape_from(cs@, 0));
    out.push('"');
    assert(out@ =~= old(out)@ + csv_cell(cell@));
}

/// The failure side-channel form of one row: every cell quoted with its
/// quotes doubled, cells joined by commas.
pub fn csv_quote_row(row: &Vec<String>) -> (r: String)
    ensures
        r@ == csv_line_from(texts_model(row@), 0),
{
    let ghost rm = texts_model(row@);
    let mut out: Vec<char> = Vec::new();
    let mut i: usize = 0;
    while i < row.len()
        invariant
            i <= row@.len(),
            rm == texts_model(row@),
            rm.len() == row@.len(),
            forall|j: int| 0 <= j < row@.len() ==> rm[j] == row@[j]@,
            csv_line_from(rm, 0) == out@ + csv_line_from(rm, i as int),
        decreases row@.len() - i,
    {
        push_csv_cell(&mut out, &row[i]);
        if i + 1 < row.len() {
            out.push(',');
            assert(csv_line_from(rm, 0) =~= out@ + csv_line_from(rm, i as int + 1));
        } else {
            assert(i == row@.len() - 1);
            assert(csv_line_from(rm, i as int) == csv_cell(rm[i as int]));
            assert(csv_line_from(rm, 0) =~= out@ + csv_line_from(rm, i as int + 1));
        }
        i = i + 1;
    }
    assert(out@ =~= csv_line_from(rm, 0));
    chars_to_string(&out)
}

} // verus!
