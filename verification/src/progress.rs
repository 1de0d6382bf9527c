//! The progress reporter: turns a monotonically growing processed count
//! into coarse percentage marks, one `=` per point and a labelled line at
//! every tenth. Purely observational: it decides nothing.

use vstd::prelude::*;

use crate::util::{dec_text, push_dec_text, chars_to_string};

verus! {

/// The percentage that a processed count stands at, capped at one hundred;
/// an empty total counts as complete.
pub open spec fn spec_percentage(count: int, total: int) -> int {
    if total <= 0 {
        100
    } else if 100 * count / total > 100 {
        100
    } else {
        100 * count / total
    }
}

/// The marks printed when the percentage moves from `from` up to `to`: one
/// `=` per point, and `:p%` with a line break at each multiple of ten.
pub open spec fn progress_marks(from: int, to: int) -> Seq<char>
    decreases to - from,
{
    if from >= to {
        Seq::empty()
    } else {
        seq!['='] + (if (from + 1) % 10 == 0 {
            seq![':'] + dec_text((from + 1) as nat) + seq!['%', '\n']
        } else {
            Seq::empty()
        }) + progress_marks(from + 1, to)
    }
}

/// Tracks how far the progress display has advanced.
#[derive(Debug, PartialEq, Eq, Clone, Copy)]
pub struct ProgressPrinter {
    pub current_percentage: usize,
    pub total_count: usize,
}

impl ProgressPrinter {
    /// A fresh display for a run over `total_count` rows.
    pub fn new(total_count: usize) -> (r: ProgressPrinter)
        ensures
            r.current_percentage == 0,
            r.total_count == total_count,
    {
        ProgressPrinter { current_percentage: 0, total_count: total_count }
    }

    /// Advances the display to the percentage of `updated_count` and
    /// returns the marks to print; the display never moves backwards.
    pub fn update_progress(&mut self, updated_count: usize) -> (out: String)
        ensures
            final(self).total_count == old(self).total_count,
            final(self).current_percentage as int == (if spec_percentage(
                updated_count as int,
                old(self).total_count as int,
            ) > old(self).current_percentage as int {
                spec_percentage(updated_count as int, old(self).total_count as int)
            } else {
                old(self).current_percentage as int
            }),
            out@ == progress_marks(
                old(self).current_percentage as int,
                final(self).current_percentage as int,
            ),
    {
        let pct: usize = if self.total_count == 0 {
            100
        } else {
            let wide: u128 = (updated_count as u128) * 100 / (self.total_count as u128);
            if wide > 100 {
                100
            } else {
                assert(wide as int == 100 * (updated_count as int) / (self.total_count as int));
                wide as usize
            }
        };
        assert(pct as int == spec_percentage(updated_count as int, self.total_count as int));
        let mut out: Vec<char> = Vec::new();
        let ghost start = self.current_percentage as int;
        let ghost target = if pct > self.current_percentage {
            pct as int
        } else {
            start
        };
        let mut p: usize = self.current_percentage;
        while p < pct
            invariant
                start <= p as int,
                p as int <= target,
                pct as int <= target || start == target,
                p < pct ==> target == pct as int,
                progress_marks(start, target) == out@ + progress_marks(p as int, target),
            decreases pct - p,
        {
            out.push('=');
            if (p + 1) % 10 == 0 {
                out.push(':');
                push_dec_text(&mut out, (p + 1) as u64);
                out.push('%');
                out.push('\n');
            }
            assert(progress_marks(start, target) =~= out@ + progress_marks(p as int + 1, target));
            p = p + 1;
        }
        assert(out@ =~= progress_marks(start, target));
        self.current_percentage = p;
        chars_to_string(&out)
    }
}

} // verus!
