use csv_to_dynamo::batch::{chunk_bounds, csv_quote_row, tally_outcomes, RunStats};
use csv_to_dynamo::config::{check_range, interpret_yes_no, Config};
use csv_to_dynamo::progress::ProgressPrinter;

fn strings(cells: &[&str]) -> Vec<String> {
    cells.iter().map(|c| c.to_string()).collect()
}

#[test]
fn chunks_cover_the_rows_in_order() {
    assert_eq!(chunk_bounds(5, 2), vec![(0, 2), (2, 4), (4, 5)]);
    assert_eq!(chunk_bounds(4, 2), vec![(0, 2), (2, 4)]);
    assert_eq!(chunk_bounds(0, 7), Vec::<(usize, usize)>::new());
    assert_eq!(chunk_bounds(1, 25), vec![(0, 1)]);
    assert_eq!(chunk_bounds(25, 25), vec![(0, 25)]);
    assert_eq!(chunk_bounds(26, 25), vec![(0, 25), (25, 26)]);
}

#[test]
fn chunk_count_is_the_ceiling() {
    for n in 0..60usize {
        for b in 1..9usize {
            let r = chunk_bounds(n, b);
            assert_eq!(r.len(), (n + b - 1) / b, "n={} b={}", n, b);
            for (i, (lo, hi)) in r.iter().enumerate() {
                assert!(hi - lo <= b);
                if i + 1 < r.len() {
                    assert_eq!(hi - lo, b);
                }
            }
            if n > 0 {
                let (_, hi) = r[r.len() - 1];
                assert_eq!(hi, n);
                let last = r[r.len() - 1].1 - r[r.len() - 1].0;
                assert_eq!(last, if n % b == 0 { b } else { n % b });
            }
        }
    }
}

#[test]
fn second_batch_failure_routes_its_rows() {
    // batch size 2, 5 encodable rows: sends of sizes 2, 2, 1; the second
    // send fails, so rows 3 and 4 go to the failure side-channel while
    // rows 1, 2 and 5 count as successes
    let rows = vec![
        strings(&["1", "a"]),
        strings(&["2", "b"]),
        strings(&["3", "c"]),
        strings(&["4", "d"]),
        strings(&["5", "e"]),
    ];
    let bounds = chunk_bounds(rows.len(), 2);
    assert_eq!(bounds, vec![(0, 2), (2, 4), (4, 5)]);
    let outcomes = vec![true, false, true];
    let stats = tally_outcomes(&bounds, &outcomes);
    assert_eq!(stats.processed, 5);
    assert_eq!(stats.succeeded, 3);
    assert_eq!(stats.failed, 2);

    let mut failed_lines = Vec::new();
    for (i, (lo, hi)) in bounds.iter().enumerate() {
        if !outcomes[i] {
            for r in &rows[*lo..*hi] {
                failed_lines.push(csv_quote_row(r));
            }
        }
    }
    assert_eq!(failed_lines, vec!["\"3\",\"c\"".to_string(), "\"4\",\"d\"".to_string()]);
}

#[test]
fn counters_accumulate_batch_by_batch() {
    let mut stats = RunStats::new();
    stats.apply_batch(2, true);
    stats.apply_batch(2, false);
    stats.apply_batch(1, true);
    assert_eq!(stats.processed, 5);
    assert_eq!(stats.succeeded, 3);
    assert_eq!(stats.failed, 2);
}

#[test]
fn csv_rows_are_quoted_and_escaped() {
    assert_eq!(csv_quote_row(&strings(&["a", "b"])), "\"a\",\"b\"");
    assert_eq!(csv_quote_row(&strings(&["say \"hi\""])), "\"say \"\"hi\"\"\"");
    assert_eq!(csv_quote_row(&strings(&["", "x,y"])), "\"\",\"x,y\"");
    assert_eq!(csv_quote_row(&Vec::new()), "");
}

#[test]
fn progress_marks_advance_to_milestones() {
    let mut p = ProgressPrinter::new(10);
    assert_eq!(p.update_progress(1), "==========:10%\n");
    assert_eq!(p.update_progress(1), "");
    assert_eq!(
        p.update_progress(2),
        "==========:20%\n"
    );
    let mut q = ProgressPrinter::new(4);
    let s = q.update_progress(1);
    assert_eq!(s, format!("{}{}{}", "==========:10%\n", "==========:20%\n", "====="));
    let mut r = ProgressPrinter::new(3);
    let all = r.update_progress(3);
    assert!(all.ends_with(":100%\n"));
    assert_eq!(all.matches('=').count(), 100);
}

#[test]
fn configuration_bounds_are_enforced() {
    assert_eq!(check_range(10, 1, 25), Some(10));
    assert_eq!(check_range(0, 1, 25), None);
    assert_eq!(check_range(26, 1, 25), None);
    assert_eq!(check_range(0, 0, 30000), Some(0));

    let good = Config {
        region: "ap-southeast-2".to_string(),
        table_name: "t".to_string(),
        batch_size: 10,
        batch_interval: 50,
        should_preview_record: false,
        enable_log: true,
        allow_set: false,
        allow_null: false,
    };
    assert!(good.validate());
    let bad = Config { batch_size: 0, ..good };
    assert!(!bad.validate());
}

#[test]
fn yes_or_no_answers() {
    assert!(interpret_yes_no(&vec![], true));
    assert!(!interpret_yes_no(&vec![], false));
    assert!(interpret_yes_no(&vec!['y', 'e', 's'], false));
    assert!(interpret_yes_no(&vec!['Y'], false));
    assert!(!interpret_yes_no(&vec!['n', 'o'], true));
}

#[test]
fn failure_lines_reingest_through_a_csv_reader() {
    let row = strings(&["plain", "with \"quotes\"", "comma, inside", "line\nbreak", ""]);
    let line = csv_quote_row(&row);
    let mut reader = csv::ReaderBuilder::new()
        .has_headers(false)
        .from_reader(line.as_bytes());
    let record = reader.records().next().unwrap().unwrap();
    let cells: Vec<String> = record.iter().map(|c| c.to_string()).collect();
    assert_eq!(cells, row);
}
