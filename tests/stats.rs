use bfbs::column::ColumnStats;
use bfbs::dataset::{decimal, read_table, split_records, DataError, Dataset, Table};
use bfbs::engine::{next_step, steps, Action, Phase};
use bfbs::num::{less_than, Num};
use bfbs::text::{filter_lines, holds_row, join_lines};

const PREC: u32 = 64;

/// An integer as a normalized one-word number.
fn num(v: i64) -> Num {
    if v == 0 {
        return Num { neg: false, words: vec![0], exp: 0 };
    }
    let mag = v.unsigned_abs();
    let lz = mag.leading_zeros();
    Num { neg: v < 0, words: vec![mag << lz], exp: -(lz as i64) }
}

fn value(n: &Num) -> f64 {
    let m = n.words[0] as f64 * 2f64.powi(n.exp as i32);
    if n.neg {
        -m
    } else {
        m
    }
}

fn lines(text: &[&str]) -> Vec<String> {
    text.iter().map(|s| s.to_string()).collect()
}

fn parse_rows(t: &Table) -> Vec<Vec<Option<Num>>> {
    t.rows
        .iter()
        .map(|row| row.iter().map(|cell| cell.trim().parse::<i64>().ok().map(num)).collect())
        .collect()
}

fn dataset(text: &[&str], skip: usize, has_header: bool) -> Dataset {
    let t = match read_table(&lines(text), skip, '#', has_header) {
        Ok(t) => t,
        Err(_) => panic!("table not read"),
    };
    let rows = parse_rows(&t);
    match Dataset::build(t.names, &rows, PREC) {
        Ok(d) => d,
        Err(_) => panic!("dataset not built"),
    }
}

/// Runs the statistics schedule of a column in f64: (sum, mean, variance, stddev).
fn run(c: &ColumnStats) -> (f64, f64, f64, f64) {
    let vals: Vec<f64> = c.values().iter().map(value).collect();
    let (mut sum, mut mean, mut dev, mut var, mut sd) = (0.0, 0.0, 0.0, 0.0, 0.0);
    for a in steps(c.count()) {
        match a {
            Action::AddToSum(i) => sum += vals[i],
            Action::DivideSum(d) => mean = sum / d as f64,
            Action::ZeroMean => mean = 0.0,
            Action::AddSquaredDeviation(i) => dev += (vals[i] - mean) * (vals[i] - mean),
            Action::DivideDeviations(d) => {
                var = dev / d as f64;
                sd = var.sqrt();
            }
            Action::ZeroVariance => {
                var = 0.0;
                sd = 0.0;
            }
            Action::Finish => {}
        }
    }
    (sum, mean, var, sd)
}

#[test]
fn single_column_without_header() {
    let d = dataset(&["1", "2", "3"], 0, false);
    assert_eq!(d.names(), &vec!["1".to_string()]);
    let c = &d.columns()[0];
    assert_eq!(c.count(), 3);
    assert_eq!(value(c.minimum(PREC)), 1.0);
    assert_eq!(value(c.maximum(PREC)), 3.0);
    assert_eq!(value(c.maximum(PREC)) - value(c.minimum(PREC)), 2.0);
    let (sum, mean, var, sd) = run(c);
    assert_eq!((sum, mean, var, sd), (6.0, 2.0, 1.0, 1.0));
}

#[test]
fn header_names_two_columns() {
    let d = dataset(&["a,b", "1,10", "3,30"], 0, true);
    assert_eq!(d.names(), &vec!["a".to_string(), "b".to_string()]);
    let a = &d.columns()[0];
    let b = &d.columns()[1];
    assert_eq!(a.count(), 2);
    assert_eq!((value(a.minimum(PREC)), value(a.maximum(PREC))), (1.0, 3.0));
    assert_eq!(run(a).0, 4.0);
    assert_eq!(run(a).1, 2.0);
    assert_eq!(b.count(), 2);
    assert_eq!((value(b.minimum(PREC)), value(b.maximum(PREC))), (10.0, 30.0));
    assert_eq!(run(b).0, 40.0);
    assert_eq!(run(b).1, 20.0);
}

#[test]
fn unparseable_cell_is_skipped() {
    let d = dataset(&["1,x,3", "4,5,6"], 0, false);
    let counts: Vec<usize> = d.columns().iter().map(|c| c.count()).collect();
    assert_eq!(counts, vec![2, 1, 2]);
    assert_eq!(value(d.columns()[1].minimum(PREC)), 5.0);
    assert_eq!(value(d.columns()[2].maximum(PREC)), 6.0);
}

#[test]
fn single_value_has_zero_variance() {
    let d = dataset(&["7"], 0, false);
    let c = &d.columns()[0];
    assert_eq!(c.count(), 1);
    assert_eq!(steps(1), vec![Action::AddToSum(0), Action::DivideSum(1), Action::ZeroVariance]);
    assert_eq!(run(c), (7.0, 7.0, 0.0, 0.0));
}

#[test]
fn empty_column_is_all_zero() {
    let c = ColumnStats::new(PREC);
    assert_eq!(c.count(), 0);
    assert_eq!(value(c.minimum(PREC)), 0.0);
    assert_eq!(value(c.maximum(PREC)), 0.0);
    assert_eq!(steps(0), vec![Action::ZeroMean, Action::ZeroVariance]);
    assert_eq!(run(&c), (0.0, 0.0, 0.0, 0.0));
}

#[test]
fn comments_blanks_and_skipped_lines_are_not_counted() {
    let text = ["99", "98", "# 97", "   ", "", "  #96", "1", "2"];
    let kept = filter_lines(&lines(&text), 2, '#');
    assert_eq!(kept, lines(&["1", "2"]));
    let d = dataset(&text, 2, false);
    let c = &d.columns()[0];
    assert_eq!(c.count(), 2);
    assert_eq!(value(c.maximum(PREC)), 2.0);
}

#[test]
fn skip_beyond_the_file_leaves_nothing() {
    assert!(filter_lines(&lines(&["1", "2"]), 5, '#').is_empty());
    let d = dataset(&["1", "2"], 5, false);
    assert!(d.columns().is_empty());
}

#[test]
fn row_lines_are_recognised() {
    assert!(holds_row("1,2", '#'));
    assert!(holds_row(" x#", '#'));
    assert!(!holds_row("\t# note", '#'));
    assert!(!holds_row(" \u{a0} ", '#'));
    assert!(!holds_row("", '#'));
    assert!(holds_row("  ", ' ') == false);
    assert!(!holds_row("%c", '%'));
}

#[test]
fn lines_are_joined_by_newlines() {
    assert_eq!(join_lines(&lines(&["a", "b", "c"])), "a\nb\nc");
    assert_eq!(join_lines(&lines(&[])), "");
}

#[test]
fn empty_input_gives_no_columns() {
    let d = dataset(&[], 0, true);
    assert!(d.names().is_empty());
    assert!(d.columns().is_empty());
}

#[test]
fn duplicate_header_is_refused() {
    let t = match read_table(&lines(&["a,b,a", "1,2,3"]), 0, '#', true) {
        Ok(t) => t,
        Err(_) => panic!("table not read"),
    };
    let rows = parse_rows(&t);
    match Dataset::build(t.names, &rows, PREC) {
        Err(DataError::DuplicateColumn(name)) => assert_eq!(name, "a"),
        _ => panic!("duplicate accepted"),
    }
}

#[test]
fn short_rows_route_present_cells() {
    let d = dataset(&["h1,h2,h3", "1,2,3", "4", "5,6"], 0, true);
    let counts: Vec<usize> = d.columns().iter().map(|c| c.count()).collect();
    assert_eq!(counts, vec![3, 2, 1]);
}

#[test]
fn numbers_of_another_width_are_skipped() {
    let rows = vec![vec![Some(num(5))], vec![Some(Num { neg: false, words: vec![1 << 63, 0], exp: 0 })]];
    let d = match Dataset::build(vec!["x".to_string()], &rows, PREC) {
        Ok(d) => d,
        Err(_) => panic!("dataset not built"),
    };
    assert_eq!(d.columns()[0].count(), 1);
}

#[test]
fn insertion_order_keeps_count_and_extrema() {
    let a = dataset(&["3", "-1", "7", "2"], 0, false);
    let b = dataset(&["7", "2", "3", "-1"], 0, false);
    let (ca, cb) = (&a.columns()[0], &b.columns()[0]);
    assert_eq!(ca.count(), cb.count());
    assert_eq!(value(ca.minimum(PREC)), value(cb.minimum(PREC)));
    assert_eq!(value(ca.maximum(PREC)), value(cb.maximum(PREC)));
    assert_eq!(value(ca.minimum(PREC)), -1.0);
    let (ra, rb) = (run(ca), run(cb));
    assert!((ra.1 - rb.1).abs() < 1e-12);
    assert!((ra.2 - rb.2).abs() < 1e-12);
}

#[test]
fn comparison_orders_by_value() {
    assert!(less_than(&num(1), &num(3)));
    assert!(!less_than(&num(3), &num(1)));
    assert!(less_than(&num(-5), &num(-2)));
    assert!(less_than(&num(-1), &num(0)));
    assert!(less_than(&num(0), &num(1)));
    assert!(!less_than(&num(0), &num(0)));
    assert!(!less_than(&num(4), &num(4)));
    assert!(less_than(&num(3), &num(1 << 40)));
    let negative_zero = Num { neg: true, words: vec![0], exp: 5 };
    assert!(!less_than(&negative_zero, &num(0)));
    assert!(!less_than(&num(0), &negative_zero));
}

#[test]
fn extrema_follow_added_values() {
    let mut c = ColumnStats::new(PREC);
    for v in [4, -3, 9, -3, 0] {
        c.add(num(v));
    }
    assert_eq!(c.count(), 5);
    assert_eq!(value(c.minimum(PREC)), -3.0);
    assert_eq!(value(c.maximum(PREC)), 9.0);
    let kept: Vec<f64> = c.values().iter().map(value).collect();
    assert_eq!(kept, vec![4.0, -3.0, 9.0, -3.0, 0.0]);
}

#[test]
fn normalization_is_checked() {
    assert!(num(6).fits(1));
    assert!(!num(6).fits(2));
    assert!(Num { neg: false, words: vec![0, 0], exp: 0 }.fits(2));
    assert!(!Num { neg: false, words: vec![1, 0], exp: 0 }.fits(2));
    assert!(!Num { neg: false, words: vec![], exp: 0 }.fits(0));
    let d = num(-12).duplicate();
    assert_eq!(value(&d), -12.0);
    assert_eq!(value(&Num::zero(3)), 0.0);
}

#[test]
fn positions_name_columns() {
    assert_eq!(decimal(0), "0");
    assert_eq!(decimal(7), "7");
    assert_eq!(decimal(1204), "1204");
    let t = split_records(vec![lines(&["1", "2", "3"])], false);
    assert_eq!(t.names, lines(&["1", "2", "3"]));
    assert_eq!(t.rows.len(), 1);
    let h = split_records(vec![lines(&["x", "y"]), lines(&["1", "2"])], true);
    assert_eq!(h.names, lines(&["x", "y"]));
    assert_eq!(h.rows, vec![lines(&["1", "2"])]);
}

#[test]
fn schedule_steps_in_insertion_order() {
    assert_eq!(
        steps(3),
        vec![
            Action::AddToSum(0),
            Action::AddToSum(1),
            Action::AddToSum(2),
            Action::DivideSum(3),
            Action::AddSquaredDeviation(0),
            Action::AddSquaredDeviation(1),
            Action::AddSquaredDeviation(2),
            Action::DivideDeviations(2),
        ]
    );
    assert_eq!(next_step(2, &Phase::Done), (Action::Finish, Phase::Done));
    assert_eq!(next_step(0, &Phase::Mean), (Action::ZeroMean, Phase::Variance));
}

#[test]
fn quoted_fields_stay_whole() {
    let t = match read_table(&lines(&["\"a,b\",c", "\"1,5\",2"]), 0, '#', true) {
        Ok(t) => t,
        Err(_) => panic!("table not read"),
    };
    assert_eq!(t.names, lines(&["a,b", "c"]));
    assert_eq!(t.rows, vec![lines(&["1,5", "2"])]);
    let rows = parse_rows(&t);
    let d = match Dataset::build(t.names, &rows, PREC) {
        Ok(d) => d,
        Err(_) => panic!("dataset not built"),
    };
    let counts: Vec<usize> = d.columns().iter().map(|c| c.count()).collect();
    assert_eq!(counts, vec![0, 1]);
}
