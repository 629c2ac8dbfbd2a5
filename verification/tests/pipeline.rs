use station_stats::pipeline::{scan_ranges, summarize};
use station_stats::ranges::{plan_ranges, ByteRange};
use station_stats::reducer::reduce;
use station_stats::report::{render_line, report};
use station_stats::scanner::ScanError;
use station_stats::statistic::Statistic;
use station_stats::table::Table;
use station_stats::worker::aggregate;

fn lines(out: Vec<Vec<u8>>) -> Vec<String> {
    out.into_iter().map(|l| String::from_utf8(l).unwrap()).collect()
}

fn run(input: &[u8], workers: usize) -> Vec<String> {
    lines(summarize(input, workers).unwrap())
}

fn stat(values: &[i32]) -> Statistic {
    let mut s = Statistic::new();
    for v in values {
        s.add(*v);
    }
    s
}

#[test]
fn two_keys_come_out_sorted_with_min_mean_max() {
    assert_eq!(
        run(b"A;10.0\nB;-5.5\nA;20.0\n", 1),
        vec!["A;10.0/15.0/20.0".to_string(), "B;-5.5/-5.5/-5.5".to_string()]
    );
}

#[test]
fn an_empty_input_gives_no_lines() {
    assert_eq!(summarize(b"", 1), Ok(Vec::<Vec<u8>>::new()));
    assert_eq!(summarize(b"", 7), Ok(Vec::<Vec<u8>>::new()));
}

#[test]
fn the_worker_count_is_irrelevant() {
    let input = b"Hamburg;12.0\nBulawayo;8.9\nPalembang;38.8\nHamburg;34.2\nSt. John's;15.2\n\
Cracow;12.6\nBulawayo;-2.3\nHamburg;-14.7\nPalembang;0.0\nCracow;99.9\nno separator\n\
Bulawayo;8.9\nbad;value\nHamburg;0.1\n";
    let one = run(input, 1);
    assert_eq!(
        one,
        vec![
            "Bulawayo;-2.3/5.2/8.9",
            "Cracow;12.6/56.3/99.9",
            "Hamburg;-14.7/7.9/34.2",
            "Palembang;0.0/19.4/38.8",
            "St. John's;15.2/15.2/15.2",
        ]
    );
    for workers in 2..=input.len() + 2 {
        assert_eq!(run(input, workers), one);
    }
}

#[test]
fn a_line_without_separator_is_skipped() {
    assert_eq!(
        run(b"A;10.0\nCcity10.0\nA;20.0\n", 1),
        vec!["A;10.0/15.0/20.0".to_string()]
    );
    assert_eq!(run(b"Ccity10.0\n", 3), Vec::<String>::new());
}

#[test]
fn a_line_with_an_unreadable_value_is_skipped() {
    assert_eq!(
        run(b"A;10.0\nA;abc\nA;\nA;1.23\nA;+3.0\nB;7\nA;20.0\n", 2),
        vec!["A;10.0/15.0/20.0".to_string()]
    );
}

#[test]
fn an_unterminated_last_line_is_dropped() {
    assert_eq!(run(b"A;10.0\nB;5.0", 1), vec!["A;10.0/10.0/10.0".to_string()]);
    assert_eq!(run(b"A;10.0\nB;5.0", 4), vec!["A;10.0/10.0/10.0".to_string()]);
    assert_eq!(run(b"A;10.0", 2), Vec::<String>::new());
}

#[test]
fn running_twice_gives_the_same_bytes() {
    let input = b"x;1.5\ny;-2.5\nx;3.5\nz;0.0\ny;9.9\n";
    assert_eq!(summarize(input, 3), summarize(input, 3));
    assert_eq!(summarize(input, 1), summarize(input, 5));
}

#[test]
fn keys_come_out_in_byte_order() {
    let input = "b;1.0\nZürich;2.0\na;3.0\nZurich;4.0\nB;5.0\nab;6.0\n".as_bytes();
    assert_eq!(
        run(input, 2),
        vec![
            "B;5.0/5.0/5.0",
            "Zurich;4.0/4.0/4.0",
            "Zürich;2.0/2.0/2.0",
            "a;3.0/3.0/3.0",
            "ab;6.0/6.0/6.0",
            "b;1.0/1.0/1.0",
        ]
    );
}

#[test]
fn the_mean_is_rounded_to_one_digit() {
    assert_eq!(run(b"k;0.1\nk;0.2\n", 1), vec!["k;0.1/0.2/0.2".to_string()]);
    assert_eq!(run(b"k;-0.1\nk;-0.2\n", 1), vec!["k;-0.2/-0.2/-0.1".to_string()]);
    assert_eq!(run(b"k;0.1\nk;0.1\nk;0.2\n", 1), vec!["k;0.1/0.1/0.2".to_string()]);
    assert_eq!(run(b"k;1.0\nk;-1.1\n", 1), vec!["k;-1.1/-0.1/1.0".to_string()]);
}

#[test]
fn a_key_that_is_not_text_fails_the_run() {
    assert_eq!(summarize(b"A;1.0\n\xff\xfe;2.0\nB;3.0\n", 1), Err(ScanError::UndecodableKey));
    for workers in 1..8 {
        assert_eq!(
            summarize(b"A;1.0\nB;3.0\nC;1.0\n\xc3;oops\n", workers),
            Err(ScanError::UndecodableKey)
        );
    }
}

#[test]
fn bytes_that_are_not_text_do_no_harm_outside_keys() {
    assert_eq!(run(b"\xff\xfe\nA;1.0\nB;\xff\n", 1), vec!["A;1.0/1.0/1.0".to_string()]);
    assert_eq!(run(b"A;1.0\n\xff;2.0", 2), vec!["A;1.0/1.0/1.0".to_string()]);
}

#[test]
fn aggregate_scans_its_range_only() {
    let buf = b"a;1.0\nb;2.0\na;3.0\nc;4.0\n";
    let t = aggregate(buf, 6, 18).unwrap();
    assert_eq!(t.get(b"a"), Some(stat(&[30])));
    assert_eq!(t.get(b"b"), Some(stat(&[20])));
    assert_eq!(t.get(b"c"), None);
    let whole = aggregate(buf, 0, buf.len()).unwrap();
    assert_eq!(whole.get(b"a"), Some(stat(&[10, 30])));
    assert_eq!(whole.get(b"c"), Some(stat(&[40])));
    let none = aggregate(buf, 6, 6).unwrap();
    assert!(none.into_entries().is_empty());
}

#[test]
fn aggregate_reports_an_undecodable_key() {
    assert_eq!(aggregate(b"a;1.0\n\x80;2.0\n", 0, 12).err(), Some(ScanError::UndecodableKey));
    assert_eq!(aggregate(b"a;1.0\n\x80;2.0\n", 6, 12).err(), Some(ScanError::UndecodableKey));
    assert!(aggregate(b"a;1.0\n\x80;2.0\n", 0, 6).is_ok());
    assert!(aggregate(b"a;1.0\n\x80;2.0", 0, 11).is_ok());
}

#[test]
fn ranges_together_hold_the_records_of_the_whole() {
    let buf = b"a;1.0\nbb;2.0\n\nccc;-3.0\nbroken\na;4.0\ndddd;5.5\nbb;0.0\ntail";
    let whole: usize = aggregate(buf, 0, buf.len())
        .unwrap()
        .into_entries()
        .iter()
        .map(|e| e.1.count() as usize)
        .sum();
    assert_eq!(whole, 6);
    for workers in 1..=buf.len() {
        let ranges = plan_ranges(buf, workers);
        let tables = scan_ranges(buf, &ranges).unwrap();
        assert_eq!(tables.len(), workers);
        let mut records = 0;
        for t in tables {
            records += t.into_entries().iter().map(|e| e.1.count() as usize).sum::<usize>();
        }
        assert_eq!(records, whole);
    }
}

#[test]
fn scan_ranges_fails_on_an_undecodable_key() {
    let buf = b"a;1.0\n\xff;2.0\n";
    let ranges = vec![ByteRange { start: 0, end: 6 }, ByteRange { start: 6, end: 12 }];
    assert_eq!(scan_ranges(buf, &ranges).err(), Some(ScanError::UndecodableKey));
    let first = vec![ByteRange { start: 0, end: 6 }];
    assert!(scan_ranges(buf, &first).is_ok());
}

#[test]
fn reduce_merges_in_any_order() {
    let make = |pairs: &[(&[u8], i32)]| {
        let mut t = Table::new();
        for (k, v) in pairs {
            t.record(k, *v);
        }
        t
    };
    let parts: [&[(&[u8], i32)]; 3] =
        [&[(b"a", 1), (b"b", 2)], &[(b"a", -9), (b"c", 3)], &[(b"b", 7), (b"a", 4)]];
    let orders: [[usize; 3]; 6] =
        [[0, 1, 2], [0, 2, 1], [1, 0, 2], [1, 2, 0], [2, 0, 1], [2, 1, 0]];
    for order in orders {
        let total = reduce(order.iter().map(|i| make(parts[*i])).collect());
        assert_eq!(total.get(b"a"), Some(stat(&[1, -9, 4])));
        assert_eq!(total.get(b"b"), Some(stat(&[2, 7])));
        assert_eq!(total.get(b"c"), Some(stat(&[3])));
        assert_eq!(total.into_entries().len(), 3);
    }
}

#[test]
fn reduce_of_nothing_is_empty() {
    assert!(reduce(Vec::new()).into_entries().is_empty());
    assert!(reduce(vec![Table::new(), Table::new()]).into_entries().is_empty());
}

#[test]
fn render_line_writes_min_mean_max() {
    assert_eq!(render_line(b"A", &stat(&[100, 200])), b"A;10.0/15.0/20.0");
    assert_eq!(render_line(b"", &stat(&[-55])), b";-5.5/-5.5/-5.5");
    assert_eq!(
        render_line("Zürich".as_bytes(), &stat(&[-999, 999, 1])),
        "Zürich;-99.9/0.0/99.9".as_bytes()
    );
}

#[test]
fn report_of_an_empty_table_is_empty() {
    assert!(report(Table::new()).is_empty());
}

#[test]
fn report_renders_every_key_once() {
    let mut t = Table::new();
    t.record(b"b", 15);
    t.record(b"a", -15);
    t.record(b"b", 25);
    assert_eq!(lines(report(t)), vec!["a;-1.5/-1.5/-1.5", "b;1.5/2.0/2.5"]);
}
