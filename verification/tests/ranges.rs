use station_stats::ranges::{advance, plan_ranges, ByteRange};

fn r(start: usize, end: usize) -> ByteRange {
    ByteRange { start, end }
}

#[test]
fn advance_goes_behind_the_next_terminator() {
    let buf = b"ab\ncd\n\nef";
    assert_eq!(advance(buf, 0), 3);
    assert_eq!(advance(buf, 1), 3);
    assert_eq!(advance(buf, 2), 3);
    assert_eq!(advance(buf, 3), 6);
    assert_eq!(advance(buf, 5), 6);
    assert_eq!(advance(buf, 6), 7);
}

#[test]
fn advance_stops_at_the_end_without_a_terminator() {
    let buf = b"ab\ncd\n\nef";
    assert_eq!(advance(buf, 7), 9);
    assert_eq!(advance(buf, 9), 9);
    assert_eq!(advance(b"", 0), 0);
    assert_eq!(advance(b"abc", 0), 3);
}

#[test]
fn one_worker_gets_the_whole_buffer() {
    assert_eq!(plan_ranges(b"a;1.0\nb;2.0\n", 1), vec![r(0, 12)]);
    assert_eq!(plan_ranges(b"no terminator", 1), vec![r(0, 13)]);
}

#[test]
fn ranges_begin_behind_terminators() {
    let buf = b"a;1.0\nb;2.0\nc;3.0\n";
    assert_eq!(plan_ranges(buf, 3), vec![r(0, 12), r(12, 18), r(18, 18)]);
    assert_eq!(plan_ranges(buf, 2), vec![r(0, 12), r(12, 18)]);
}

#[test]
fn a_terminator_at_a_nominal_boundary_ends_the_earlier_range() {
    let buf = b"abcde\nfghij\n";
    assert_eq!(buf[5], b'\n');
    let ranges = {
        let mut longer = buf.to_vec();
        longer.extend_from_slice(b"k");
        plan_ranges(&longer[..10], 2)
    };
    assert_eq!(ranges, vec![r(0, 6), r(6, 10)]);
}

#[test]
fn an_empty_buffer_gives_empty_ranges() {
    assert_eq!(plan_ranges(b"", 1), vec![r(0, 0)]);
    assert_eq!(plan_ranges(b"", 4), vec![r(0, 0), r(0, 0), r(0, 0), r(0, 0)]);
}

#[test]
fn more_workers_than_bytes() {
    let buf = b"a;1.0\n";
    assert_eq!(
        plan_ranges(buf, 8),
        vec![r(0, 6), r(6, 6), r(6, 6), r(6, 6), r(6, 6), r(6, 6), r(6, 6), r(6, 6)]
    );
}

#[test]
fn a_buffer_without_terminator_stays_in_one_range() {
    assert_eq!(plan_ranges(b"abcdefgh", 2), vec![r(0, 8), r(8, 8)]);
    assert_eq!(plan_ranges(b"a;1.0\nbcdefgh", 3), vec![r(0, 6), r(6, 13), r(13, 13)]);
}

#[test]
fn ranges_are_contiguous_and_cover_the_buffer() {
    let buf = b"alpha;1.0\nb;2.0\n\n\ngamma;-3.5\nd;0.0\nlast";
    for workers in 1..=buf.len() + 3 {
        let ranges = plan_ranges(buf, workers);
        assert_eq!(ranges.len(), workers);
        assert_eq!(ranges[0].start, 0);
        assert_eq!(ranges[workers - 1].end, buf.len());
        for i in 0..workers {
            assert!(ranges[i].start <= ranges[i].end);
            let end = ranges[i].end;
            assert!(end == buf.len() || end == 0 || buf[end - 1] == b'\n');
            if i + 1 < workers {
                assert_eq!(ranges[i].end, ranges[i + 1].start);
            }
        }
    }
}
