use sst::stream::{
    classify_line, number_line, pair_line, parse_2_usize, parse_last_usize, try_parse_2_usize, LineKind,
};

#[test]
fn parse_2_usize_reads_second_and_third_words() {
    assert_eq!(parse_2_usize(&"x 1 0".to_string()), (1, 0));
    assert_eq!(parse_2_usize(&"d  16\t16".to_string()), (16, 16));
    assert_eq!(parse_2_usize(&"d 3 4 5".to_string()), (3, 4));
}

#[test]
fn try_parse_2_usize_rejects_short_or_bad_lines() {
    assert_eq!(try_parse_2_usize("d 3"), None);
    assert_eq!(try_parse_2_usize("d"), None);
    assert_eq!(try_parse_2_usize(""), None);
    assert_eq!(try_parse_2_usize("d a 3"), None);
    assert_eq!(try_parse_2_usize("d 3 -4"), None);
    assert_eq!(try_parse_2_usize("x 12 7"), Some((12, 7)));
}

#[test]
fn parse_last_usize_reads_last_word() {
    assert_eq!(parse_last_usize("n 1000"), Some(1000));
    assert_eq!(parse_last_usize("c 5 7"), Some(7));
    assert_eq!(parse_last_usize("c 5  "), Some(5));
    assert_eq!(parse_last_usize("n"), None);
    assert_eq!(parse_last_usize(""), None);
    assert_eq!(parse_last_usize("n 2.5"), None);
}

#[test]
fn classify_line_by_first_character() {
    assert_eq!(classify_line(""), LineKind::Skip);
    assert_eq!(classify_line("# sstfin"), LineKind::Skip);
    assert_eq!(classify_line("n 100"), LineKind::PointCount);
    assert_eq!(classify_line("c 5"), LineKind::CellSize);
    assert_eq!(classify_line("d 4 4"), LineKind::GridDimensions);
    assert_eq!(classify_line("b 0.5 1.5"), LineKind::BoundingBox);
    assert_eq!(classify_line("v 1 2 3"), LineKind::Vertex);
    assert_eq!(classify_line("x 0 1"), LineKind::FinaliseCell);
}

#[test]
fn classify_line_malformed() {
    assert_eq!(classify_line("s 5"), LineKind::Malformed);
    assert_eq!(classify_line(" v 1 2 3"), LineKind::Malformed);
    assert_eq!(classify_line("V 1 2 3"), LineKind::Malformed);
    assert_eq!(classify_line("é"), LineKind::Malformed);
}

#[test]
fn written_cell_lines_read_back() {
    for (i, j) in [(0usize, 0usize), (1, 0), (15, 3), (usize::MAX, 7)].iter() {
        let line = format!("x {} {}\n", i, j);
        let l = line.trim_end().to_string();
        assert_eq!(classify_line(&l), LineKind::FinaliseCell);
        assert_eq!(parse_2_usize(&l), (*i, *j));
    }
    assert_eq!(parse_last_usize(&format!("n {}", 123456)), Some(123456));
}

#[test]
fn integer_lines_are_written_as_format_writes_them() {
    for n in [0usize, 7, 10, 99, 100, 123456789, usize::MAX].iter() {
        assert_eq!(number_line('n', *n), format!("n {}", n));
        assert_eq!(pair_line('x', *n, 3), format!("x {} 3", n));
    }
    assert_eq!(pair_line('d', 16, 0), "d 16 0");
}

#[test]
fn written_lines_read_back() {
    for (a, b) in [(0usize, 0usize), (1, 0), (15, 3), (usize::MAX, 12)].iter() {
        let l = pair_line('x', *a, *b);
        assert_eq!(classify_line(&l), LineKind::FinaliseCell);
        assert_eq!(parse_2_usize(&l), (*a, *b));
        let with_tail = format!("{}\t# trailing", l);
        assert_eq!(parse_2_usize(&with_tail), (*a, *b));
        let n = number_line('c', *a);
        assert_eq!(parse_last_usize(&n), Some(*a));
        assert_eq!(parse_last_usize(&format!("{} \r", n)), Some(*a));
    }
}
