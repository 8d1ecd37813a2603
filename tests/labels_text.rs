use label_review::labels::{first_words, format_line, read_labels, write_labels, LabelFields};
use label_review::text::{is_space_char, split_words};

fn lines(v: &[&str]) -> Vec<String> {
    v.iter().map(|s| s.to_string()).collect()
}

fn fields(c: &str, x: &str, y: &str, w: &str, h: &str) -> LabelFields {
    LabelFields {
        class: c.to_string(),
        x: x.to_string(),
        y: y.to_string(),
        width: w.to_string(),
        height: h.to_string(),
    }
}

#[test]
fn split_words_on_any_white_space() {
    assert_eq!(split_words("  0 0.5\t0.25  1\n"), vec!["0", "0.5", "0.25", "1"]);
    assert_eq!(split_words("a\u{3000}b\u{a0}c"), vec!["a", "b", "c"]);
    assert!(split_words("").is_empty());
    assert!(split_words(" \t ").is_empty());
    assert!(is_space_char('\u{2009}'));
    assert!(!is_space_char('x'));
}

#[test]
fn malformed_line_is_skipped() {
    let r = read_labels(&lines(&["0 0.5 0.5 0.2 0.2", "1 0.3 0.4"]));
    assert_eq!(r.records.len(), 1);
    assert_eq!(r.skipped, 1);
    assert_eq!(r.records[0].class, "0");
    assert_eq!(r.records[0].height, "0.2");
}

#[test]
fn read_counts_every_bad_line() {
    let r = read_labels(&lines(&["", "1 2 3 4 5 6", "2 0.1 0.2 0.3 0.4", "   "]));
    assert_eq!(r.records.len(), 1);
    assert_eq!(r.skipped, 3);
    assert_eq!(r.records[0].x, "0.1");
    assert_eq!(r.records[0].width, "0.3");
}

#[test]
fn format_line_joins_with_single_spaces() {
    let f = fields("3", "0.5", "0.25", "0.125", "1");
    assert_eq!(format_line(&f), "3 0.5 0.25 0.125 1");
}

#[test]
fn write_then_read_round_trips() {
    let set = vec![
        fields("0", "0.5", "0.5", "0.2", "0.2"),
        fields("7", "0.123456789", "1", "0", "0.75"),
        fields("12", "1e-7", "0.3333333333333333", "0.9", "0.01"),
    ];
    let written = write_labels(&set);
    assert_eq!(written.len(), 3);
    let back = read_labels(&written);
    assert_eq!(back.skipped, 0);
    assert_eq!(back.records.len(), set.len());
    for (a, b) in back.records.iter().zip(set.iter()) {
        assert_eq!(a.class, b.class);
        assert_eq!(a.x, b.x);
        assert_eq!(a.y, b.y);
        assert_eq!(a.width, b.width);
        assert_eq!(a.height, b.height);
    }
}

#[test]
fn write_of_empty_set_is_empty() {
    assert!(write_labels(&Vec::new()).is_empty());
}

#[test]
fn first_words_takes_the_class_of_any_line() {
    let got = first_words(&lines(&["2 0.1 0.2 0.3 0.4", "", "5 0.1", "  9"]));
    assert_eq!(got, vec!["2", "5", "9"]);
}
