use gliphoread::tsv::{parse_decimal_u32, parse_word_rows};

const HEADER: &str =
    "level\tpage_num\tblock_num\tpar_num\tline_num\tword_num\tleft\ttop\twidth\theight\tconf\ttext";

fn number(s: &str) -> Option<u32> {
    parse_decimal_u32(s.as_bytes(), 0, s.len())
}

#[test]
fn decimal_numbers() {
    assert_eq!(number("0"), Some(0));
    assert_eq!(number("123"), Some(123));
    assert_eq!(number("+7"), Some(7));
    assert_eq!(number("007"), Some(7));
    assert_eq!(number("4294967295"), Some(4294967295));
    assert_eq!(number("00000000004294967295"), Some(4294967295));
}

#[test]
fn decimal_non_numbers() {
    assert_eq!(number(""), None);
    assert_eq!(number("+"), None);
    assert_eq!(number("-1"), None);
    assert_eq!(number("++1"), None);
    assert_eq!(number("12a"), None);
    assert_eq!(number(" 12"), None);
    assert_eq!(number("4294967296"), None);
    assert_eq!(number("99999999999999999999"), None);
    assert_eq!(number("1.5"), None);
}

#[test]
fn decimal_agrees_with_std() {
    for s in ["", "+", "0", "+0", "-0", "42", "x", "4294967295", "4294967296", "1e3", "+-1"] {
        assert_eq!(number(s), s.parse::<u32>().ok(), "{:?}", s);
    }
}

#[test]
fn decimal_within_a_buffer() {
    let buf = b"ab1234cd";
    assert_eq!(parse_decimal_u32(buf, 2, 6), Some(1234));
    assert_eq!(parse_decimal_u32(buf, 2, 2), None);
    assert_eq!(parse_decimal_u32(buf, 1, 6), None);
}

#[test]
fn word_rows_are_read() {
    let tsv = format!(
        "{HEADER}\n1\t1\t0\t0\t0\t0\t0\t0\t2000\t3000\t-1\t\n5\t1\t1\t1\t1\t1\t100\t200\t50\t30\t96.5\tuova\n5\t1\t1\t1\t1\t2\t160\t200\t80\t30\t91\t180g\n"
    );
    let rows = parse_word_rows(tsv.as_bytes());
    assert_eq!(rows.len(), 2);
    assert_eq!(rows[0].left, 100);
    assert_eq!(rows[0].top, 200);
    assert_eq!(rows[0].width, 50);
    assert_eq!(rows[0].height, 30);
    assert_eq!(rows[0].confidence, "96.5");
    assert_eq!(rows[0].text, "uova");
    assert_eq!(rows[0].bbox(), [100, 200, 150, 230]);
    assert_eq!(rows[1].text, "180g");
    assert_eq!(rows[1].bbox(), [160, 200, 240, 230]);
}

#[test]
fn header_is_skipped_whatever_it_holds() {
    let tsv = "5\t1\t1\t1\t1\t1\t1\t2\t3\t4\t90\tfirst\n5\t1\t1\t1\t1\t1\t1\t2\t3\t4\t90\tsecond";
    let rows = parse_word_rows(tsv.as_bytes());
    assert_eq!(rows.len(), 1);
    assert_eq!(rows[0].text, "second");
}

#[test]
fn empty_and_header_only() {
    assert!(parse_word_rows(b"").is_empty());
    assert!(parse_word_rows(HEADER.as_bytes()).is_empty());
    assert!(parse_word_rows(format!("{HEADER}\n").as_bytes()).is_empty());
}

#[test]
fn crlf_lines() {
    let tsv = format!("{HEADER}\r\n5\t1\t1\t1\t1\t1\t1\t2\t3\t4\t90\tzucchero\r\n");
    let rows = parse_word_rows(tsv.as_bytes());
    assert_eq!(rows.len(), 1);
    assert_eq!(rows[0].text, "zucchero");
}

#[test]
fn last_line_keeps_its_carriage_return() {
    let tsv = format!("{HEADER}\n5\t1\t1\t1\t1\t1\t1\t2\t3\t4\t90\tfarina\r");
    let rows = parse_word_rows(tsv.as_bytes());
    assert_eq!(rows.len(), 1);
    assert_eq!(rows[0].text, "farina\r");
}

#[test]
fn other_levels_and_short_rows_are_skipped() {
    let tsv = format!(
        "{HEADER}\n4\t1\t1\t1\t1\t0\t1\t2\t3\t4\t-1\t\n5\t1\t1\t1\t1\t1\t1\t2\t3\t4\t90\n55\t1\t1\t1\t1\t1\t1\t2\t3\t4\t90\tx\n 5\t1\t1\t1\t1\t1\t1\t2\t3\t4\t90\ty\n5\t1\t1\t1\t1\t1\t1\t2\t3\t4\t90\tz\textra"
    );
    let rows = parse_word_rows(tsv.as_bytes());
    assert_eq!(rows.len(), 1);
    assert_eq!(rows[0].text, "z");
}

#[test]
fn bad_numbers_read_as_zero() {
    let tsv = format!("{HEADER}\n5\t1\t1\t1\t1\t1\tx\t-3\t\t4.5\tabc\tburro");
    let rows = parse_word_rows(tsv.as_bytes());
    assert_eq!(rows.len(), 1);
    assert_eq!((rows[0].left, rows[0].top, rows[0].width, rows[0].height), (0, 0, 0, 0));
    assert_eq!(rows[0].confidence, "abc");
}

#[test]
fn invalid_utf8_text_is_replaced() {
    let mut tsv = format!("{HEADER}\n5\t1\t1\t1\t1\t1\t1\t2\t3\t4\t90\t").into_bytes();
    tsv.extend_from_slice(&[b'a', 0xff, b'b']);
    let rows = parse_word_rows(&tsv);
    assert_eq!(rows.len(), 1);
    assert_eq!(rows[0].text, "a\u{fffd}b");
}

#[test]
fn unicode_text_is_kept() {
    let tsv = format!("{HEADER}\n5\t1\t1\t1\t1\t1\t1\t2\t3\t4\t88\t160°\n5\t1\t1\t1\t1\t1\t9\t2\t3\t4\t88\t60'");
    let rows = parse_word_rows(tsv.as_bytes());
    assert_eq!(rows.len(), 2);
    assert_eq!(rows[0].text, "160°");
    assert_eq!(rows[1].text, "60'");
    assert_eq!(rows[1].bbox(), [9, 2, 12, 6]);
}

#[test]
fn header_content_does_not_matter() {
    let body = "5\t1\t1\t1\t1\t1\t10\t20\t30\t40\t77\tlatte\n";
    let a = parse_word_rows(format!("{HEADER}\n{body}").as_bytes());
    let b = parse_word_rows(format!("5\t1\t1\t1\t1\t1\t1\t1\t1\t1\t1\tnot a header\n{body}").as_bytes());
    assert_eq!(a.len(), 1);
    assert_eq!(b.len(), 1);
    assert_eq!(a[0].text, b[0].text);
    assert_eq!(a[0].bbox(), b[0].bbox());
}
