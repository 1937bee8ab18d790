use rs_face::faces::{parse_header, parse_list_str, parse_list_usize, ListError};
use rs_face::text::{
    parse_uint_bytes, parse_uint_str, push_padded, str_eq, strip_prefix, trim, utf8_valid,
    word_at, IntErrorKind,
};

fn lines(ls: &[&str]) -> Vec<String> {
    ls.iter().map(|s| s.to_string()).collect()
}

#[test]
fn header_lines() {
    let l = lines(&["size 92 112", "labels 2", "3", " x ", "names 1"]);
    let mut pos = 0;
    assert_eq!(parse_header(&l, &mut pos, "size"), (92, 112));
    assert_eq!(pos, 1);
    assert_eq!(parse_list_usize(&l, &mut pos, "labels"), Ok(vec![3, 0]));
    assert_eq!(pos, 4);
    let names = parse_list_str(&l, &mut pos, "names").unwrap();
    assert_eq!(names, vec![String::new()]);
    let mut end = l.len();
    assert_eq!(parse_header(&l, &mut end, "size"), (0, 0));
    assert_eq!(parse_list_usize(&l, &mut end, "labels"), Err(ListError::MissingHeader));
}

#[test]
fn truncated_lists() {
    let l = lines(&["labels 3", "1"]);
    let mut pos = 0;
    assert_eq!(parse_list_usize(&l, &mut pos, "labels"), Err(ListError::Truncated));
    let mut pos = 0;
    let got = parse_list_str(&l, &mut pos, "labels").unwrap();
    assert_eq!(got, vec!["1".to_string(), String::new(), String::new()]);
    assert_eq!(pos, 2);
}

#[test]
fn unsigned_parsing_rules() {
    assert_eq!(parse_uint_str("+42", 100), Ok(42));
    assert_eq!(parse_uint_str("", 100), Err(IntErrorKind::Empty));
    assert_eq!(parse_uint_str("+", 100), Err(IntErrorKind::InvalidDigit));
    assert_eq!(parse_uint_str("101", 100), Err(IntErrorKind::PosOverflow));
    assert_eq!(parse_uint_str("1 2", 100), Err(IntErrorKind::InvalidDigit));
    assert_eq!(parse_uint_bytes(b"65535", 65535), Ok(65535));
}

#[test]
fn string_helpers() {
    assert_eq!(trim("\u{3000} a b \n"), "a b");
    assert_eq!(strip_prefix("content-length: 5", "content-length:"), Some(" 5"));
    assert_eq!(strip_prefix("x", "xy"), None);
    assert_eq!(word_at("  a bb   ccc ", 2), Some("ccc"));
    assert_eq!(word_at("a", 1), None);
    assert!(str_eq("abc", "abc") && !str_eq("abc", "abd"));
    assert_eq!(rs_face::args::Algorithm::from_str("LBPH"), Ok(rs_face::args::Algorithm::LBPH));
    assert_eq!(rs_face::benchmark::Mode::from_str("BoTh"), Ok(rs_face::benchmark::Mode::Both));
    let mut s = String::new();
    push_padded(&mut s, 7, 3);
    push_padded(&mut s, 12345, 2);
    assert_eq!(s, "00712345");
}

#[test]
fn utf8_checks() {
    assert!(utf8_valid(b"h\xC3\xA9") && !utf8_valid(b"\xC3"));
    let mut ppm = "P6\n# café\n1 1\n255\n\0".as_bytes().to_vec();
    ppm.extend_from_slice(&[1, 2, 3]);
    assert_eq!(rs_face::image::ppm_rgb_header(&ppm), Ok((1, 1, 20)));
    assert!(utf8_valid(b"plain") && !utf8_valid(b"\xFF"));
}

#[test]
fn lbph_parameter_line() {
    assert_eq!(rs_face::faces::lbph_params("params 4 6 2 16"), Some((4, 6, 2, 16)));
    assert_eq!(rs_face::faces::lbph_params("params x"), Some((8, 8, 1, 8)));
    assert_eq!(rs_face::faces::lbph_params("params 8 8 -1"), Some((8, 8, -1, 8)));
    assert_eq!(rs_face::faces::lbph_params("param 1 2 3 4"), None);
}
