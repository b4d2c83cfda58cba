use xinqi::general::text::{chars_of, parse_number, push_decimal, split_at, split_lines, split_words, string_of, trim_text};
use xinqi::hequn::utils::add_offset;
use xinqi::tree::pgn::parse_pgn;
use xinqi::xingxiang::utils::diff;

fn chars(s: &str) -> Vec<char> {
    s.chars().collect()
}

#[test]
fn numbers_are_read_as_the_standard_library_reads_them() {
    for text in ["0", "7", "42", "+5", "007", "", "+", "-1", "1a", " 1", "18446744073709551615", "18446744073709551616", "99999999999999999999999"] {
        let v = chars(text);
        assert_eq!(parse_number(&v, 0, v.len()), text.parse::<usize>().ok(), "{:?}", text);
    }
}

#[test]
fn numbers_are_written_in_decimal() {
    for n in [0usize, 9, 10, 81, 100, 12345, usize::MAX] {
        let mut out = chars("x");
        push_decimal(&mut out, n);
        let s: String = out.into_iter().collect();
        assert_eq!(s, format!("x{}", n));
    }
}

#[test]
fn splitting_follows_the_standard_library() {
    for text in ["", "a", "a/b", "/a//b/", "///"] {
        let got: Vec<String> = split_at(&chars(text), '/').into_iter().map(|v| v.into_iter().collect()).collect();
        let want: Vec<String> = text.split('/').map(|s| s.to_string()).collect();
        assert_eq!(got, want, "{:?}", text);
    }
    for text in ["", "  ", "a", " a  b\tc\n", "a\u{3000}b", "\u{85}x"] {
        let got: Vec<String> = split_words(&chars(text)).into_iter().map(|v| v.into_iter().collect()).collect();
        let want: Vec<String> = text.split_whitespace().map(|s| s.to_string()).collect();
        assert_eq!(got, want, "{:?}", text);
    }
    for text in ["", "a", "a\n", "a\n\nb", "a\r\nb\r", "\n", "a\r\n", "\r\n\r\n"] {
        let got: Vec<String> = split_lines(&chars(text)).into_iter().map(|v| v.into_iter().collect()).collect();
        let want: Vec<String> = text.lines().map(|s| s.to_string()).collect();
        assert_eq!(got, want, "{:?}", text);
    }
    for text in ["", "  ", " a b ", "\n\ta\n", "a"] {
        let got: String = trim_text(&chars(text)).into_iter().collect();
        assert_eq!(got, text.trim(), "{:?}", text);
    }
}

#[test]
fn strings_and_characters_convert() {
    assert_eq!(chars_of("héllo"), chars("héllo"));
    assert_eq!(string_of(&chars("héllo"), 1, 4), "éll");
}

#[test]
fn tokens_of_a_line_of_moves() {
    assert_eq!(parse_pgn("1.a1 b1 2.c1"), vec!["a1", "b1", "c1"]);
    assert_eq!(parse_pgn("  12.pass\n a3Rb2  "), vec!["pass", "a3Rb2"]);
    assert_eq!(parse_pgn("1. a1 .b x."), vec!["1.", "a1", ".b", "x."]);
    assert_eq!(parse_pgn("1..a1"), vec![".a1"]);
    assert!(parse_pgn("").is_empty());
}

#[test]
fn offsets_stay_on_the_board() {
    assert_eq!(add_offset((0, 0), (-1, 0)), None);
    assert_eq!(add_offset((0, 0), (1, 1)), Some((1, 1)));
    assert_eq!(add_offset((9, 9), (0, 1)), None);
    assert_eq!(add_offset((9, 9), (-2, -2)), Some((7, 7)));
    assert_eq!(xinqi::zhandi::utils::add_offset((0, 4), (0, 1)), None);
    assert_eq!(xinqi::zhandi::utils::add_offset((4, 4), (1, 1)), Some((5, 5)));
    assert_eq!(xinqi::xingxiang::utils::add_offset((7, 7), (1, 0)), None);
    assert!(xinqi::zhandi::utils::valid_coordinate(4, 8));
    assert!(!xinqi::zhandi::utils::valid_coordinate(3, 8));
    assert!(xinqi::xingxiang::utils::valid_coordinate(7, 7));
    assert!(!xinqi::xingxiang::utils::valid_coordinate(8, 0));
    assert_eq!(diff((1, 5), (3, 2)), (2, -3));
}
