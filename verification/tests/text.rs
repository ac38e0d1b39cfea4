use wattea::text::{chars_of, parse_i64_in, parse_u64_in, split_whitespace, trim_bounds};

fn words(s: &str) -> Vec<String> {
    let v = chars_of(s);
    split_whitespace(&v, 0).into_iter().map(|w| w.into_iter().collect()).collect()
}

#[test]
fn split_whitespace_matches_std() {
    for s in ["", "  ", "a", " a  b\tc\n", "x\u{00A0}y\u{2003}z", "\u{3000}end "] {
        let std: Vec<String> = s.split_whitespace().map(|w| w.to_string()).collect();
        assert_eq!(words(s), std, "{s:?}");
    }
}

#[test]
fn trim_matches_std() {
    for s in ["", "  ", " a b ", "\u{85}x\u{2029}", "abc"] {
        let v = chars_of(s);
        let (a, b) = trim_bounds(&v, 0, v.len());
        let t: String = v[a..b].iter().collect();
        assert_eq!(t, s.trim(), "{s:?}");
    }
}

#[test]
fn integer_parsing_matches_std() {
    for s in ["0", "+7", "-7", "", "+", "-", "++1", "12a", "007", "18446744073709551615", "18446744073709551616",
        "9223372036854775807", "9223372036854775808", "-9223372036854775808", "-9223372036854775809", "-+1", "+-1"] {
        let v = chars_of(s);
        assert_eq!(parse_u64_in(&v, 0, v.len()), s.parse::<u64>().ok(), "u64 {s:?}");
        assert_eq!(parse_i64_in(&v, 0, v.len()), s.parse::<i64>().ok(), "i64 {s:?}");
    }
}
