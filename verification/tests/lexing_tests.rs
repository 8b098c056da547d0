use sumcheck::lexing::{parse_unsigned, split};

fn bytes(s: &str) -> Vec<u8> {
    s.as_bytes().to_vec()
}

fn cut(s: &str, sep: &str) -> Vec<String> {
    split(&bytes(s), &bytes(sep)).into_iter().map(|p| String::from_utf8(p).unwrap()).collect()
}

#[test]
fn split_examples() {
    assert_eq!(cut("a + b + c", " + "), vec!["a", "b", "c"]);
    assert_eq!(cut("abc", " + "), vec!["abc"]);
    assert_eq!(cut("", " + "), vec![""]);
    assert_eq!(cut(" + ", " + "), vec!["", ""]);
    assert_eq!(cut("a + ", " + "), vec!["a", ""]);
    assert_eq!(cut(" + a", " + "), vec!["", "a"]);
    assert_eq!(cut("a +  + b", " + "), vec!["a", "", "b"]);
    assert_eq!(cut("X_1_2", "_"), vec!["X", "1", "2"]);
    assert_eq!(cut("__", "_"), vec!["", "", ""]);
}

#[test]
fn split_takes_matches_from_the_left_without_overlap() {
    assert_eq!(cut("aaa", "aa"), vec!["", "a"]);
    assert_eq!(cut("aaaa", "aa"), vec!["", "", ""]);
    assert_eq!(cut("a + + b", " + "), vec!["a", "+ b"]);
    assert_eq!(cut("ab", "abc"), vec!["ab"]);
}

#[test]
fn split_at_an_empty_separator_cuts_nowhere() {
    assert_eq!(cut("abc", ""), vec!["abc"]);
    assert_eq!(cut("", ""), vec![""]);
}

#[test]
fn split_agrees_with_std() {
    let texts = [
        "2 * X_1 ^ 3 + X_1 * X_3 + X_2 * X_3",
        "  +  + ",
        "+ + + +",
        " * * * ",
        "a ^ b ^ c",
        "___",
        "",
        " ",
        "x + y",
        "Ω_1 + é * X_2",
    ];
    let seps = [" + ", " * ", " ^ ", "_", " ", "+ "];
    for t in texts {
        for s in seps {
            let expected: Vec<String> = t.split(s).map(|p| p.to_string()).collect();
            assert_eq!(cut(t, s), expected);
        }
    }
}

#[test]
fn parse_unsigned_examples() {
    let max = u32::MAX as u64;
    assert_eq!(parse_unsigned(&bytes("0"), max), Some(0));
    assert_eq!(parse_unsigned(&bytes("12"), max), Some(12));
    assert_eq!(parse_unsigned(&bytes("007"), max), Some(7));
    assert_eq!(parse_unsigned(&bytes("+5"), max), Some(5));
    assert_eq!(parse_unsigned(&bytes("4294967295"), max), Some(4294967295));
    assert_eq!(parse_unsigned(&bytes("4294967296"), max), None);
    assert_eq!(parse_unsigned(&bytes("99999999999999999999999999"), max), None);
    assert_eq!(parse_unsigned(&bytes(""), max), None);
    assert_eq!(parse_unsigned(&bytes("+"), max), None);
    assert_eq!(parse_unsigned(&bytes("-5"), max), None);
    assert_eq!(parse_unsigned(&bytes("++5"), max), None);
    assert_eq!(parse_unsigned(&bytes("5+"), max), None);
    assert_eq!(parse_unsigned(&bytes(" 5"), max), None);
    assert_eq!(parse_unsigned(&bytes("5 "), max), None);
    assert_eq!(parse_unsigned(&bytes("1a"), max), None);
    assert_eq!(parse_unsigned(&bytes("X_1"), max), None);
}

#[test]
fn parse_unsigned_up_to_the_largest_number() {
    assert_eq!(parse_unsigned(&bytes("18446744073709551615"), u64::MAX), Some(u64::MAX));
    assert_eq!(parse_unsigned(&bytes("18446744073709551616"), u64::MAX), None);
    assert_eq!(parse_unsigned(&bytes("18446744073709551620"), u64::MAX), None);
    assert_eq!(parse_unsigned(&bytes("0"), 0), Some(0));
    assert_eq!(parse_unsigned(&bytes("1"), 0), None);
    assert_eq!(parse_unsigned(&bytes("10"), 9), None);
    assert_eq!(parse_unsigned(&bytes("9"), 9), Some(9));
}

#[test]
fn parse_unsigned_agrees_with_std() {
    let texts = [
        "0", "1", "+1", "-1", "", "+", "-", "00", "4294967295", "4294967296", "42949672950", "12 ", " 12",
        "1_000", "0x10", "١٢", "18446744073709551615", "18446744073709551616", "+0", "+00012",
    ];
    for t in texts {
        assert_eq!(parse_unsigned(&bytes(t), u32::MAX as u64), t.parse::<u32>().ok().map(|v| v as u64));
        assert_eq!(parse_unsigned(&bytes(t), u64::MAX), t.parse::<u64>().ok());
    }
}
