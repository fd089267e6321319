use acs_explorer::load::parse_i32;
use acs_explorer::text::{
    chars_of, decimal_text, is_white_exec, replace_chars, rfind_exec, find_from_exec,
    split_chars, string_of, to_camelcase, trim_end_char_exec, trim_exec,
};

fn v(s: &str) -> Vec<char> {
    s.chars().collect()
}

fn s(cs: &[char]) -> String {
    cs.iter().collect()
}

#[test]
fn whitespace_agrees_with_std() {
    for u in 0u32..=0x10FFFF {
        if let Some(c) = char::from_u32(u) {
            assert_eq!(is_white_exec(c), c.is_whitespace(), "{:?}", c);
        }
    }
}

#[test]
fn split_agrees_with_std() {
    for (text, pat) in [
        ("a!!b!!c", "!!"),
        ("!!!", "!!"),
        ("Estimate!!Total!!", "!!"),
        ("", "!!"),
        ("B01001_001E", "_"),
        ("a|b| c", "|"),
        ("x\r\ny\r\n", "\r\n"),
    ] {
        let got: Vec<String> = split_chars(&v(text), &v(pat)).iter().map(|p| s(p)).collect();
        let want: Vec<String> = text.split(pat).map(|p| p.to_string()).collect();
        assert_eq!(got, want);
    }
}

#[test]
fn replace_agrees_with_std() {
    for (text, pat, to) in [
        ("Total!!With!!Total!!x", "Total!!", ""),
        ("a!!!b", "!!", "_"),
        ("it's", "'", ""),
        ("none", "!!", "_"),
    ] {
        assert_eq!(s(&replace_chars(&v(text), &v(pat), &v(to))), text.replace(pat, to));
    }
}

#[test]
fn find_and_rfind_agree_with_std() {
    for text in ["a!!b!!c", "!!!", "none", "!!", ""] {
        assert_eq!(find_from_exec(&v(text), &v("!!"), 0), text.find("!!"));
        assert_eq!(rfind_exec(&v(text), &v("!!")), text.rfind("!!"));
    }
}

#[test]
fn trims_agree_with_std() {
    for text in ["  a b \t", "\u{3000}x\u{85}", "", "   ", "Total::", ":"] {
        assert_eq!(s(&trim_exec(&v(text))), text.trim());
        assert_eq!(s(&trim_end_char_exec(&v(text), ':')), text.trim_end_matches(":"));
    }
}

#[test]
fn chars_and_strings_round_trip() {
    let text = "héllo wörld";
    assert_eq!(chars_of(text), v(text));
    assert_eq!(string_of(&v(text)), text);
}

#[test]
fn camel_case_capitalizes_each_word() {
    assert_eq!(
        to_camelcase("With an Internet subscription_Dial-up alone"),
        "WithAnInternetSubscription_Dial-upAlone"
    );
    assert_eq!(to_camelcase("  two  words "), "TwoWords");
    assert_eq!(to_camelcase(""), "");
    assert_eq!(to_camelcase("ßa b"), "SSaB");
}

#[test]
fn decimal_text_agrees_with_std() {
    for n in [0, 7, 10, 2015, -1, -2016, i32::MAX, i32::MIN] {
        assert_eq!(decimal_text(n), n.to_string());
    }
}

#[test]
fn parse_i32_agrees_with_std() {
    for text in [
        "2015", "-7", "+12", "", "-", "+", "12a", "2147483647", "2147483648", "-2147483648",
        "-2147483649", "0000000000000042", "99999999999999999999", " 1", "--1",
    ] {
        assert_eq!(parse_i32(&v(text)), text.parse::<i32>().ok(), "{:?}", text);
    }
}
