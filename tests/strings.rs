use fhe_strings::client_key::MyClientKey;
use fhe_strings::fhe_char::FheAsciiChar;
use fhe_strings::fhe_string::FheString;
use fhe_strings::server_key::{MyServerKey, MAX_FIND_LENGTH};
use fhe_strings::split::FheSplit;

const STRING_PADDING: usize = 1;

fn setup_test() -> (MyClientKey, MyServerKey) {
    let client_key = MyClientKey::new();
    let server_key = client_key.get_server_key();
    (client_key, server_key)
}

fn decrypt_string(client_key: &MyClientKey, string: &FheString) -> String {
    String::from_utf8(client_key.decrypt(string)).unwrap()
}

fn decrypt_pieces(client_key: &MyClientKey, split: &FheSplit) -> Vec<String> {
    let mut pieces: Vec<String> = client_key
        .decrypt_split(split)
        .into_iter()
        .map(|b| String::from_utf8(b).unwrap())
        .collect();
    while pieces.last().map_or(false, |p| p.is_empty()) {
        pieces.pop();
    }
    pieces
}

fn trim_expected(expected: Vec<&str>) -> Vec<String> {
    let mut pieces: Vec<String> = expected.into_iter().map(|p| p.to_string()).collect();
    while pieces.last().map_or(false, |p| p.is_empty()) {
        pieces.pop();
    }
    pieces
}

#[test]
fn valid_contains() {
    let (ck, sk) = setup_test();
    let haystack = ck.encrypt("awesomezamaisawesome", 3);
    let needle = ck.encrypt_no_padding("zama");
    let res = sk.contains(&haystack, &needle);
    assert_eq!(ck.decrypt_char(&res), 1);
}

#[test]
fn invalid_contains() {
    let (ck, sk) = setup_test();
    let haystack = ck.encrypt("hello world", 3);
    let needle = ck.encrypt_no_padding("zama");
    let res = sk.contains(&haystack, &needle);
    assert_eq!(ck.decrypt_char(&res), 0);
}

#[test]
fn contains_empty_needle() {
    let (ck, sk) = setup_test();
    let haystack = ck.encrypt("", 0);
    let needle = ck.encrypt_no_padding("");
    assert_eq!(ck.decrypt_char(&sk.contains(&haystack, &needle)), 1);
}

#[test]
fn contains_needle_in_padding_is_not_found() {
    let (ck, sk) = setup_test();
    let haystack = ck.encrypt("ab", 4);
    let needle = ck.encrypt_no_padding("abc");
    assert_eq!(ck.decrypt_char(&sk.contains(&haystack, &needle)), 0);
}

#[test]
fn invalid_ends_with() {
    let (ck, sk) = setup_test();
    let haystack = ck.encrypt("hello world", STRING_PADDING);
    let needle = ck.encrypt_no_padding("zama");
    let res = sk.ends_with(&haystack, &needle);
    assert_eq!(ck.decrypt_char(&res), "hello world".ends_with("zama") as u8);
}

#[test]
fn valid_ends_with() {
    let (ck, sk) = setup_test();
    let haystack = ck.encrypt("hello world", STRING_PADDING);
    let needle = ck.encrypt_no_padding("world");
    let res = sk.ends_with(&haystack, &needle);
    assert_eq!(ck.decrypt_char(&res), 1);
}

#[test]
fn ends_with_ignores_padding() {
    let (ck, sk) = setup_test();
    let haystack = ck.encrypt("hello world", 5);
    let needle = ck.encrypt_no_padding("hello");
    assert_eq!(ck.decrypt_char(&sk.ends_with(&haystack, &needle)), 0);
    let needle = ck.encrypt_no_padding("rld");
    assert_eq!(ck.decrypt_char(&sk.ends_with(&haystack, &needle)), 1);
}

#[test]
fn valid_starts_with() {
    let (ck, sk) = setup_test();
    let haystack = ck.encrypt("hello world", STRING_PADDING);
    let needle = ck.encrypt_no_padding("hello");
    assert_eq!(ck.decrypt_char(&sk.starts_with(&haystack, &needle)), 1);
}

#[test]
fn invalid_starts_with() {
    let (ck, sk) = setup_test();
    let haystack = ck.encrypt("hello world", STRING_PADDING);
    let needle = ck.encrypt_no_padding("zama");
    assert_eq!(ck.decrypt_char(&sk.starts_with(&haystack, &needle)), 0);
}

#[test]
fn uppercase() {
    let (ck, sk) = setup_test();
    let s = ck.encrypt("zama IS awesome", STRING_PADDING);
    let upper = sk.to_upper(&s);
    assert_eq!(decrypt_string(&ck, &upper), "ZAMA IS AWESOME");
}

#[test]
fn uppercase_twice() {
    let (ck, sk) = setup_test();
    let s = ck.encrypt("Zama {is} `awesome` @ 42", STRING_PADDING);
    let once = sk.to_upper(&s);
    let twice = sk.to_upper(&once);
    assert_eq!(decrypt_string(&ck, &once), "ZAMA {IS} `AWESOME` @ 42");
    assert_eq!(decrypt_string(&ck, &twice), decrypt_string(&ck, &once));
}

#[test]
fn lowercase() {
    let (ck, sk) = setup_test();
    let s = ck.encrypt("zama IS awesome", STRING_PADDING);
    let lower = sk.to_lower(&s);
    assert_eq!(decrypt_string(&ck, &lower), "zama is awesome");
}

#[test]
fn repeat() {
    let (ck, sk) = setup_test();
    let s = ck.encrypt("abc", STRING_PADDING);
    let n = FheAsciiChar::encrypt_trivial(3);
    let r = sk.repeat(&s, n);
    assert_eq!(decrypt_string(&ck, &r), "abc".repeat(3));
}

#[test]
fn repeat_zero_and_above_bound() {
    let (ck, sk) = setup_test();
    let s = ck.encrypt("ab", STRING_PADDING);
    let r = sk.repeat(&s, FheAsciiChar::encrypt_trivial(0));
    assert_eq!(decrypt_string(&ck, &r), "");
    let r = sk.repeat(&s, FheAsciiChar::encrypt_trivial(40));
    assert_eq!(decrypt_string(&ck, &r), "ab".repeat(16));
}

#[test]
fn repeat_clear() {
    let (ck, sk) = setup_test();
    let s = ck.encrypt("abc", STRING_PADDING);
    let r = sk.repeat_clear(&s, 3);
    assert_eq!(decrypt_string(&ck, &r), "abcabcabc");
    let r = sk.repeat_clear(&s, 0);
    assert_eq!(decrypt_string(&ck, &r), "");
}

#[test]
fn replace1() {
    let (ck, sk) = setup_test();
    let s = ck.encrypt("hello world world test", STRING_PADDING);
    let from = ck.encrypt_no_padding("world");
    let to = ck.encrypt_no_padding("abc");
    let r = sk.replace(&s, &from, &to);
    assert_eq!(decrypt_string(&ck, &r), "hello abc abc test");
}

#[test]
fn replace2() {
    let (ck, sk) = setup_test();
    let s = ck.encrypt("hello abc abc test", STRING_PADDING);
    let from = ck.encrypt_no_padding("abc");
    let to = ck.encrypt_no_padding("world");
    let r = sk.replace(&s, &from, &to);
    assert_eq!(decrypt_string(&ck, &r), "hello abc abc test".replace("abc", "world"));
}

#[test]
fn replacen() {
    let (ck, sk) = setup_test();
    let s = ck.encrypt("hello abc abc test", STRING_PADDING);
    let from = ck.encrypt_no_padding("abc");
    let to = ck.encrypt_no_padding("world");
    let n = FheAsciiChar::encrypt_trivial(1);
    let r = sk.replacen(&s, &from, &to, n);
    assert_eq!(decrypt_string(&ck, &r), "hello world abc test");
}

#[test]
fn replace_overlapping_occurrences() {
    let (ck, sk) = setup_test();
    let s = ck.encrypt("aaaaa", STRING_PADDING);
    let from = ck.encrypt_no_padding("aa");
    let to = ck.encrypt_no_padding("b");
    let r = sk.replace(&s, &from, &to);
    assert_eq!(decrypt_string(&ck, &r), "aaaaa".replace("aa", "b"));
    let to = ck.encrypt_no_padding("xyz");
    let r = sk.replace(&s, &from, &to);
    assert_eq!(decrypt_string(&ck, &r), "aaaaa".replace("aa", "xyz"));
}

#[test]
fn replacen_shorter_from() {
    let (ck, sk) = setup_test();
    let s = ck.encrypt("e-e-e-e", 2);
    let from = ck.encrypt_no_padding("e");
    let to = ck.encrypt_no_padding("test");
    let r = sk.replacen(&s, &from, &to, FheAsciiChar::encrypt_trivial(3));
    assert_eq!(decrypt_string(&ck, &r), "e-e-e-e".replacen("e", "test", 3));
}

#[test]
fn replace_pattern_longer_than_haystack() {
    let (ck, sk) = setup_test();
    let s = ck.encrypt("ab", 0);
    let from = ck.encrypt_no_padding("abc");
    let to = ck.encrypt_no_padding("x");
    let r = sk.replace(&s, &from, &to);
    assert_eq!(decrypt_string(&ck, &r), "ab");
}

#[test]
fn trim_end() {
    let (ck, sk) = setup_test();
    let plain = "ZA MA\n\t \r\x0C";
    let s = ck.encrypt(plain, STRING_PADDING);
    assert_eq!(decrypt_string(&ck, &sk.trim_end(&s)), plain.trim_end());
}

#[test]
fn do_not_trim_end() {
    let (ck, sk) = setup_test();
    let plain = "\nZA MA";
    let s = ck.encrypt(plain, STRING_PADDING);
    assert_eq!(decrypt_string(&ck, &sk.trim_end(&s)), plain.trim_end());
}

#[test]
fn trim_start() {
    let (ck, sk) = setup_test();
    let plain = "\nZA MA";
    let s = ck.encrypt(plain, STRING_PADDING);
    assert_eq!(decrypt_string(&ck, &sk.trim_start(&s)), plain.trim_start());
}

#[test]
fn trim() {
    let (ck, sk) = setup_test();
    let plain = "\nZA MA\n";
    let s = ck.encrypt(plain, STRING_PADDING);
    assert_eq!(decrypt_string(&ck, &sk.trim(&s)), plain.trim());
}

#[test]
fn trim_twice() {
    let (ck, sk) = setup_test();
    let plain = " \t a b \x0B\n";
    let s = ck.encrypt(plain, 2);
    let once = sk.trim(&s);
    let twice = sk.trim(&once);
    assert_eq!(decrypt_string(&ck, &once), plain.trim());
    assert_eq!(decrypt_string(&ck, &twice), plain.trim());
}

#[test]
fn is_empty() {
    let (ck, sk) = setup_test();
    let s = ck.encrypt("", STRING_PADDING);
    assert_eq!(ck.decrypt_char(&sk.is_empty(&s)), 1);
}

#[test]
fn is_not_empty() {
    let (ck, sk) = setup_test();
    let s = ck.encrypt("hello", STRING_PADDING);
    assert_eq!(ck.decrypt_char(&sk.is_empty(&s)), 0);
}

#[test]
fn len() {
    let (ck, sk) = setup_test();
    let s = ck.encrypt("hello world", STRING_PADDING);
    assert_eq!(ck.decrypt_char(&sk.len(&s)), 11);
}

#[test]
fn rfind() {
    let (ck, sk) = setup_test();
    let s = ck.encrypt("hello abc abc test", STRING_PADDING);
    let pattern = ck.encrypt_no_padding("abc");
    let res = sk.rfind(&s, &pattern);
    assert_eq!(ck.decrypt_char(&res), 10);
}

#[test]
fn rfind_empty_pattern() {
    let (ck, sk) = setup_test();
    let s = ck.encrypt("hello", 3);
    let pattern = ck.encrypt_no_padding("");
    assert_eq!(ck.decrypt_char(&sk.rfind(&s, &pattern)), 5);
}

#[test]
fn invalid_rfind() {
    let (ck, sk) = setup_test();
    let s = ck.encrypt("hello test", STRING_PADDING);
    let pattern = ck.encrypt_no_padding("abc");
    let res = sk.rfind(&s, &pattern);
    assert_eq!(ck.decrypt_char(&res), MAX_FIND_LENGTH as u8);
}

#[test]
fn find() {
    let (ck, sk) = setup_test();
    let s = ck.encrypt("hello test", STRING_PADDING);
    let pattern = ck.encrypt_no_padding("test");
    let res = sk.find(&s, &pattern);
    assert_eq!(ck.decrypt_char(&res), "hello test".find("test").unwrap() as u8);
}

#[test]
fn find_first_of_several() {
    let (ck, sk) = setup_test();
    let s = ck.encrypt("abcabcabc", 2);
    let pattern = ck.encrypt_no_padding("ca");
    assert_eq!(ck.decrypt_char(&sk.find(&s, &pattern)), 2);
    let missing = ck.encrypt_no_padding("cc");
    assert_eq!(ck.decrypt_char(&sk.find(&s, &missing)), MAX_FIND_LENGTH as u8);
}

#[test]
fn eq() {
    let (ck, sk) = setup_test();
    let a = ck.encrypt("hello test", STRING_PADDING);
    let b = ck.encrypt("hello test", 4);
    assert_eq!(ck.decrypt_char(&sk.eq(&a, &b)), 1);
    let c = ck.encrypt("hello tes", 5);
    assert_eq!(ck.decrypt_char(&sk.eq(&a, &c)), 0);
    assert_eq!(ck.decrypt_char(&sk.ne(&a, &c)), 1);
}

#[test]
fn eq_ignore_case() {
    let (ck, sk) = setup_test();
    let a = ck.encrypt("hello TEST", STRING_PADDING);
    let b = ck.encrypt("hello test", STRING_PADDING);
    assert_eq!(ck.decrypt_char(&sk.eq_ignore_case(&a, &b)), 1);
}

#[test]
fn strip_prefix() {
    let (ck, sk) = setup_test();
    let plain = "HELLO test test HELLO";
    let s = ck.encrypt(plain, STRING_PADDING);
    let pattern = ck.encrypt_no_padding("HELLO");
    let strip = sk.strip_prefix(&s, &pattern);
    assert_eq!(ck.decrypt_char(&strip.pattern_found), 1);
    assert_eq!(decrypt_string(&ck, &strip.string), plain.strip_prefix("HELLO").unwrap());
}

#[test]
fn strip_suffix() {
    let (ck, sk) = setup_test();
    let plain = "HELLO test test HELLO";
    let s = ck.encrypt(plain, STRING_PADDING);
    let pattern = ck.encrypt_no_padding("HELLO");
    let strip = sk.strip_suffix(&s, &pattern);
    assert_eq!(ck.decrypt_char(&strip.pattern_found), 1);
    assert_eq!(decrypt_string(&ck, &strip.string), plain.strip_suffix("HELLO").unwrap());
}

#[test]
fn dont_strip_suffix() {
    let (ck, sk) = setup_test();
    let plain = "HELLO test test HELLO";
    let s = ck.encrypt(plain, STRING_PADDING);
    let pattern = ck.encrypt_no_padding("WORLD");
    let strip = sk.strip_suffix(&s, &pattern);
    assert_eq!(ck.decrypt_char(&strip.pattern_found), 0);
    assert_eq!(decrypt_string(&ck, &strip.string), plain);
}

#[test]
fn dont_strip_prefix() {
    let (ck, sk) = setup_test();
    let plain = "HELLO test test HELLO";
    let s = ck.encrypt(plain, STRING_PADDING);
    let pattern = ck.encrypt_no_padding("WORLD");
    let strip = sk.strip_prefix(&s, &pattern);
    assert_eq!(ck.decrypt_char(&strip.pattern_found), 0);
    assert_eq!(decrypt_string(&ck, &strip.string), plain);
}

#[test]
fn concatenate() {
    let (ck, sk) = setup_test();
    let a = ck.encrypt("Hello, ", STRING_PADDING);
    let b = ck.encrypt("World!", STRING_PADDING);
    let r = sk.concatenate(&a, &b);
    assert_eq!(decrypt_string(&ck, &r), "Hello, World!");
}

fn compare_all(a: &str, b: &str) {
    let (ck, sk) = setup_test();
    let x = ck.encrypt(a, STRING_PADDING);
    let y = ck.encrypt(b, 3);
    assert_eq!(ck.decrypt_char(&sk.lt(&x, &y)), (a < b) as u8);
    assert_eq!(ck.decrypt_char(&sk.le(&x, &y)), (a <= b) as u8);
    assert_eq!(ck.decrypt_char(&sk.gt(&x, &y)), (a > b) as u8);
    assert_eq!(ck.decrypt_char(&sk.ge(&x, &y)), (a >= b) as u8);
}

#[test]
fn less_than() {
    let (ck, sk) = setup_test();
    let a = ck.encrypt("aaa", STRING_PADDING);
    let b = ck.encrypt("aaaa", STRING_PADDING);
    assert_eq!(ck.decrypt_char(&sk.lt(&a, &b)), ("aaa" < "aaaa") as u8);
}

#[test]
fn less_equal() {
    let (ck, sk) = setup_test();
    let a = ck.encrypt("aaa", STRING_PADDING);
    let b = ck.encrypt("aaaa", STRING_PADDING);
    assert_eq!(ck.decrypt_char(&sk.le(&a, &b)), ("aaa" <= "aaaa") as u8);
}

#[test]
fn greater_than() {
    let (ck, sk) = setup_test();
    let a = ck.encrypt("aaaa", STRING_PADDING);
    let b = ck.encrypt("aaa", STRING_PADDING);
    assert_eq!(ck.decrypt_char(&sk.gt(&a, &b)), ("aaaa" > "aaa") as u8);
}

#[test]
fn greater_equal() {
    let (ck, sk) = setup_test();
    let a = ck.encrypt("aaaa", STRING_PADDING);
    let b = ck.encrypt("aaa", STRING_PADDING);
    assert_eq!(ck.decrypt_char(&sk.ge(&a, &b)), ("aaaa" >= "aaa") as u8);
}

#[test]
fn comparisons_on_various_pairs() {
    compare_all("abc", "abd");
    compare_all("abd", "abc");
    compare_all("abc", "abc");
    compare_all("", "a");
    compare_all("a", "");
    compare_all("", "");
    compare_all("Zebra", "apple");
    compare_all("aaaa", "aaa");
}

#[test]
fn split() {
    let (ck, sk) = setup_test();
    let plain = " Mary had a";
    let s = ck.encrypt(plain, STRING_PADDING);
    let pattern = ck.encrypt_no_padding(" ");
    let split = sk.split(&s, &pattern);
    assert_eq!(decrypt_pieces(&ck, &split), vec!["", "Mary", "had", "a"]);
    assert_eq!(ck.decrypt_char(&split.pattern_found), 1);
}

#[test]
fn split_overlapping_delimiter() {
    let (ck, sk) = setup_test();
    let plain = "aaaab";
    let s = ck.encrypt(plain, STRING_PADDING);
    let pattern = ck.encrypt_no_padding("aa");
    let split = sk.split(&s, &pattern);
    assert_eq!(decrypt_pieces(&ck, &split), trim_expected(plain.split("aa").collect()));
}

#[test]
fn split_without_delimiter() {
    let (ck, sk) = setup_test();
    let s = ck.encrypt("abc", STRING_PADDING);
    let pattern = ck.encrypt_no_padding(",");
    let split = sk.split(&s, &pattern);
    assert_eq!(decrypt_pieces(&ck, &split), vec!["abc"]);
    assert_eq!(ck.decrypt_char(&split.pattern_found), 0);
}

#[test]
fn split_inclusive() {
    let (ck, sk) = setup_test();
    let plain = "Mary had a";
    let s = ck.encrypt(plain, STRING_PADDING);
    let pattern = ck.encrypt_no_padding(" ");
    let split = sk.split_inclusive(&s, &pattern);
    assert_eq!(decrypt_pieces(&ck, &split), trim_expected(plain.split_inclusive(" ").collect()));
}

#[test]
fn split_terminator() {
    let (ck, sk) = setup_test();
    let plain = ".A.B.";
    let s = ck.encrypt(plain, STRING_PADDING);
    let pattern = ck.encrypt_no_padding(".");
    let split = sk.split_terminator(&s, &pattern);
    assert_eq!(decrypt_pieces(&ck, &split), trim_expected(plain.split_terminator(".").collect()));
}

#[test]
fn splitn() {
    let (ck, sk) = setup_test();
    let plain = ".A.B.C.";
    let s = ck.encrypt(plain, STRING_PADDING);
    let pattern = ck.encrypt_no_padding(".");
    let n = FheAsciiChar::encrypt_trivial(2);
    let split = sk.splitn(&s, &pattern, n);
    assert_eq!(decrypt_pieces(&ck, &split), trim_expected(plain.splitn(2, ".").collect()));
}

#[test]
fn splitn_zero_and_one() {
    let (ck, sk) = setup_test();
    let plain = "a.b";
    let s = ck.encrypt(plain, STRING_PADDING);
    let pattern = ck.encrypt_no_padding(".");
    let split = sk.splitn(&s, &pattern, FheAsciiChar::encrypt_trivial(0));
    assert!(decrypt_pieces(&ck, &split).is_empty());
    let split = sk.splitn(&s, &pattern, FheAsciiChar::encrypt_trivial(1));
    assert_eq!(decrypt_pieces(&ck, &split), vec!["a.b"]);
}

#[test]
fn round_trip() {
    let (ck, _sk) = setup_test();
    for (plain, padding) in [("", 0), ("hello", 0), ("hello world", 7), ("\t x", 1)] {
        let s = ck.encrypt(plain, padding);
        assert_eq!(s.len(), plain.len() + padding);
        assert_eq!(decrypt_string(&ck, &s), plain);
    }
}

#[test]
fn split_ascii_whitespace() {
    let (ck, sk) = setup_test();
    let plain = " A\nB\t";
    let s = ck.encrypt(plain, STRING_PADDING);
    let split = sk.split_ascii_whitespace(&s);
    assert_eq!(decrypt_pieces(&ck, &split), trim_expected(plain.split_ascii_whitespace().collect()));
    assert_eq!(ck.decrypt_char(&split.pattern_found), 1);
}

#[test]
fn split_ascii_whitespace_runs() {
    let (ck, sk) = setup_test();
    let plain = "  zama \t\r\n is   awesome ";
    let s = ck.encrypt(plain, 3);
    let split = sk.split_ascii_whitespace(&s);
    assert_eq!(decrypt_pieces(&ck, &split), vec!["zama", "is", "awesome"]);
    let none = ck.encrypt("word", 2);
    let split = sk.split_ascii_whitespace(&none);
    assert_eq!(decrypt_pieces(&ck, &split), vec!["word"]);
    assert_eq!(ck.decrypt_char(&split.pattern_found), 0);
}

#[test]
fn rsplit() {
    let (ck, sk) = setup_test();
    let plain = ".A.B.C.";
    let s = ck.encrypt(plain, STRING_PADDING);
    let pattern = ck.encrypt_no_padding(".");
    let split = sk.rsplit(&s, &pattern);
    assert_eq!(decrypt_pieces(&ck, &split), trim_expected(plain.rsplit(".").collect()));
}

#[test]
fn rsplit_overlapping_delimiter() {
    let (ck, sk) = setup_test();
    let plain = "baaa";
    let s = ck.encrypt(plain, STRING_PADDING);
    let pattern = ck.encrypt_no_padding("aa");
    let split = sk.rsplit(&s, &pattern);
    assert_eq!(decrypt_pieces(&ck, &split), trim_expected(plain.rsplit("aa").collect()));
    assert_eq!(decrypt_pieces(&ck, &split), vec!["", "ba"]);
}

#[test]
fn rsplit_once() {
    let (ck, sk) = setup_test();
    let plain = ".A.B.C.";
    let s = ck.encrypt(plain, STRING_PADDING);
    let pattern = ck.encrypt_no_padding(".");
    let split = sk.rsplit_once(&s, &pattern);
    let (before, after) = plain.rsplit_once(".").unwrap();
    assert_eq!(decrypt_pieces(&ck, &split), trim_expected(vec![after, before]));
    assert_eq!(ck.decrypt_char(&split.pattern_found), 1);
}

#[test]
fn rsplitn() {
    let (ck, sk) = setup_test();
    let plain = ".A.B.C.";
    let s = ck.encrypt(plain, STRING_PADDING);
    let pattern = ck.encrypt_no_padding(".");
    let n = FheAsciiChar::encrypt_trivial(3);
    let split = sk.rsplitn(&s, &pattern, n);
    assert_eq!(decrypt_pieces(&ck, &split), trim_expected(plain.rsplitn(3, ".").collect()));
}

#[test]
fn rsplit_terminator() {
    let (ck, sk) = setup_test();
    let plain = "....A.B.C.";
    let s = ck.encrypt(plain, STRING_PADDING);
    let pattern = ck.encrypt_no_padding(".");
    let split = sk.rsplit_terminator(&s, &pattern);
    assert_eq!(decrypt_pieces(&ck, &split), trim_expected(plain.rsplit_terminator(".").collect()));
}

#[test]
fn rsplit_terminator_keeps_leading_piece() {
    let (ck, sk) = setup_test();
    let plain = "A.B";
    let s = ck.encrypt(plain, 2);
    let pattern = ck.encrypt_no_padding(".");
    let split = sk.rsplit_terminator(&s, &pattern);
    assert_eq!(decrypt_pieces(&ck, &split), vec!["B", "A"]);
}

#[test]
fn replace_empty_from() {
    let (ck, sk) = setup_test();
    let s = ck.encrypt("abc", 2);
    let from = ck.encrypt_no_padding("");
    let to = ck.encrypt_no_padding("X");
    let r = sk.replace(&s, &from, &to);
    assert_eq!(decrypt_string(&ck, &r), "abc".replace("", "X"));
    let r = sk.replacen(&s, &from, &to, FheAsciiChar::encrypt_trivial(2));
    assert_eq!(decrypt_string(&ck, &r), "abc".replacen("", "X", 2));
    let empty = ck.encrypt("", 1);
    let r = sk.replace(&empty, &from, &to);
    assert_eq!(decrypt_string(&ck, &r), "".replace("", "X"));
}

#[test]
fn replacen_zero_count() {
    let (ck, sk) = setup_test();
    let s = ck.encrypt("abcabc", 1);
    let from = ck.encrypt_no_padding("b");
    let to = ck.encrypt_no_padding("ZZ");
    let r = sk.replacen(&s, &from, &to, FheAsciiChar::encrypt_trivial(0));
    assert_eq!(decrypt_string(&ck, &r), "abcabc");
}

#[test]
fn clear_pattern_variants() {
    let (ck, sk) = setup_test();
    let s = ck.encrypt("hello abc abc test", STRING_PADDING);
    assert_eq!(ck.decrypt_char(&sk.contains_clear(&s, "abc")), 1);
    assert_eq!(ck.decrypt_char(&sk.starts_with_clear(&s, "hello")), 1);
    assert_eq!(ck.decrypt_char(&sk.ends_with_clear(&s, "abc")), 0);
    assert_eq!(ck.decrypt_char(&sk.find_clear(&s, "abc")), 6);
    assert_eq!(ck.decrypt_char(&sk.rfind_clear(&s, "abc")), 10);
    let r = sk.replace_clear(&s, "abc", "world");
    assert_eq!(decrypt_string(&ck, &r), "hello world world test");
    let r = sk.replacen_clear(&s, "abc", "x", 1);
    assert_eq!(decrypt_string(&ck, &r), "hello x abc test");
    let strip = sk.strip_prefix_clear(&s, "hello ");
    assert_eq!(decrypt_string(&ck, &strip.string), "abc abc test");
    let strip = sk.strip_suffix_clear(&s, " test");
    assert_eq!(decrypt_string(&ck, &strip.string), "hello abc abc");
}

#[test]
fn clear_pattern_splits() {
    let (ck, sk) = setup_test();
    let plain = "a,b,,c,";
    let s = ck.encrypt(plain, STRING_PADDING);
    assert_eq!(decrypt_pieces(&ck, &sk.split_clear(&s, ",")), trim_expected(plain.split(",").collect()));
    assert_eq!(
        decrypt_pieces(&ck, &sk.split_inclusive_clear(&s, ",")),
        trim_expected(plain.split_inclusive(",").collect())
    );
    assert_eq!(
        decrypt_pieces(&ck, &sk.split_terminator_clear(&s, ",")),
        trim_expected(plain.split_terminator(",").collect())
    );
    assert_eq!(
        decrypt_pieces(&ck, &sk.splitn_clear(&s, ",", 3)),
        trim_expected(plain.splitn(3, ",").collect())
    );
    assert_eq!(decrypt_pieces(&ck, &sk.rsplit_clear(&s, ",")), trim_expected(plain.rsplit(",").collect()));
    assert_eq!(
        decrypt_pieces(&ck, &sk.rsplitn_clear(&s, ",", 2)),
        trim_expected(plain.rsplitn(2, ",").collect())
    );
    assert_eq!(
        decrypt_pieces(&ck, &sk.rsplit_terminator_clear(&s, ",")),
        trim_expected(plain.rsplit_terminator(",").collect())
    );
    let once = sk.rsplit_once_clear(&s, ",");
    let (before, after) = plain.rsplit_once(",").unwrap();
    assert_eq!(decrypt_pieces(&ck, &once), trim_expected(vec![after, before]));
}

#[test]
fn find_at_largest_size() {
    let (ck, sk) = setup_test();
    let plain = format!("{}xyz", "a".repeat(197));
    let s = ck.encrypt(&plain, 54);
    assert_eq!(s.len(), 254);
    let pattern = ck.encrypt_no_padding("xyz");
    assert_eq!(ck.decrypt_char(&sk.find(&s, &pattern)), 197);
    assert_eq!(ck.decrypt_char(&sk.rfind(&s, &pattern)), 197);
    assert_eq!(ck.decrypt_char(&sk.contains(&s, &pattern)), 1);
    assert_eq!(ck.decrypt_char(&sk.ends_with(&s, &pattern)), 1);
}

#[test]
fn len_at_largest_size() {
    let (ck, sk) = setup_test();
    let plain = "b".repeat(255);
    let s = ck.encrypt(&plain, 0);
    assert_eq!(ck.decrypt_char(&sk.len(&s)), 255);
    assert_eq!(ck.decrypt_char(&sk.is_empty(&s)), 0);
}

#[test]
fn byte_operations() {
    let a = FheAsciiChar::encrypt_trivial(200);
    let b = FheAsciiChar::encrypt_trivial(100);
    assert_eq!(a.add(&b).decrypt(), 44);
    assert_eq!(b.sub(&a).decrypt(), 156);
    assert_eq!(a.gt(&b).decrypt(), 1);
    assert_eq!(a.le(&b).decrypt(), 0);
    let one = FheAsciiChar::encrypt_trivial(1);
    let zero = FheAsciiChar::encrypt_trivial(0);
    assert_eq!(one.flip().decrypt(), 0);
    assert_eq!(zero.flip().decrypt(), 1);
    assert_eq!(one.if_then_else(&a, &b).decrypt(), 200);
    assert_eq!(zero.if_then_else(&a, &b).decrypt(), 100);
    assert_eq!(FheAsciiChar::encrypt_trivial(0x0B).is_whitespace().decrypt(), 1);
    assert_eq!(FheAsciiChar::encrypt_trivial(b'Q').is_uppercase().decrypt(), 1);
    assert_eq!(FheAsciiChar::encrypt_trivial(b'q').is_lowercase().decrypt(), 1);
    assert_eq!(FheAsciiChar::encrypt_trivial(b'@').is_uppercase().decrypt(), 0);
}

fn split_family_against_std(plain: &str, pattern_plain: &str, padding: usize) {
    let (ck, sk) = setup_test();
    let s = ck.encrypt(plain, padding);
    let p = ck.encrypt_no_padding(pattern_plain);
    assert_eq!(decrypt_pieces(&ck, &sk.split(&s, &p)), trim_expected(plain.split(pattern_plain).collect()));
    assert_eq!(
        decrypt_pieces(&ck, &sk.split_inclusive(&s, &p)),
        trim_expected(plain.split_inclusive(pattern_plain).collect())
    );
    assert_eq!(
        decrypt_pieces(&ck, &sk.split_terminator(&s, &p)),
        trim_expected(plain.split_terminator(pattern_plain).collect())
    );
    assert_eq!(decrypt_pieces(&ck, &sk.rsplit(&s, &p)), trim_expected(plain.rsplit(pattern_plain).collect()));
    assert_eq!(
        decrypt_pieces(&ck, &sk.rsplit_terminator(&s, &p)),
        trim_expected(plain.rsplit_terminator(pattern_plain).collect())
    );
    for n in 0u8..5 {
        let k = FheAsciiChar::encrypt_trivial(n);
        assert_eq!(
            decrypt_pieces(&ck, &sk.splitn(&s, &p, k)),
            trim_expected(plain.splitn(n as usize, pattern_plain).collect())
        );
        assert_eq!(
            decrypt_pieces(&ck, &sk.rsplitn(&s, &p, k)),
            trim_expected(plain.rsplitn(n as usize, pattern_plain).collect())
        );
    }
    let once = sk.rsplit_once(&s, &p);
    let expected = match plain.rsplit_once(pattern_plain) {
        Some((before, after)) => vec![after, before],
        None => vec![plain],
    };
    assert_eq!(decrypt_pieces(&ck, &once), trim_expected(expected.clone()));
    assert_eq!(ck.decrypt_char(&once.pattern_found), plain.rsplit_once(pattern_plain).is_some() as u8);
}

#[test]
fn split_empty_delimiter() {
    let (ck, sk) = setup_test();
    let s = ck.encrypt("abc", STRING_PADDING);
    let p = ck.encrypt_no_padding("");
    let split = sk.split(&s, &p);
    assert_eq!(decrypt_pieces(&ck, &split), vec!["", "a", "b", "c"]);
    assert_eq!(ck.decrypt_char(&split.pattern_found), 1);
}

#[test]
fn rsplitn_empty_delimiter() {
    let (ck, sk) = setup_test();
    let s = ck.encrypt("eeeeee", STRING_PADDING);
    let p = ck.encrypt_no_padding("");
    let two = sk.rsplitn(&s, &p, FheAsciiChar::encrypt_trivial(2));
    assert_eq!(decrypt_pieces(&ck, &two), vec!["", "eeeeee"]);
    let three = sk.rsplitn(&s, &p, FheAsciiChar::encrypt_trivial(3));
    assert_eq!(decrypt_pieces(&ck, &three), vec!["", "e", "eeeee"]);
}

#[test]
fn split_family_empty_delimiter_against_std() {
    split_family_against_std("abc", "", 2);
    split_family_against_std("abc", "", 0);
    split_family_against_std("", "", 0);
    split_family_against_std("", "", 3);
    split_family_against_std("x", "", 0);
}

#[test]
fn split_family_nonempty_delimiter_against_std() {
    split_family_against_std(".A.B.C.", ".", 1);
    split_family_against_std("aaaab", "aa", 0);
    split_family_against_std("", ",", 2);
    split_family_against_std("a,b", "a,b,c", 1);
}

#[test]
fn replace_one_byte_pattern_long_text() {
    let (ck, sk) = setup_test();
    let plain = "ab".repeat(25);
    let s = ck.encrypt(&plain, 0);
    let from = ck.encrypt_no_padding("a");
    let to = ck.encrypt_no_padding("12345");
    let r = sk.replace(&s, &from, &to);
    assert_eq!(decrypt_string(&ck, &r), plain.replace("a", "12345"));
    let r = sk.replacen(&s, &from, &to, FheAsciiChar::encrypt_trivial(7));
    assert_eq!(decrypt_string(&ck, &r), plain.replacen("a", "12345", 7));
}
