use qack::text::{
    chars_of, find, join_with, replace, replacen_one, rfind, split, split_words, to_string,
    trim_with, Strip,
};

fn cs(s: &str) -> Vec<char> {
    chars_of(s)
}

fn st(v: &Vec<char>) -> String {
    to_string(v)
}

#[test]
fn split_then_join_gives_text_back() {
    for (s, p) in [("a;b;;c", ";"), ("", ";"), ("fun a fun b", "fun "), (";;", ";"), ("xyz", "q")] {
        let pieces = split(&cs(s), &cs(p));
        assert_eq!(st(&join_with(&pieces, &cs(p))), s);
    }
    let pieces = split(&cs("a;b;;c"), &cs(";"));
    let texts: Vec<String> = pieces.iter().map(|x| st(x)).collect();
    assert_eq!(texts, vec!["a", "b", "", "c"]);
}

#[test]
fn searching_from_both_ends() {
    assert_eq!(find(&cs("a};b};"), &cs("};")), Some(1));
    assert_eq!(rfind(&cs("a};b};"), &cs("};")), Some(4));
    assert_eq!(find(&cs("abc"), &cs("x")), None);
    assert_eq!(rfind(&cs("abc"), &cs("x")), None);
    assert_eq!(find(&cs("aaa"), &cs("aa")), Some(0));
    assert_eq!(rfind(&cs("aaa"), &cs("aa")), Some(1));
}

#[test]
fn replacing() {
    assert_eq!(st(&replace(&cs("aaaa"), &cs("aa"), &cs("b"))), "bb");
    assert_eq!(st(&replace(&cs("a=b"), &cs("="), &cs("=="))), "a==b");
    assert_eq!(st(&replacen_one(&cs("set set"), &cs("set"), &cs("int"))), "int set");
    assert_eq!(st(&replacen_one(&cs("abc"), &cs("x"), &cs("y"))), "abc");
}

#[test]
fn trimming_and_words() {
    assert_eq!(st(&trim_with(&cs("\u{3000} a b \t"), Strip::Space)), "a b");
    assert_eq!(st(&trim_with(&cs("(-5),"), Strip::Symbol)), "-5");
    assert_eq!(st(&trim_with(&cs("()"), Strip::Symbol)), "");
    let ws = split_words(&cs("  a\tbb \n c "));
    let texts: Vec<String> = ws.iter().map(|x| st(x)).collect();
    assert_eq!(texts, vec!["a", "bb", "c"]);
}
