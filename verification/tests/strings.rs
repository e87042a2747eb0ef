use seq_tools::itertools::char_subs::CharSubs;
use seq_tools::itertools::char_subs::CharSubsExt;
use seq_tools::stringtools::replace_first;
use seq_tools::stringtools::StrExt;

#[test]
fn first_letter_upper_of_words() {
    assert_eq!("hello world".first_letter_upper(), "Hello world");
    assert_eq!("Hello".first_letter_upper(), "Hello");
    assert_eq!("".first_letter_upper(), "");
    assert_eq!("x".first_letter_upper(), "X");
    assert_eq!("1a".first_letter_upper(), "1a");
    assert_eq!(String::from("owned").first_letter_upper(), "Owned");
}

#[test]
fn first_letter_upper_beyond_ascii() {
    assert_eq!("éa".first_letter_upper(), "Éa");
    assert_eq!("ßa".first_letter_upper(), "SSa");
    assert_eq!("ちょ".first_letter_upper(), "ちょ");
}

#[test]
fn replace_first_character() {
    assert_eq!(replace_first("abc", "XY"), "XYbc");
    assert_eq!(replace_first("", "XY"), "XY");
    assert_eq!(replace_first("a", ""), "");
    assert_eq!(replace_first("éa", "E"), "Ea");
}

fn forward(inp: &str) -> Vec<String> {
    let mut it = inp.char_substrings();
    let mut out = Vec::new();
    while let Some(x) = it.next() {
        out.push(x.to_string());
    }
    out
}

fn backward(inp: &str) -> Vec<String> {
    let mut it = inp.char_substrings();
    let mut out = Vec::new();
    while let Some(x) = it.next_back() {
        out.push(x.to_string());
    }
    out
}

#[test]
fn char_substrings_empty() {
    assert_eq!(forward(""), Vec::<String>::new());
    assert_eq!(backward(""), Vec::<String>::new());
}

#[test]
fn char_substrings_ascii() {
    let inp = "someTexst";
    let exp: Vec<_> = inp.char_indices().map(|i| i.1.to_string()).collect();
    assert_eq!(forward(inp).len(), inp.char_indices().count());
    assert_eq!(forward(inp), exp);
    let rev: Vec<_> = inp.char_indices().rev().map(|i| i.1.to_string()).collect();
    assert_eq!(backward(inp), rev);
}

#[test]
fn char_substrings_utf8() {
    let inp = "ちょっとユー・ティー・エフ・はち";
    let exp: Vec<_> = inp.char_indices().map(|i| i.1.to_string()).collect();
    assert_eq!(forward(inp).len(), inp.char_indices().count());
    assert_eq!(forward(inp), exp);
    let rev: Vec<_> = inp.char_indices().rev().map(|i| i.1.to_string()).collect();
    assert_eq!(backward(inp), rev);
}

#[test]
fn char_substrings_from_both_ends() {
    let mut it = CharSubs::new("aéz");
    assert_eq!(it.size_hint(), (3, Some(3)));
    assert_eq!(it.next(), Some("a"));
    assert_eq!(it.next_back(), Some("z"));
    assert_eq!(it.size_hint(), (1, Some(1)));
    assert_eq!(it.next_back(), Some("é"));
    assert_eq!(it.next(), None);
    assert_eq!(it.next_back(), None);
    assert_eq!(it.size_hint(), (0, Some(0)));
}
