use chordscript::deserialise::{DelimSplit, EscapedStr, Print};

#[test]
fn mod_custom_split() {
    let escape_list = ['"', '\\'];

    let example = "a";
    let mut delim_iter = DelimSplit::new(example, &escape_list[..]);
    let mut split_iter = example.split(&escape_list[..]);
    assert_eq!(Some(("", "a")), delim_iter.next());
    assert_eq!(None, delim_iter.next());
    assert_eq!(None, delim_iter.next());
    assert_eq!(Some("a"), split_iter.next());
    assert_eq!(None, split_iter.next());

    let example = "";
    let mut delim_iter = DelimSplit::new(example, &escape_list[..]);
    let mut split_iter = example.split(&escape_list[..]);
    assert_eq!(Some(("", "")), delim_iter.next());
    assert_eq!(None, delim_iter.next());
    assert_eq!(None, delim_iter.next());
    assert_eq!(Some(""), split_iter.next());
    assert_eq!(None, split_iter.next());

    let example = "\\";
    let mut delim_iter = DelimSplit::new(example, &escape_list[..]);
    let mut split_iter = example.split(&escape_list[..]);
    assert_eq!(Some(("", "")), delim_iter.next());
    assert_eq!(Some(("\\", "")), delim_iter.next());
    assert_eq!(None, delim_iter.next());
    assert_eq!(None, delim_iter.next());
    assert_eq!(Some(""), split_iter.next());
    assert_eq!(Some(""), split_iter.next());
    assert_eq!(None, split_iter.next());

    let example = "a\\b\\c";
    let mut delim_iter = DelimSplit::new(example, &escape_list[..]);
    let mut split_iter = example.split(&escape_list[..]);
    assert_eq!(Some(("", "a")), delim_iter.next());
    assert_eq!(Some(("\\", "b")), delim_iter.next());
    assert_eq!(Some(("\\", "c")), delim_iter.next());
    assert_eq!(None, delim_iter.next());
    assert_eq!(None, delim_iter.next());
    assert_eq!(Some("a"), split_iter.next());
    assert_eq!(Some("b"), split_iter.next());
    assert_eq!(Some("c"), split_iter.next());
    assert_eq!(None, split_iter.next());

    let example = "\\你\"好\\嗎";
    let mut delim_iter = DelimSplit::new(example, &escape_list[..]);
    let mut split_iter = example.split(&escape_list[..]);
    assert_eq!(Some(("", "")), delim_iter.next());
    assert_eq!(Some(("\\", "你")), delim_iter.next());
    assert_eq!(Some(("\"", "好")), delim_iter.next());
    assert_eq!(Some(("\\", "嗎")), delim_iter.next());
    assert_eq!(None, delim_iter.next());
    assert_eq!(None, delim_iter.next());
    assert_eq!(Some(""), split_iter.next());
    assert_eq!(Some("你"), split_iter.next());
    assert_eq!(Some("好"), split_iter.next());
    assert_eq!(Some("嗎"), split_iter.next());
    assert_eq!(None, split_iter.next());

    let example = "你\"h\\嗎\"";
    let mut delim_iter = DelimSplit::new(example, &escape_list[..]);
    let mut split_iter = example.split(&escape_list[..]);
    assert_eq!(Some(("", "你")), delim_iter.next());
    assert_eq!(Some(("\"", "h")), delim_iter.next());
    assert_eq!(Some(("\\", "嗎")), delim_iter.next());
    assert_eq!(Some(("\"", "")), delim_iter.next());
    assert_eq!(None, delim_iter.next());
    assert_eq!(None, delim_iter.next());
    assert_eq!(Some("你"), split_iter.next());
    assert_eq!(Some("h"), split_iter.next());
    assert_eq!(Some("嗎"), split_iter.next());
    assert_eq!(Some(""), split_iter.next());
    assert_eq!(None, split_iter.next());
}

#[test]
fn split_pieces_rejoin_to_the_text() {
    let delims = [',', ';'];
    let example = "a,b;;c,";
    let mut iter = DelimSplit::new(example, &delims[..]);
    let mut rejoined = String::new();
    while let Some((delim, section)) = iter.next() {
        rejoined.push_str(delim);
        rejoined.push_str(section);
    }
    assert_eq!(rejoined, example);
}

const QUOTES: [char; 1] = ['\''];
const QUOTE_ESCAPES: [&'static str; 1] = ["'\\''"];

#[test]
fn escaped_str_replaces_candidates() {
    let escaped = EscapedStr(&QUOTES, &QUOTE_ESCAPES, "it's a 'test'").to_string_custom();
    assert_eq!(escaped, "it'\\''s a '\\''test'\\''");
    assert_eq!(EscapedStr(&QUOTES, &QUOTE_ESCAPES, "plain").to_string_custom(), "plain");
    assert_eq!(EscapedStr(&QUOTES, &QUOTE_ESCAPES, "x'").string_len(), 5);
}
