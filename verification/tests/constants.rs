use chordscript::constants::{fold_max_len, KEYCODES, MODIFIERS, SEPARATOR, WHITESPACE};
use chordscript::deserialise::{I3_MODIFIERS, I3_TITLE_MODIFIERS};
use chordscript::errors::{available_keys, head_invalid_key_message, invalid_key_message};
use chordscript::lexer::KEYSTR_UTF8_MAX_LEN;
use chordscript::reporter::{DISPLAY_LIMIT, ELLIPSIS};
use chordscript::structs::ChordModifiers;
use chordscript::text::{concat_strs, join_strs};

const BLACKLIST: [char; 6] = ['|', '!', '"', ';', '{', '}'];

fn assert_is_unique<T: Ord>(mut input: Vec<T>, msg: &str) {
    let before_sort_len = input.len();
    input.sort_unstable();
    input.dedup();
    assert_eq!(before_sort_len, input.len(), "'{}' has a duplicate", msg);
}

fn all_keys() -> Vec<&'static str> {
    let mut combined = MODIFIERS.to_vec();
    combined.append(&mut KEYCODES.to_vec());
    combined
}

#[test]
fn arrays_are_unique_and_valid() {
    assert!(WHITESPACE.iter().all(|c| c.is_whitespace()));
    assert_eq!(&WHITESPACE, &SEPARATOR[0..WHITESPACE.len()]);

    assert_is_unique(WHITESPACE.to_vec(), "WHITESPACE");
    assert_is_unique(SEPARATOR.to_vec(), "SEPARATOR");
    assert_is_unique(KEYCODES.to_vec(), "KEYCODES");
    assert_is_unique(MODIFIERS.to_vec(), "KEYCODES");

    assert!(!KEYCODES.iter().any(|s| s.contains(&BLACKLIST[..])));
    assert!(!MODIFIERS.iter().any(|s| s.contains(&BLACKLIST[..])));
}

#[test]
fn keycodes_is_sorted() {
    let mut sorted = KEYCODES.clone();
    sorted.sort_by(|a, b| {
        if a.len() == b.len() {
            a.cmp(b)
        } else {
            a.len().cmp(&b.len())
        }
    });
    assert_eq!(sorted, KEYCODES);
}

#[test]
fn key_and_mod_for_stats_and_overlap() {
    let combined = all_keys();
    let max_len = fold_max_len(&combined);

    assert!(combined.iter().all(|k| k.len() <= max_len));
    assert!(combined.iter().any(|k| k.len() == max_len));

    // They do not intersect
    assert_is_unique(combined.clone(), "KEYCODE' together with 'MODIFIER");

    // The list of keys of the error message is built from both
    assert_eq!(combined.clone().join(" "), available_keys());
}

#[test]
fn check_keys_are_correct() {
    assert!(WHITESPACE.iter().all(|c| c.is_whitespace()));
    assert_eq!(&WHITESPACE, &SEPARATOR[0..WHITESPACE.len()]);
    assert!(KEYCODES.iter().chain(MODIFIERS.iter()).all(|k| k.len() <= KEYSTR_UTF8_MAX_LEN));
    assert!(KEYCODES.iter().chain(MODIFIERS.iter()).any(|k| k.len() == KEYSTR_UTF8_MAX_LEN));

    let mut combined = KEYCODES.iter().chain(MODIFIERS.iter()).collect::<Vec<_>>();
    combined.sort_unstable();
    let len = combined.len();
    combined.dedup();
    assert_eq!(len, combined.len(), "Some keys are specified both in KEYCODES and MODIFIERS");
}

#[test]
fn is_keycodes_sorted_and_unique() {
    let mut sorted = KEYCODES.clone();
    sorted.sort_by(|a, b| if a.len() == b.len() { a.cmp(b) } else { a.len().cmp(&b.len()) });
    assert_eq!(KEYCODES, sorted);

    let mut as_sorted_vec = sorted.to_vec();
    as_sorted_vec.dedup();
    assert!(as_sorted_vec.len() == sorted.len(), "KEYCODES has a duplicated key");
}

#[test]
fn no_invalid_punctuation() {
    assert!(KEYCODES.iter().find(|s| s.contains('"')).is_none());
    assert!(KEYCODES.iter().find(|s| s.contains(';')).is_none());
    assert!(I3_MODIFIERS.iter().find(|s| s.contains('"')).is_none());
    assert!(I3_MODIFIERS.iter().find(|s| s.contains(';')).is_none());
    assert!(I3_TITLE_MODIFIERS.iter().find(|s| s.contains('"')).is_none());
}

#[test]
fn errors_const_concat_real_example() {
    let keys = all_keys().join(" ");
    assert_eq!(
        ["Not a valid key. The valid keys are the following:\n    ", keys.as_str()].join(""),
        invalid_key_message()
    );
    assert_eq!(["Not a valid key\n", keys.as_str()].join(""), head_invalid_key_message());
}

#[test]
fn errors_const_concat() {
    // The messages are built by concatenation: each piece in order, nothing between.
    const FIRST: &'static str = "The quick brown fox jumps over";
    assert_eq!("The quick brown fox jumps over the lazy dog", concat_strs(&[FIRST, " the lazy dog"]));
    assert_eq!("", concat_strs(&[]));
    assert_eq!("abc", concat_strs(&["", "a", "", "bc", ""]));
    let pieces: Vec<String> = (1..=37u8).map(|i| i.to_string()).collect();
    let refs: Vec<&str> = pieces.iter().map(String::as_str).collect();
    assert_eq!(concat_strs(&refs), pieces.concat());
}

#[test]
fn macros_const_concat() {
    // Joining puts the separator between neighbours only.
    const FIRST: &'static str = "The quick brown fox jumps over";
    assert_eq!("The quick brown fox jumps over the lazy dog", join_strs(&[FIRST, "the lazy dog"], " "));
    assert_eq!("", join_strs(&[], ", "));
    assert_eq!("é", join_strs(&["é"], ", "));
    assert_eq!("a, , b", join_strs(&["a", "", "b"], ", "));
    assert_eq!(join_strs(&MODIFIERS, " "), MODIFIERS.join(" "));
}

#[test]
fn structs_chord_modifiers_big_enough() {
    let modifier_size = std::mem::size_of::<ChordModifiers>() * 8;
    assert!(modifier_size >= MODIFIERS.len(), "'Modifiers' is not large enough to hold all the flags");
}

#[test]
fn limit_is_big_enough() {
    assert!(DISPLAY_LIMIT >= ELLIPSIS.len())
}

#[test]
fn fold_max_len_finds_longest() {
    assert_eq!(fold_max_len(&["a", "abc", "ab"]), 3);
    assert_eq!(fold_max_len(&["你好"]), 6);
    assert_eq!(fold_max_len(&["é", "a"]), 2);
}
