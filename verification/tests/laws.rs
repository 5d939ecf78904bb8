use chordscript::deserialise::{Print, Shellscript};
use chordscript::keyspaces::{self, Action};
use chordscript::lexer;
use chordscript::parser::{self, parse_to_shortcuts};
use chordscript::errors::HOTKEY_DUPLICATE;
use chordscript::structs::Chord;
use chordscript::templates::{Consumer, Format, PreallocLen};
use chordscript::templates::shellscript::Wrapper;

const FILE: &str = "|super {{a, b}} ; {{c, d}}| echo {{1, 2}}\n|alt x| run x\n|super e ; f ; g| deep\n!ctrl q!\n";

fn keys(chords: &[Chord]) -> Vec<(usize, u8)> {
    chords.iter().map(|c| (c.key, c.modifiers)).collect()
}

#[test]
fn parsed_shortcuts_are_sorted_and_do_not_overlap() {
    let lexemes = lexer::process(FILE).unwrap();
    let owner = parser::parse(FILE, &lexemes).unwrap();
    let list = owner.to_iter();
    assert_eq!(list.len(), 5);
    for w in list.windows(2) {
        assert!(keys(w[0].hotkey) <= keys(w[1].hotkey));
    }
    for (i, a) in list.iter().enumerate() {
        for (j, b) in list.iter().enumerate() {
            if i != j {
                let (ka, kb) = (keys(a.hotkey), keys(b.hotkey));
                assert!(!(ka.len() <= kb.len() && kb[..ka.len()] == ka[..]));
            }
        }
    }
}

#[test]
fn every_hotkey_is_reachable_through_the_keyspaces() {
    let owner = parser::parse_to_shortcuts(FILE).unwrap();
    let ks = keyspaces::process(&owner);
    for s in owner.to_iter().iter().filter(|s| !s.is_placeholder) {
        let hotkey = keys(s.hotkey);
        for c in 0..hotkey.len() {
            let found = ks.keyspaces.iter().any(|k| {
                keys(k.title) == hotkey[..c].to_vec()
                    && ks.all_actions[k.action_start..k.action_end].iter().any(|a| match a {
                        Action::SetState(t) => c + 1 < hotkey.len() && keys(t) == hotkey[..c + 1].to_vec(),
                        Action::Command(trigger, shortcut) => {
                            c + 1 == hotkey.len() && (trigger.key, trigger.modifiers) == hotkey[c] && keys(shortcut.hotkey) == hotkey
                        }
                    })
            });
            assert!(found, "chord {} of {:?}", c, hotkey);
        }
    }
}

#[test]
fn keyspaces_have_actions_one_chord_further() {
    let owner = parser::parse_to_shortcuts(FILE).unwrap();
    let ks = keyspaces::process(&owner);
    assert!(ks.keyspaces[0].title.is_empty());
    for k in ks.keyspaces.iter() {
        assert!(k.action_start < k.action_end);
        for a in ks.all_actions[k.action_start..k.action_end].iter() {
            let reached = match a {
                Action::SetState(t) => keys(t),
                Action::Command(_, s) => keys(s.hotkey),
            };
            assert_eq!(reached.len(), k.title.len() + 1);
            assert_eq!(reached[..k.title.len()].to_vec(), keys(k.title));
        }
    }
}

#[test]
fn precomputed_length_matches_the_text() {
    let owner = parser::parse_to_shortcuts(FILE).unwrap();
    let text = Shellscript(&owner).to_string_custom();
    assert_eq!(Shellscript(&owner).string_len(), text.chars().count());
    assert_eq!(Wrapper().len(&owner), text.chars().count());
}

#[test]
fn consuming_appends() {
    let mut s = String::from("ab");
    s.consume("cd");
    assert_eq!(s, "abcd");
}

#[test]
fn repeated_hotkey_is_reported_at_its_later_entry() {
    let file = "|super a| two\n|super b| x\n|super a| one";
    let err = parse_to_shortcuts(file).unwrap_err();
    assert_eq!(err.message, HOTKEY_DUPLICATE);
    assert_eq!(err.range, (27, 34));
}

#[test]
fn parse_gives_the_file_order_stably_sorted() {
    let file = "|super b| x\n|alt a| y\n|super a| z";
    let lexemes = lexer::process(file).unwrap();
    let sorted = parser::parse(file, &lexemes).unwrap();
    let unsorted = parser::parse_unsorted(file, &lexemes).unwrap();
    let texts = |o: &parser::ShortcutOwner| o.to_iter().iter().map(|s| s.hotkey.iter().map(|c| c.sources.iter().filter(|t| !t.is_empty()).cloned().collect::<Vec<_>>().join(" ")).collect::<Vec<_>>().join(" ; ")).collect::<Vec<_>>();
    assert_eq!(texts(&unsorted), vec!["b super", "a alt", "a super"]);
    assert_eq!(texts(&sorted), vec!["a alt", "a super", "b super"]);
}

#[test]
fn each_shortcut_command_is_run_by_one_action() {
    let lexemes = lexer::process(FILE).unwrap();
    let owner = parser::parse(FILE, &lexemes).unwrap();
    let ks = keyspaces::process(&owner);
    let commands: Vec<Vec<(usize, u8)>> = ks
        .all_actions
        .iter()
        .filter_map(|a| match a {
            Action::Command(trigger, s) => {
                let last = s.hotkey.last().unwrap();
                assert_eq!((trigger.key, trigger.modifiers), (last.key, last.modifiers));
                Some(keys(s.hotkey))
            }
            Action::SetState(_) => None,
        })
        .collect();
    assert_eq!(commands.len(), 4);
    for (i, a) in commands.iter().enumerate() {
        assert!(commands[i + 1..].iter().all(|b| b != a));
    }
}

#[test]
fn i3_text_does_not_depend_on_the_runner() {
    let owner = parse_to_shortcuts(FILE).unwrap();
    let mut first = String::new();
    Format::from_str("i3", Some("runner")).unwrap().pipe_string(&owner, &mut first);
    let mut second = String::new();
    Format::from_str("i3", Some("other")).unwrap().pipe_string(&owner, &mut second);
    assert_eq!(first, second);
    assert!(first.contains("mode \"default\""));
}
