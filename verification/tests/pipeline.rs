use chordscript::cli::{choose_subcommand, handle_help_flag, Subcommand};
use chordscript::deserialise::{
    commands_trimmable, debug_command_line, debug_keyspace_text, ListDebug, ListPreview, Print, Shellscript,
};
use chordscript::errors::{
    head_invalid_key_message, END_BEFORE_HEAD_CLOSE, HEAD_COMMA_OUTSIDE_BRACKETS, HOTKEY_DUPLICATE, HOTKEY_UNREACHABLE,
};
use chordscript::lexer::HeadLexeme;
use chordscript::structs::{Chord, WithSpan};
use chordscript::keyspaces::{self, Action};
use chordscript::lexer;
use chordscript::parser::{self, parse_to_shortcuts};
use chordscript::reporter::MarkupError;
use chordscript::templates::{add, Format, FormatError};

#[test]
fn _interpret() {
    let _file = r#"
#
#hello
|super {{, alt, ctrl, ctrl alt}} Return|
  {{$TERMINAL, alacritty, \
  st, sakura}} -e tmux.sh open
|super {{c, t, g, k}} ; super {{b,s}}|
  $TERMINAL -e {{curl,browser.sh}}  '{{terminal,gui}}' '{{bookmarks,search}}'
{{{| cat -}}}
#|| echo asdf
#|super;| echo yo
#|| echo yo
#|super shift q; t|echo {{3349\, 109324}}
|super shift q|"#;

    let _file = r#"
#
#hello
|super {{, alt, ctrl, ctrl alt}} Return|
  {{$TERMINAL, alacritty, \
  st, sakura}} -e tmux.sh open
|super {{c, t, g, k}} ; super {{b,s}}|
  $TERMINAL -e {{curl,browser.sh}}  '{{terminal,gui}}' '{{bookmarks,search}}'
{{{| cat -}}}jam
|super shift q|"#;

    let result = lexer::process(_file).and_then(|lexemes| parser::parse(_file, &lexemes));
    match result {
        Ok(parsemes) => {
            let _keyspaces = keyspaces::process(&parsemes);
        }
        Err(err) => println!("{:?}", err),
    }
}

#[test]
fn shell_script_of_one_shortcut() {
    let file = "|super a| echo hi";
    let owner = parse_to_shortcuts(file).unwrap();
    assert_eq!(owner.shortcuts.len(), 1);
    assert!(commands_trimmable(&owner));
    assert_eq!(
        Shellscript(&owner).to_string_custom(),
        "#!/bin/sh\ncase \"${1}\"\n  in \"super a\") echo hi \n  ;; *) notify.sh \"key combination ${1}\"; exit 1\nesac\n"
    );
}

#[test]
fn repeated_hotkey_is_refused() {
    let file = "|super a| one\n|super a| two";
    let err = parse_to_shortcuts(file).unwrap_err();
    assert_eq!(err.message, HOTKEY_DUPLICATE);
    assert_eq!(err.source, file);
}

#[test]
fn unreachable_hotkey_is_refused() {
    let file = "|super a| one\n|super a ; b| two";
    let err = parse_to_shortcuts(file).unwrap_err();
    assert_eq!(err.message, HOTKEY_UNREACHABLE);
    let lexemes = lexer::process(file).unwrap();
    let sorted_err = parser::parse(file, &lexemes).unwrap_err();
    assert_eq!(sorted_err.message, HOTKEY_UNREACHABLE);
}

#[test]
fn sorting_and_file_order() {
    let file = "|super b| two\n|super a| one";
    let lexemes = lexer::process(file).unwrap();
    let sorted = parser::parse(file, &lexemes).unwrap();
    let unsorted = parser::parse_unsorted(file, &lexemes).unwrap();
    assert_eq!(ListPreview(&sorted).to_string_custom(), "|super a|'one'\n|super b|'two'\n");
    assert_eq!(ListPreview(&unsorted).to_string_custom(), "|super b|'two'\n|super a|'one'\n");
    let listed = sorted.to_iter();
    assert_eq!(listed.len(), 2);
    assert_eq!(listed[0].hotkey[0].key, 12);
}

#[test]
fn listing_of_placeholders_and_shortcuts() {
    let file = "!super p!\n|super a| echo 'x'";
    let owner = parse_to_shortcuts(file).unwrap();
    assert_eq!(
        ListDebug(&owner).to_string_custom(),
        "Placeholders\n==========\n|super p|''\n\nReal Shortcuts\n==========\n|super a|'echo '\\''x'\\'''\n"
    );
    let format = Format::from_str("debug-shortcuts", None).unwrap();
    let mut out = String::new();
    assert!(format.can_pipe(&owner));
    format.pipe_string(&owner, &mut out);
    assert_eq!(out, ListDebug(&owner).to_string_custom());
}

#[test]
fn keyspaces_and_i3_configuration() {
    let file = "|super a ; b| x\n|super a ; c| y\n|super d| z";
    let owner = parse_to_shortcuts(file).unwrap();
    let ks = keyspaces::process(&owner);
    assert_eq!(ks.keyspaces.len(), 2);
    assert_eq!(ks.keyspaces[0].title.len(), 0);
    assert_eq!(ks.all_actions.len(), 4);
    assert!(matches!(ks.all_actions[0], Action::SetState(t) if t.len() == 1));
    assert!(matches!(ks.all_actions[1], Action::Command(c, _) if c.key == 15));
    assert_eq!(ks.all_actions[2].key_trigger().key, 13);

    let mut iter = ks.to_iter();
    let first = iter.next().unwrap();
    assert_eq!(first.actions.len(), 2);
    let second = iter.next().unwrap();
    assert_eq!(second.title.len(), 1);
    assert_eq!(second.actions.len(), 2);
    assert!(iter.next().is_none());

    let format = Format::from_str("i3", Some("runner")).unwrap();
    assert!(format.can_pipe(&owner));
    let mut out = String::new();
    format.pipe_string(&owner, &mut out);
    assert_eq!(
        out,
        "bindsym Mod4+a mode \"M+a\"\nbindsym Mod4+d exec --no-startup-id \"shortcuts.sh 'super d'\"; mode \"default\"\n\nmode \"M+a\" {\n  bindsym b exec --no-startup-id \"shortcuts.sh 'super a ; b'\"; mode \"default\"\n  bindsym c exec --no-startup-id \"shortcuts.sh 'super a ; c'\"; mode \"default\"\n  bindsym Escape mode \"default\"\n}\n"
    );
}

#[test]
fn i3_needs_a_command() {
    let owner = parse_to_shortcuts("!super p! x").unwrap();
    let format = Format::from_str("i3", Some("runner")).unwrap();
    assert!(!format.can_pipe(&owner));
}

#[test]
fn blank_commands_in_many_sections_cannot_be_trimmed() {
    let owner = parse_to_shortcuts("|super {{a,b}}| {{ , }} ").unwrap();
    assert!(!commands_trimmable(&owner));
}

#[test]
fn unclosed_head_is_refused() {
    let err = lexer::process("|super a").unwrap_err();
    assert_eq!(err.message, END_BEFORE_HEAD_CLOSE);
}

#[test]
fn unknown_key_is_refused() {
    let err = parse_to_shortcuts("|super xyz| a").unwrap_err();
    assert_eq!(err.message, head_invalid_key_message());
}

#[test]
fn error_on_one_row() {
    let err = MarkupError::from_range("abc\ndef", (5, 6), "oops".to_string());
    assert!(err.is_renderable());
    assert_eq!(err.to_string(), "  |\n2 | def\n  |  ^\n  |\n  = oops");
}

#[test]
fn error_over_two_rows() {
    let err = MarkupError::from_range("ab\ncd", (1, 4), "msg".to_string());
    assert!(err.is_renderable());
    assert_eq!(err.to_string(), "  |\n  |  vv\n1 | ab\n2 | cd\n  | ^\n  |\n  = msg");
}

#[test]
fn error_needs_text() {
    let err = MarkupError::from_range("", (0, 0), "msg".to_string());
    assert!(!err.is_renderable());
}

#[test]
fn digits() {
    assert_eq!(chordscript::reporter::count_digits(0), 1);
    assert_eq!(chordscript::reporter::count_digits(9), 1);
    assert_eq!(chordscript::reporter::count_digits(10), 2);
    assert_eq!(chordscript::reporter::count_digits(12345), 5);
    let mut s = String::new();
    chordscript::reporter::push_num(&mut s, 4, 42);
    assert_eq!(s, "42  ");
}

#[test]
fn formats_by_name() {
    assert!(matches!(Format::from_str("shell", None), Ok(Format::Native(0))));
    assert_eq!(Format::from_str("shell", Some("r")).unwrap_err(), FormatError::NativeUnsupported);
    assert_eq!(Format::from_str("i3", None).unwrap_err(), FormatError::ShellUnsupported);
    assert!(matches!(Format::from_str("i3", Some("r")), Ok(Format::Shell { id: 1, runner: "r" })));
    assert_eq!(Format::from_str("nope", None).unwrap_err(), FormatError::Invalid);
}

#[test]
fn add_appends() {
    assert_eq!(add("x"), "xasdfasdf");
}

#[test]
fn help_flag() {
    let args = |v: &[&str]| v.iter().map(|s| s.to_string()).collect::<Vec<String>>();
    assert!(handle_help_flag(&args(&["prog"])));
    assert!(handle_help_flag(&args(&["prog", "-h"])));
    assert!(handle_help_flag(&args(&["prog", "a", "--help"])));
    assert!(!handle_help_flag(&args(&["prog", "--", "-h"])));
    assert!(!handle_help_flag(&args(&["prog", "a"])));
}

#[test]
fn subcommands_by_name() {
    assert_eq!(choose_subcommand(Some("k")), Subcommand::Keyspaces);
    assert_eq!(choose_subcommand(Some("shortcut")), Subcommand::Shortcuts);
    assert_eq!(choose_subcommand(Some("i3-shell")), Subcommand::I3Shell);
    assert_eq!(choose_subcommand(None), Subcommand::DebugShortcuts);
    assert_eq!(choose_subcommand(Some("zzz")), Subcommand::Unknown);
}

#[test]
fn keyspaces_for_debugging() {
    let owner = parse_to_shortcuts("|super a ; b| x\n|super d| z").unwrap();
    let ks = keyspaces::process(&owner);
    assert_eq!(
        chordscript::deserialise::KeyspaceDebug(&ks).to_string_custom(),
        "state 2 \"\" {\n  set state super a\n  super d -> \" z\"\n}\n\nstate 1 \"super a\" {\n  b -> \" x\\n\"\n}\n\n"
    );
}

#[test]
fn keyspaces_for_debugging_escape_control_characters() {
    let owner = parse_to_shortcuts("|super e| tput \u{1b}[0m\t'ok'").unwrap();
    let ks = keyspaces::process(&owner);
    assert_eq!(
        chordscript::deserialise::KeyspaceDebug(&ks).to_string_custom(),
        "state 1 \"\" {\n  super e -> \" tput \\u{1b}[0m\\t'ok'\"\n}\n\n"
    );
}

#[test]
fn lexer_errors_point_after_the_first_bar() {
    let err = lexer::process("|super,a|x").unwrap_err();
    assert_eq!(err.message, HEAD_COMMA_OUTSIDE_BRACKETS);
    assert_eq!(err.source, "super,a|x");
    assert_eq!(err.range, (5, 6));

    let err = lexer::process("# comment\n|super foo|x").unwrap_err();
    assert_eq!(err.message, head_invalid_key_message());
    assert_eq!(err.source, "super foo|x");
    assert_eq!(err.range, (6, 9));
}

#[test]
fn chord_sources_follow_the_order_of_writing() {
    let ctx = "super a";
    let mut c = Chord::new(ctx);
    let sup = WithSpan { data: HeadLexeme::Mod(3), context: ctx, start: 0, end: 5 };
    let a = WithSpan { data: HeadLexeme::Key(12), context: ctx, start: 6, end: 7 };
    assert!(c.add(&sup, 0).is_ok());
    assert_eq!(c.modifiers, 0b1000);
    assert_eq!(c.sources[1], "super");
    assert!(c.add(&a, 1).is_ok());
    assert_eq!(c.key, 12);
    assert_eq!(c.sources, ["a", "super", "", "", ""]);
}

#[test]
fn chord_with_a_key_and_four_modifiers_keeps_every_text() {
    let ctx = "a alt ctrl shift super";
    let mut c = Chord::new(ctx);
    let words = [
        WithSpan { data: HeadLexeme::Key(12), context: ctx, start: 0, end: 1 },
        WithSpan { data: HeadLexeme::Mod(0), context: ctx, start: 2, end: 5 },
        WithSpan { data: HeadLexeme::Mod(1), context: ctx, start: 6, end: 10 },
        WithSpan { data: HeadLexeme::Mod(2), context: ctx, start: 11, end: 16 },
        WithSpan { data: HeadLexeme::Mod(3), context: ctx, start: 17, end: 22 },
    ];
    for (i, w) in words.iter().enumerate() {
        assert!(c.add(w, i).is_ok());
    }
    assert_eq!(c.sources, ["a", "super", "alt", "ctrl", "shift"]);
}

#[test]
fn error_drawn_with_given_widths() {
    let err = MarkupError::from_range("ab\ncd", (1, 4), "msg".to_string());
    assert!(err.is_renderable());
    assert_eq!(err.render_with_widths(1, 2, 1), "  |\n  |  vv\n1 | ab\n2 | cd\n  | ^\n  |\n  = msg");
    assert_eq!(err.render_with_widths(0, 3, 2), "  |\n  | vvv\n1 | ab\n2 | cd\n  | ^^\n  |\n  = msg");
    let wide = MarkupError::from_range("你好x", (1, 2), "w".to_string());
    assert_eq!(wide.to_string(), "  |\n1 | 你好x\n  |   ^^\n  |\n  = w");
}

#[test]
fn debug_keyspace_from_given_parts() {
    let lines = vec!["set state super a".to_string(), "b -> \"x\"".to_string()];
    assert_eq!(
        debug_keyspace_text(2, "\"super\"", &lines),
        "state 2 \"super\" {\n  set state super a\n  b -> \"x\"\n}\n\n"
    );
    assert_eq!(debug_keyspace_text(0, "\"\"", &Vec::new()), "state 0 \"\" {\n  \n}\n\n");
    let ctx = "super b";
    let mut c = Chord::new(ctx);
    assert!(c.add(&WithSpan { data: HeadLexeme::Key(13), context: ctx, start: 6, end: 7 }, 0).is_ok());
    assert!(c.add(&WithSpan { data: HeadLexeme::Mod(3), context: ctx, start: 0, end: 5 }, 1).is_ok());
    assert_eq!(debug_command_line(&c, "\"run\""), "super b -> \"run\"");
}

#[test]
fn chord_refuses_a_lexeme_that_names_no_key() {
    let ctx = "super a";
    let mut c = Chord::new(ctx);
    let err = c.add(&WithSpan { data: HeadLexeme::Key(999), context: ctx, start: 6, end: 7 }, 0).unwrap_err();
    assert_eq!(err.message, chordscript::errors::invalid_key_message());
    assert_eq!(err.range, (6, 7));
    let err = c.add(&WithSpan { data: HeadLexeme::ChordDelim, context: ctx, start: 0, end: 5 }, 0).unwrap_err();
    assert_eq!(err.range, (0, 5));
    assert_eq!(c.key, chordscript::constants::KEYCODES.len());
    assert_eq!(c.modifiers, 0);
}

#[test]
fn parsed_storage_holds_only_the_shortcuts() {
    let file = "|super {{a, b}} ; c| echo {{1, 2}} x\n|alt d| run";
    let lexemes = lexer::process(file).unwrap();
    let owner = parser::parse_main(file, &lexemes).unwrap();
    let list = owner.to_iter();
    let chords: usize = list.iter().map(|s| s.hotkey.len()).sum();
    let sections: usize = list.iter().map(|s| s.command.len()).sum();
    assert_eq!(owner.chords.len(), chords);
    assert_eq!(owner.scripts.len(), sections);
    let mut head = 0;
    let mut body = 0;
    for p in owner.shortcuts.iter() {
        assert_eq!((p.head_start, p.body_start), (head, body));
        head = p.head_end;
        body = p.body_end;
    }
    assert_eq!((head, body), (owner.chords.len(), owner.scripts.len()));
    let sorted = parser::parse(file, &lexemes).unwrap();
    assert_eq!(sorted.chords, owner.chords);
    assert_eq!(sorted.scripts.len(), owner.scripts.len());
}
