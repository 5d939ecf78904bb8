# chordscript

A shortcut file lists hotkeys (chords typed one after another, such as
`super a ; b`) and the shell commands they run. Permutation groups `{{a, b}}`
let one entry stand for several shortcuts. This library reads such a file and
writes it out in other forms: a shell script that runs the command of a hotkey
given as its argument, an i3 configuration with one mode per keyspace, or a
listing.

The library is written in Verus; its functions are verified against their
contracts, except three small wrappers whose contracts are trusted: the
display width of a text (`reporter::width_cjk`, from the unicode-width
crate), `String::push` (`text::push_char`) and the `Debug` form of a string
(`deserialise::debug_str`).

- `lexer`: splits the file into head and body lexemes.
- `parser`: expands each entry into its shortcuts, sorts them by hotkey and
  refuses hotkeys that repeat or start another.
- `keyspaces`: the states of a window manager reading a hotkey chord by chord.
- `deserialise`, `templates`: the text forms and the output formats.
- `reporter`: draws an error under the rows of the file that it points at.
- `cli`: the decisions of the command line.

`app/` holds the command-line program around the library.
