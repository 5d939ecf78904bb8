//! Output formats: the templates a file of shortcuts can be written in, and
//! where their text goes.

use vstd::prelude::*;

pub mod debug_shortcuts;
pub mod i3_shell;
pub mod shellscript;

use crate::deserialise::{owner_printable, I3Shell, ListDebug, Print, Shellscript};
use crate::keyspaces::{commands_only, max_depth, owner_views, process, shortcut_views, KeyspaceOwner, ShortcutView};
use crate::parser::{permutes, is_bijection, ShortcutOwner};
use crate::text::{push_str, str_eq};

verus! {

/// Where text is written, piece by piece.
pub trait Consumer {
    /// Everything written so far.
    spec fn consumed(&self) -> Seq<char>;

    /// Writes `part` after what was written.
    fn consume(&mut self, part: &str)
        ensures
            final(self).consumed() == old(self).consumed() + part@;
}

impl Consumer for String {
    open spec fn consumed(&self) -> Seq<char> {
        self@
    }

    fn consume(&mut self, part: &str) {
        push_str(self, part);
    }
}

/// The text a template writes for `extra`, and when it can write it.
pub trait PreallocLen<T> {
    /// The template can be written for `extra`.
    spec fn ready(&self, extra: T) -> bool;

    /// `text` is what the template writes for `extra`.
    spec fn writes(&self, extra: T, text: Seq<char>) -> bool;

    /// The length of what the template writes, in characters.
    fn len(&self, extra: T) -> (n: usize)
        requires
            self.ready(extra),
        ensures
            exists|text: Seq<char>| self.writes(extra, text) && n == text.len();
}

/// Writing a template into a consumer.
pub trait PreallocPush<T, U: Consumer>: PreallocLen<T> {
    /// Writes what the template writes for `extra` into `pipe`.
    fn pipe(&self, extra: T, pipe: &mut U)
        requires
            self.ready(extra),
        ensures
            exists|text: Seq<char>| self.writes(extra, text) && final(pipe).consumed() == old(pipe).consumed() + text;
}

/// The kind of a template: its name, and whether it runs commands itself
/// (native) or through a shell script that it is given (shell).
pub enum F {
    N(&'static str),
    S(&'static str),
}

/// The names of the templates, by id.
pub const TEMPLATE_NAMES: [&'static str; 3] = ["shell", "i3", "debug-shortcuts"];

/// Whether the template of each id is native.
pub const TEMPLATE_NATIVE: [bool; 3] = [true, false, true];

/// The kind of the template `id`.
pub fn id_to_type(id: usize) -> (f: F)
    requires
        id < 3,
    ensures
        f == (if TEMPLATE_NATIVE@[id as int] { F::N(TEMPLATE_NAMES@[id as int]) } else { F::S(TEMPLATE_NAMES@[id as int]) }),
{
    if TEMPLATE_NATIVE[id] { F::N(TEMPLATE_NAMES[id]) } else { F::S(TEMPLATE_NAMES[id]) }
}

/// A template chosen by id, native or run through `runner`.
#[derive(Debug)]
pub enum Format<'a> {
    Native(usize),
    Shell { id: usize, runner: &'a str },
}

/// Why a name and runner choose no template.
#[derive(Debug, PartialEq, Eq, Structural)]
pub enum FormatError {
    Invalid,
    NativeUnsupported,
    ShellUnsupported,
}

/// The id of the first template named `name`.
pub open spec fn template_index(name: Seq<char>, from: int) -> Option<int>
    decreases 3 - from,
{
    if from >= 3 {
        None
    } else if TEMPLATE_NAMES@[from]@ == name {
        Some(from)
    } else {
        template_index(name, from + 1)
    }
}

impl<'a> Format<'a> {
    /// The template named `format`: native when no runner is given, through
    /// the runner otherwise. A native template asked for with a runner, or a
    /// shell template without one, is an error; so is an unknown name.
    pub fn from_str(format: &str, maybe_runner: Option<&'a str>) -> (r: Result<Self, FormatError>)
        ensures
            match template_index(format@, 0) {
                None => r == Err::<Self, FormatError>(FormatError::Invalid),
                Some(id) => if TEMPLATE_NATIVE@[id] {
                    match maybe_runner {
                        None => r matches Ok(Format::Native(i)) && i == id,
                        Some(_) => r == Err::<Self, FormatError>(FormatError::NativeUnsupported),
                    }
                } else {
                    match maybe_runner {
                        Some(runner) => r matches Ok(Format::Shell { id: i, runner: x }) && i == id && x == runner,
                        None => r == Err::<Self, FormatError>(FormatError::ShellUnsupported),
                    }
                },
            },
    {
        let mut i: usize = 0;
        while i < 3
            invariant
                i <= 3,
                template_index(format@, 0) == template_index(format@, i as int),
            decreases 3 - i,
        {
            if str_eq(TEMPLATE_NAMES[i], format) {
                let native = TEMPLATE_NATIVE[i];
                return match maybe_runner {
                    None => if native { Ok(Format::Native(i)) } else { Err(FormatError::ShellUnsupported) },
                    Some(runner) => if native { Err(FormatError::NativeUnsupported) } else { Ok(Format::Shell { id: i, runner }) },
                };
            }
            i += 1;
        }
        Err(FormatError::Invalid)
    }

    /// The id of the template.
    pub open spec fn id(&self) -> int {
        match *self {
            Format::Native(id) => id as int,
            Format::Shell { id, .. } => id as int,
        }
    }
}

/// What the template `id` writes for the shortcuts of `o`: the shell script,
/// the i3 configuration of their keyspaces, or the listing of all shortcuts.
pub open spec fn template_writes(id: int, o: ShortcutOwner, text: Seq<char>) -> bool {
    if id == 0 {
        text == Shellscript(&o).printed()
    } else if id == 1 {
        exists|ko: KeyspaceOwner| crate::keyspaces::keyspaces_of(ko, o) && text == I3Shell(&ko).printed()
    } else {
        text == ListDebug(&o).printed()
    }
}

/// What a template writes for parsed shortcuts (none starting another) is
/// determined by the template and the shortcuts: so the text that
/// `Format::pipe_string` writes does not depend on anything else, such as the
/// runner of a shell template.
pub proof fn lemma_template_text_unique(id: int, o: ShortcutOwner, t1: Seq<char>, t2: Seq<char>)
    requires
        id == 1 ==> o.wf() && crate::parser::prefix_free(o.models()) && crate::keyspaces::has_command_chord(o),
        template_writes(id, o, t1),
        template_writes(id, o, t2),
    ensures
        t1 == t2,
{
    if id == 1 {
        let ko1 = choose|ko: KeyspaceOwner| crate::keyspaces::keyspaces_of(ko, o) && t1 == I3Shell(&ko).printed();
        let ko2 = choose|ko: KeyspaceOwner| crate::keyspaces::keyspaces_of(ko, o) && t2 == I3Shell(&ko).printed();
        crate::deserialise::lemma_i3_text_unique(ko1, ko2, o);
    }
}

/// The template `id` can be written for `o`.
pub open spec fn template_ready(id: int, o: ShortcutOwner) -> bool {
    if id == 1 {
        o.wf() && crate::keyspaces::has_command_chord(o)
    } else {
        owner_printable(&o)
    }
}

/// Whether some shortcut that is not a placeholder has a chord.
pub fn has_command_chord(owner: &ShortcutOwner) -> (found: bool)
    requires
        owner.wf(),
    ensures
        found == crate::keyspaces::has_command_chord(*owner),
{
    let ghost vs = owner_views(*owner);
    let mut k: usize = 0;
    while k < owner.shortcuts.len()
        invariant
            k <= owner.shortcuts@.len(),
            owner.wf(),
            vs == owner_views(*owner),
            forall|x: int| 0 <= x < k ==> !(!(#[trigger] vs[x]).is_placeholder && vs[x].hotkey.len() > 0),
        decreases owner.shortcuts@.len() - k,
    {
        let p = owner.shortcuts[k];
        assert(owner.pointer_ok(owner.shortcuts@[k as int]));
        assert(vs[k as int].hotkey.len() == p.head_end - p.head_start);
        if !p.is_placeholder && p.head_end > p.head_start {
            assert(!vs[k as int].is_placeholder && vs[k as int].hotkey.len() > 0);
            return true;
        }
        k += 1;
    }
    false
}

impl<'a> Format<'a> {
    /// Whether the template can be written for the shortcuts (see `template_ready`).
    pub fn can_pipe(&self, shortcut_owner: &ShortcutOwner) -> (ok: bool)
        requires
            self.id() < 3,
            shortcut_owner.wf(),
            shortcut_owner.spans_ok(),
        ensures
            ok == template_ready(self.id(), *shortcut_owner),
    {
        let id = match self {
            Format::Native(id) => *id,
            Format::Shell { id, .. } => *id,
        };
        if id == 1 {
            has_command_chord(shortcut_owner)
        } else {
            crate::deserialise::commands_trimmable(shortcut_owner)
        }
    }

    /// Writes the template for the shortcuts into `output`.
    pub fn pipe_string(&self, shortcut_owner: &ShortcutOwner, output: &mut String)
        requires
            self.id() < 3,
            template_ready(self.id(), *shortcut_owner),
        ensures
            exists|text: Seq<char>| template_writes(self.id(), *shortcut_owner, text) && final(output)@ == old(output)@ + text,
    {
        let id = match self {
            Format::Native(id) => *id,
            Format::Shell { id, .. } => *id,
        };
        if id == 0 {
            PreallocPush::<&ShortcutOwner, String>::pipe(&shellscript::Wrapper(), shortcut_owner, output);
        } else if id == 1 {
            PreallocPush::<&ShortcutOwner, String>::pipe(&i3_shell::Wrapper(), shortcut_owner, output);
        } else {
            PreallocPush::<&ShortcutOwner, String>::pipe(&debug_shortcuts::Wrapper(), shortcut_owner, output);
        }
    }
}

/// The input with `"asdfasdf"` after it.
pub fn add(input: &str) -> (output: String)
    ensures
        output@ == input@ + "asdfasdf"@,
{
    let mut output = String::new();
    push_str(&mut output, input);
    push_str(&mut output, "asdfasdf");
    output
}

} // verus!
