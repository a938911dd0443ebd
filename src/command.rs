use vstd::prelude::*;

verus! {

/// A command that a key binding can name.
#[derive(Debug, Clone, PartialEq, Eq)]
pub enum Command {
    Quit,
    FocusLeft,
    FocusRight,
    CloseWindow,
    Terminal,
    /// Runs a user-defined shell command line.
    Spawn(String),
}

/// What the event loop has to do after a command ran against the model.
#[derive(Debug, Clone, PartialEq, Eq)]
pub enum Action {
    /// End the window manager.
    Exit,
    /// Raise the frame that now has the focus.
    Raise(u32),
    /// Ask the client that owns this window to close.
    Kill(u32),
    /// Start this command line.
    Spawn(String),
    /// Nothing to do.
    Nothing,
}

/// The built-in command named `name`.
pub open spec fn builtin_command(name: Seq<char>) -> Option<Command> {
    if name == "quit"@ {
        Some(Command::Quit)
    } else if name == "focus_left"@ {
        Some(Command::FocusLeft)
    } else if name == "focus_right"@ {
        Some(Command::FocusRight)
    } else if name == "close_window"@ {
        Some(Command::CloseWindow)
    } else if name == "terminal"@ {
        Some(Command::Terminal)
    } else {
        None
    }
}

/// Index of the first user-defined command named `name`.
pub open spec fn first_custom(custom: Seq<(String, String)>, name: Seq<char>) -> Option<int>
    decreases custom.len(),
{
    if custom.len() == 0 {
        None
    } else {
        let p = first_custom(custom.drop_last(), name);
        if p is Some {
            p
        } else if custom.last().0@ == name {
            Some(custom.len() - 1)
        } else {
            None
        }
    }
}

/// The command named `name`: a built-in one, else the first user-defined
/// one of `custom` (pairs of a name and a command line) with that name.
pub open spec fn command_for(name: Seq<char>, custom: Seq<(String, String)>) -> Option<Command> {
    match builtin_command(name) {
        Some(c) => Some(c),
        None => match first_custom(custom, name) {
            Some(i) => Some(Command::Spawn(custom[i].1)),
            None => None,
        },
    }
}

/// Whether `name` reads `lit`.
pub(crate) fn is_named(name: &String, lit: &str) -> (b: bool)
    ensures
        b == (name@ == lit@),
{
    let owned = lit.to_owned();
    *name == owned
}

impl Command {
    /// Resolves the command named `name`; built-in names win over the
    /// user-defined commands `custom_commands` (name, command line).
    pub fn from_name(name: &String, custom_commands: &Vec<(String, String)>) -> (r: Option<Command>)
        ensures
            r == command_for(name@, custom_commands@),
    {
        if is_named(name, "quit") {
            return Some(Command::Quit);
        }
        if is_named(name, "focus_left") {
            return Some(Command::FocusLeft);
        }
        if is_named(name, "focus_right") {
            return Some(Command::FocusRight);
        }
        if is_named(name, "close_window") {
            return Some(Command::CloseWindow);
        }
        if is_named(name, "terminal") {
            return Some(Command::Terminal);
        }
        let ghost cs = custom_commands@;
        let mut i: usize = 0;
        while i < custom_commands.len()
            invariant
                cs == custom_commands@,
                builtin_command(name@) is None,
                i <= cs.len(),
                first_custom(cs.subrange(0, i as int), name@) is None,
            decreases cs.len() - i,
        {
            assert(cs.subrange(0, i as int + 1).drop_last() =~= cs.subrange(0, i as int));
            assert(cs.subrange(0, i as int + 1).last() == cs[i as int]);
            let entry = &custom_commands[i];
            if entry.0 == *name {
                proof {
                    lemma_first_custom_prefix(cs, name@, i as int + 1);
                }
                return Some(Command::Spawn(entry.1.clone()));
            }
            i = i + 1;
        }
        assert(cs.subrange(0, cs.len() as int) =~= cs);
        None
    }
}

proof fn lemma_first_custom_prefix(s: Seq<(String, String)>, name: Seq<char>, j: int)
    requires
        0 <= j <= s.len(),
        first_custom(s.subrange(0, j), name) is Some,
    ensures
        first_custom(s, name) == first_custom(s.subrange(0, j), name),
    decreases s.len() - j,
{
    if j < s.len() {
        assert(s.subrange(0, j + 1).drop_last() =~= s.subrange(0, j));
        lemma_first_custom_prefix(s, name, j + 1);
    } else {
        assert(s.subrange(0, j) =~= s);
    }
}

} // verus!
