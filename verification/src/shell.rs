//! Shells: their hook scripts, and how the hook is installed.
use crate::cli::{failed, said, Output, OutputView};
use crate::hook::{ActionView, HookAction};
use crate::models::Text;
use crate::text::{
    cat3, chars_of, contains_text, fold, folded, is_digit, occurs, opt_str, opt_text, same_text,
    stands_at, string_of,
};
use vstd::prelude::*;

verus! {

/// A shell that the hook supports.
#[derive(Clone, Copy, PartialEq, Eq, Structural, Debug)]
pub enum Shell {
    Bash,
    Zsh,
    Fish,
}

/// The hook script of bash.
pub const BASH_SCRIPT: &'static str = "_stint_hook() {
    local _id
    _id=$(stint _hook --cwd \"$PWD\" --pid $$ --shell bash 2>/dev/null)
    [[ -n \"$_id\" ]] && STINT_SESSION_ID=\"$_id\"
}
_stint_exit() {
    stint _hook --cwd \"$PWD\" --pid $$ --shell bash --exit${STINT_SESSION_ID:+ --session-id \"$STINT_SESSION_ID\"}
}
PROMPT_COMMAND=\"_stint_hook${PROMPT_COMMAND:+;$PROMPT_COMMAND}\"
trap '_stint_exit' EXIT
";

/// The hook script of zsh.
pub const ZSH_SCRIPT: &'static str = "_stint_hook() {
    local _id
    _id=$(stint _hook --cwd \"$PWD\" --pid $$ --shell zsh 2>/dev/null)
    [[ -n \"$_id\" ]] && STINT_SESSION_ID=\"$_id\"
}
_stint_exit() {
    stint _hook --cwd \"$PWD\" --pid $$ --shell zsh --exit${STINT_SESSION_ID:+ --session-id \"$STINT_SESSION_ID\"}
}
precmd_functions+=(_stint_hook)
zshexit_functions+=(_stint_exit)
";

/// The hook script of fish.
pub const FISH_SCRIPT: &'static str = "function _stint_hook --on-event fish_prompt
    set -l _id (stint _hook --cwd \"$PWD\" --pid %self --shell fish 2>/dev/null)
    if test -n \"$_id\"
        set -gx STINT_SESSION_ID $_id
    end
end
function _stint_exit --on-event fish_exit
    if set -q STINT_SESSION_ID
        stint _hook --cwd \"$PWD\" --pid %self --shell fish --exit --session-id \"$STINT_SESSION_ID\"
    else
        stint _hook --cwd \"$PWD\" --pid %self --shell fish --exit
    end
end
";

/// The shell with a name, without regard to case.
pub open spec fn shell_named(name: Text) -> Option<Shell> {
    let n = folded(name);
    if n == "bash"@ {
        Some(Shell::Bash)
    } else if n == "zsh"@ {
        Some(Shell::Zsh)
    } else if n == "fish"@ {
        Some(Shell::Fish)
    } else {
        None
    }
}

/// What is said of a shell that is not supported.
pub open spec fn unsupported(name: Text) -> Text {
    "unsupported shell '"@ + name + "' (use bash, zsh, or fish)"@
}

/// The shell with a name, without regard to case.
pub fn find_shell(name: &str) -> (r: Result<Shell, String>)
    ensures
        match r {
            Ok(s) => shell_named(name@) == Some(s),
            Err(e) => shell_named(name@) is None && e@ == unsupported(name@),
        },
{
    let n = string_of(&fold(name));
    if same_text(n.as_str(), "bash") {
        Ok(Shell::Bash)
    } else if same_text(n.as_str(), "zsh") {
        Ok(Shell::Zsh)
    } else if same_text(n.as_str(), "fish") {
        Ok(Shell::Fish)
    } else {
        Err(cat3("unsupported shell '", name, "' (use bash, zsh, or fish)"))
    }
}

/// The hook script of a shell.
pub open spec fn script_of(s: Shell) -> Text {
    match s {
        Shell::Bash => BASH_SCRIPT@,
        Shell::Zsh => ZSH_SCRIPT@,
        Shell::Fish => FISH_SCRIPT@,
    }
}

/// The hook script of the shell with a name, for `eval`.
pub fn cmd_shell(name: &str) -> (r: Result<&'static str, String>)
    ensures
        match r {
            Ok(t) => shell_named(name@) matches Some(s) && t@ == script_of(s),
            Err(e) => shell_named(name@) is None && e@ == unsupported(name@),
        },
{
    match find_shell(name) {
        Ok(Shell::Bash) => Ok(BASH_SCRIPT),
        Ok(Shell::Zsh) => Ok(ZSH_SCRIPT),
        Ok(Shell::Fish) => Ok(FISH_SCRIPT),
        Err(e) => Err(e),
    }
}

// ---------------------------------------------------------------------------
// Installation
// ---------------------------------------------------------------------------
/// A directory of the user.
#[derive(Clone, Copy, PartialEq, Eq, Structural, Debug)]
pub enum Place {
    /// The home directory.
    Home,
    /// The directory for settings.
    Settings,
}

/// Where a shell reads its settings, and the line that loads the hook there.
#[derive(PartialEq, Eq, Debug)]
pub struct Installation {
    /// The directory that the file lies in or below.
    pub place: Place,
    /// What stands for that directory where it is not known.
    pub fallback: &'static str,
    /// The path of the file from there.
    pub file: &'static str,
    /// The line that loads the hook.
    pub line: &'static str,
}

/// Where and how the hook of a shell is loaded.
pub open spec fn installation(s: Shell) -> Installation {
    match s {
        Shell::Bash => Installation {
            place: Place::Home,
            fallback: ".",
            file: ".bashrc",
            line: "eval \"$(stint shell bash)\"",
        },
        Shell::Zsh => Installation {
            place: Place::Home,
            fallback: ".",
            file: ".zshrc",
            line: "eval \"$(stint shell zsh)\"",
        },
        Shell::Fish => Installation {
            place: Place::Settings,
            fallback: ".config",
            file: "fish/config.fish",
            line: "stint shell fish | source",
        },
    }
}

/// Where and how the hook of the shell with a name is loaded.
pub fn plan_init(name: &str) -> (r: Result<Installation, String>)
    ensures
        match r {
            Ok(i) => shell_named(name@) matches Some(s) && i == installation(s),
            Err(e) => shell_named(name@) is None && e@ == unsupported(name@),
        },
{
    match find_shell(name) {
        Ok(Shell::Bash) => Ok(
            Installation {
                place: Place::Home,
                fallback: ".",
                file: ".bashrc",
                line: "eval \"$(stint shell bash)\"",
            },
        ),
        Ok(Shell::Zsh) => Ok(
            Installation {
                place: Place::Home,
                fallback: ".",
                file: ".zshrc",
                line: "eval \"$(stint shell zsh)\"",
            },
        ),
        Ok(Shell::Fish) => Ok(
            Installation {
                place: Place::Settings,
                fallback: ".config",
                file: "fish/config.fish",
                line: "stint shell fish | source",
            },
        ),
        Err(e) => Err(e),
    }
}

/// What is appended to the settings of a shell.
pub open spec fn appendix(line: Text) -> Text {
    "\n# Stint auto-tracking hook\n"@ + line + "\n"@
}

/// What is to be appended to the settings of a shell, where the line is not there yet; a file that
/// does not exist has no contents.
pub fn cmd_init(contents: Option<&str>, line: &str) -> (r: Option<String>)
    ensures
        match r {
            Some(t) => t@ == appendix(line@) && !(contents matches Some(c) && occurs(c@, line@)),
            None => contents matches Some(c) && occurs(c@, line@),
        },
{
    if let Some(c) = contents {
        if contains_text(c, line) {
            return None;
        }
    }
    Some(cat3("\n# Stint auto-tracking hook\n", line, "\n"))
}

/// What is said after the installation; `path` is that of the file.
pub open spec fn init_output(path: Text, installed: bool) -> OutputView {
    if installed {
        Output {
            out: seq![
                "Installed Stint hook in "@ + path,
                "Restart your shell or run: source "@ + path,
            ],
            err: Seq::empty(),
            failed: false,
        }
    } else {
        said("Stint hook already installed in "@ + path)
    }
}

/// Says whether the hook was installed or was there already.
pub fn report_init(path: &str, installed: bool) -> (r: Output)
    ensures
        r@ == init_output(path@, installed),
{
    if installed {
        let mut a = "Installed Stint hook in ".to_owned();
        a.append(path);
        let mut b = "Restart your shell or run: source ".to_owned();
        b.append(path);
        let mut o = Output::say(a);
        o.print(b);
        assert(o@.out =~= init_output(path@, installed).out);
        o
    } else {
        let mut a = "Stint hook already installed in ".to_owned();
        a.append(path);
        Output::say(a)
    }
}

/// Once installed the hook is found, so that it is not installed twice.
pub proof fn law_installed_once(contents: Text, line: Text)
    ensures
        occurs(contents + appendix(line), line),
{
    let head = "\n# Stint auto-tracking hook\n"@;
    let all = contents + appendix(line);
    let at = (contents.len() + head.len()) as int;
    assert(all.subrange(at, at + line.len()) =~= line);
    assert(stands_at(all, line, at));
}

// ---------------------------------------------------------------------------
// The hook command
// ---------------------------------------------------------------------------
/// The session identifier that a first prompt gives out, so that the shell can name its session when
/// it exits.
pub open spec fn given_out(a: ActionView) -> Option<Text> {
    match a {
        HookAction::SessionCreated { session_id } => Some(session_id),
        HookAction::SessionStarted { session_id, .. } => Some(session_id),
        _ => None,
    }
}

/// The session identifier that a prompt prints.
pub fn session_to_print(a: HookAction) -> (r: Option<String>)
    ensures
        opt_text(r) == given_out(a@),
{
    match a {
        HookAction::SessionCreated { session_id } => Some(session_id),
        HookAction::SessionStarted { session_id, .. } => Some(session_id),
        _ => None,
    }
}

/// Whether a character can stand in an identifier.
pub open spec fn id_char(c: char) -> bool {
    is_digit(c) || ('a' <= c && c <= 'z') || ('A' <= c && c <= 'Z') || c == '-'
}

/// Whether a text can be an identifier: ASCII letters, digits and hyphens, and not empty.
pub open spec fn is_id(s: Text) -> bool {
    s.len() > 0 && forall|i: int| 0 <= i < s.len() ==> id_char(#[trigger] s[i])
}

/// The session that an exiting shell names; what cannot be an identifier names none.
pub open spec fn named_session(arg: Option<Text>) -> Option<Text> {
    match arg {
        Some(s) => if is_id(s) {
            Some(s)
        } else {
            None
        },
        None => None,
    }
}

/// Reads the session that an exiting shell names.
pub fn read_session_arg(arg: Option<&str>) -> (r: Option<String>)
    ensures
        opt_text(r) == named_session(opt_str(arg)),
{
    match arg {
        Some(s) => {
            let v = chars_of(s);
            if v.len() == 0 {
                return None;
            }
            for i in 0..v.len()
                invariant
                    v@ == s@,
                    opt_str(arg) == Some(s@),
                    forall|k: int| 0 <= k < i ==> id_char(#[trigger] v@[k]),
            {
                let c = v[i];
                if !(('0' <= c && c <= '9') || ('a' <= c && c <= 'z') || ('A' <= c && c <= 'Z') || c
                    == '-') {
                    assert(!id_char(s@[i as int]));
                    return None;
                }
            }
            Some(s.to_owned())
        },
        None => None,
    }
}

/// The line that is installed for a shell loads the script of that shell: it asks for it by a name that
/// stands for the shell.
pub proof fn law_line_loads(s: Shell)
    ensures
        exists|name: Text| #[trigger]
            shell_named(name) == Some(s) && occurs(
                installation(s).line@,
                "stint shell "@ + name,
            ),
{
    reveal_strlit("bash");
    reveal_strlit("zsh");
    reveal_strlit("fish");
    reveal_strlit("stint shell ");
    reveal_strlit("eval \"$(stint shell bash)\"");
    reveal_strlit("eval \"$(stint shell zsh)\"");
    reveal_strlit("stint shell fish | source");
    let line = installation(s).line@;
    assert("bash"@[0] == 'b' && "fish"@[0] == 'f');
    match s {
        Shell::Bash => {
            assert(folded("bash"@) =~= "bash"@);
            let part = "stint shell "@ + "bash"@;
            assert(line.subrange(8, 8 + part.len() as int) =~= part);
            assert(stands_at(line, part, 8));
            assert(shell_named("bash"@) == Some(s));
        },
        Shell::Zsh => {
            assert(folded("zsh"@) =~= "zsh"@);
            let part = "stint shell "@ + "zsh"@;
            assert(line.subrange(8, 8 + part.len() as int) =~= part);
            assert(stands_at(line, part, 8));
            assert(shell_named("zsh"@) == Some(s));
        },
        Shell::Fish => {
            assert(folded("fish"@) =~= "fish"@);
            let part = "stint shell "@ + "fish"@;
            assert(line.subrange(0, part.len() as int) =~= part);
            assert(stands_at(line, part, 0));
            assert(shell_named("fish"@) == Some(s));
        },
    }
}

/// What is given out for a session at its first prompt names that session when the shell exits, if it
/// consists of ASCII letters, digits and hyphens; anything else names none.
pub proof fn law_named_session(a: ActionView, id: Text)
    ensures
        given_out(a) matches Some(x) ==> a is SessionCreated || a is SessionStarted,
        a == (HookAction::SessionCreated { session_id: id }) ==> given_out(a) == Some(id),
        a is SessionStarted && a->SessionStarted_session_id == id ==> given_out(a) == Some(id),
        named_session(Some(id)) == if id.len() > 0 && forall|i: int|
            0 <= i < id.len() ==> ('0' <= (#[trigger] id[i]) <= '9' || 'a' <= id[i] <= 'z' || 'A'
                <= id[i] <= 'Z' || id[i] == '-') {
            Some(id)
        } else {
            None
        },
{
    assert forall|i: int| 0 <= i < id.len() implies (id_char(#[trigger] id[i]) <==> ('0' <= id[i]
        <= '9' || 'a' <= id[i] <= 'z' || 'A' <= id[i] <= 'Z' || id[i] == '-')) by {}
}

} // verus!
