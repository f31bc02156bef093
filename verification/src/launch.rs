//! Launching: from what was typed, or an entry's command, to the process to start.

use vstd::prelude::*;
use vstd::slice::slice_subrange;
use vstd::string::*;

use crate::text::{
    ascii_lowercase, chars_of, find_char, first_index, is_white_space, law_trim_idempotent,
    law_trim_leaves_the_middle, law_trimmed_ends, lemma_first_index, lemma_first_index_unique,
    lemma_trim_around, lemma_trim_of_trimmed_end, lemma_trim_start, lowercase, opt_text, string_of,
    strings, trim, trim_bounds, trim_end, trim_start, trimmed,
};

verus! {

/// Why nothing was launched.
#[derive(Debug)]
pub enum LaunchError {
    /// There is no command but white space.
    EmptyCommand,
    /// The process could not be started; what the system says of it.
    SpawnError(String),
}

impl LaunchError {
    /// The error in words.
    pub open spec fn words(self) -> Seq<char> {
        match self {
            LaunchError::EmptyCommand => "empty command"@,
            LaunchError::SpawnError(e) => "failed to spawn: "@ + e@,
        }
    }

    /// The error in words.
    pub fn message(&self) -> (r: String)
        ensures
            r@ == self.words(),
    {
        match self {
            LaunchError::EmptyCommand => "empty command".to_owned(),
            LaunchError::SpawnError(e) => {
                let mut s = "failed to spawn: ".to_owned();
                s.append(e.as_str());
                s
            },
        }
    }
}

/// The stratum that a prefix names: short for Debian and Fedora, any other name as it is.
pub open spec fn stratum_named(prefix: Seq<char>) -> Seq<char> {
    if prefix == "deb"@ {
        "debian"@
    } else if prefix == "fed"@ {
        "fedora"@
    } else {
        prefix
    }
}

/// The stratum that a prefix, in small letters, names.
pub fn stratum_name(prefix: &str) -> (r: String)
    ensures
        r@ == stratum_named(prefix@),
{
    let p = prefix.to_owned();
    if p == "deb".to_owned() {
        "debian".to_owned()
    } else if p == "fed".to_owned() {
        "fedora".to_owned()
    } else {
        p
    }
}

/// A command and the stratum that stands before it, with a colon between.
///
/// Without a colon, or with nothing but white space behind the first, there is no stratum and the
/// command is all that there is.
pub open spec fn bedrock_prefix(input: Seq<char>) -> (Option<Seq<char>>, Seq<char>) {
    let t = trim(input);
    let k = first_index(t, ':');
    if k >= t.len() {
        (None, t)
    } else {
        let rest = trim(t.skip(k + 1));
        if rest.len() == 0 {
            (None, t)
        } else {
            (Some(stratum_named(lowercase(trim(t.take(k))))), rest)
        }
    }
}

/// Parts a command from the stratum that stands before it.
pub fn parse_bedrock_prefix(input: &str) -> (r: (Option<String>, &str))
    ensures
        r.1@ == bedrock_prefix(input@).1,
        match r.0 {
            Some(s) => bedrock_prefix(input@).0 == Some(s@),
            None => bedrock_prefix(input@).0 is None,
        },
{
    let chars = chars_of(input);
    let (a, b) = trim_bounds(chars.as_slice());
    let t = slice_subrange(chars.as_slice(), a, b);
    let k = find_char(t, ':');
    if k == t.len() {
        return (None, input.substring_char(a, b));
    }
    let behind = slice_subrange(t, k + 1, t.len());
    assert(behind@ =~= t@.skip(k + 1));
    let (c, d) = trim_bounds(behind);
    if c == d {
        return (None, input.substring_char(a, b));
    }
    let before = slice_subrange(t, 0, k);
    assert(before@ =~= t@.take(k as int));
    let prefix = string_of(trimmed(before));
    let stratum = stratum_name(prefix.as_str().to_lowercase().as_str());
    let from: usize = a + k + 1;
    assert(input@.subrange(from + c, from + d) =~= behind@.subrange(c as int, d as int));
    (Some(stratum), input.substring_char(from + c, from + d))
}

/// The process to start: a program and its arguments.
#[derive(Debug)]
pub struct LaunchCommand {
    pub program: String,
    pub args: Vec<String>,
}

impl View for LaunchCommand {
    type V = Seq<Seq<char>>;

    /// The program, then its arguments.
    open spec fn view(&self) -> Seq<Seq<char>> {
        seq![self.program@] + strings(self.args@)
    }
}

/// What runs `cmd` in a stratum: a shell there, whose place the command takes.
pub open spec fn in_stratum(stratum: Seq<char>, cmd: Seq<char>) -> Seq<Seq<char>> {
    seq!["strat"@, stratum, "sh"@, "-c"@, "exec "@ + cmd]
}

/// What runs `cmd` in the shell.
pub open spec fn in_shell(cmd: Seq<char>) -> Seq<Seq<char>> {
    seq!["sh"@, "-c"@, cmd]
}

/// Whether the text before a colon is a shortcut for a distribution.
pub open spec fn is_shortcut(prefix: Seq<char>) -> bool {
    let p = lowercase(trim(prefix));
    p == "arch"@ || p == "deb"@ || p == "fed"@
}

/// The stratum that a shortcut before a colon stands for, and the command behind it; `None` where
/// there is no shortcut or nothing but white space behind it.
pub open spec fn shortcut(input: Seq<char>) -> Option<(Seq<char>, Seq<char>)> {
    let t = trim(input);
    let k = first_index(t, ':');
    if k < t.len() && is_shortcut(t.take(k)) && trim(t.skip(k + 1)).len() > 0 {
        Some((stratum_named(lowercase(trim(t.take(k)))), trim(t.skip(k + 1))))
    } else {
        None
    }
}

/// What runs a command: in the stratum given, or else in the one that a shortcut before it stands
/// for, or else, as it is, in the shell. `None` where there is no command.
pub open spec fn launched(input: Seq<char>, stratum: Option<Seq<char>>) -> Option<Seq<Seq<char>>> {
    let t = trim(input);
    if t.len() == 0 {
        None
    } else {
        match stratum {
            Some(s) => Some(in_stratum(s, t)),
            None => match shortcut(input) {
                Some((s, cmd)) => Some(in_stratum(s, cmd)),
                None => Some(in_shell(t)),
            },
        }
    }
}

fn begins_with_shortcut(input: &str) -> (b: bool)
    ensures
        b == ({
            let t = trim(input@);
            let k = first_index(t, ':');
            k < t.len() && is_shortcut(t.take(k))
        }),
{
    let chars = chars_of(input);
    let t = trimmed(chars.as_slice());
    let k = find_char(t, ':');
    if k == t.len() {
        return false;
    }
    let before = slice_subrange(t, 0, k);
    assert(before@ =~= t@.take(k as int));
    let prefix = string_of(trimmed(before)).as_str().to_lowercase();
    prefix == "arch".to_owned() || prefix == "deb".to_owned() || prefix == "fed".to_owned()
}

fn parse_shortcut(input: &str) -> (r: Option<(String, &str)>)
    ensures
        match r {
            Some((s, cmd)) => shortcut(input@) == Some((s@, cmd@)),
            None => shortcut(input@) is None,
        },
{
    if !begins_with_shortcut(input) {
        return None;
    }
    match parse_bedrock_prefix(input) {
        (Some(s), cmd) => Some((s, cmd)),
        (None, _) => None,
    }
}

fn stratum_command(stratum: &str, cmd: &str) -> (r: LaunchCommand)
    ensures
        r@ == in_stratum(stratum@, cmd@),
{
    let mut wrapper = "exec ".to_owned();
    wrapper.append(cmd);
    let mut args: Vec<String> = Vec::new();
    args.push(stratum.to_owned());
    args.push("sh".to_owned());
    args.push("-c".to_owned());
    args.push(wrapper);
    let r = LaunchCommand { program: "strat".to_owned(), args };
    assert(r@ =~= in_stratum(stratum@, cmd@));
    r
}

fn shell_command(cmd: &str) -> (r: LaunchCommand)
    ensures
        r@ == in_shell(cmd@),
{
    let mut args: Vec<String> = Vec::new();
    args.push("-c".to_owned());
    args.push(cmd.to_owned());
    let r = LaunchCommand { program: "sh".to_owned(), args };
    assert(r@ =~= in_shell(cmd@));
    r
}

/// The process that runs a command in the background.
pub fn launch_background(input: &str, stratum: Option<&str>) -> (r: Result<
    LaunchCommand,
    LaunchError,
>)
    ensures
        match r {
            Ok(c) => launched(input@, opt_text(stratum)) == Some(c@),
            Err(e) => e is EmptyCommand && trim(input@).len() == 0,
        },
{
    let chars = chars_of(input);
    let (a, b) = trim_bounds(chars.as_slice());
    if a == b {
        return Err(LaunchError::EmptyCommand);
    }
    let t = input.substring_char(a, b);
    assert(t@.len() > 0);
    match stratum {
        Some(s) => Ok(stratum_command(s, t)),
        None => match parse_shortcut(input) {
            Some((s, cmd)) => Ok(stratum_command(s.as_str(), cmd)),
            None => Ok(shell_command(t)),
        },
    }
}

/// What a launch comes to once the system has been asked to start the process.
pub fn launch_outcome(spawned: Result<(), String>) -> (r: Result<(), LaunchError>)
    ensures
        match spawned {
            Ok(()) => r is Ok,
            Err(e) => r == Err::<(), _>(LaunchError::SpawnError(e)),
        },
{
    match spawned {
        Ok(()) => Ok(()),
        Err(e) => Err(LaunchError::SpawnError(e)),
    }
}

/// The command that is left of one that is not blank is not blank either.
pub proof fn law_parsed_command_not_blank(input: Seq<char>)
    requires
        trim(input).len() > 0,
    ensures
        bedrock_prefix(trim(input)).1.len() > 0,
{
    law_trim_idempotent(input);
}

/// There is a process to start for every command that is not blank, and for no other.
pub proof fn law_launched_unless_blank(input: Seq<char>, stratum: Option<Seq<char>>)
    ensures
        launched(input, stratum) is Some <==> trim(input).len() > 0,
{
}

/// A command without a shortcut runs in the shell as it is.
pub proof fn law_raw_command_runs_in_shell(input: Seq<char>)
    requires
        trim(input).len() > 0,
        shortcut(input) is None,
    ensures
        launched(input, None) == Some(in_shell(trim(input))),
{
}

/// A shortcut and its command are what the text parts into at its first colon.
pub proof fn law_shortcut_is_prefix(input: Seq<char>)
    ensures
        shortcut(input) matches Some((s, cmd)) ==> bedrock_prefix(input) == (Some(s), cmd),
{
}

/// A command without a colon names no stratum, by a shortcut or otherwise.
pub proof fn law_no_colon_no_stratum(input: Seq<char>)
    requires
        !input.contains(':'),
    ensures
        bedrock_prefix(input) == (None::<Seq<char>>, trim(input)),
        shortcut(input) is None,
{
    let t = trim(input);
    lemma_first_index(t, ':');
    if first_index(t, ':') < t.len() {
        lemma_trimmed_part(input, first_index(t, ':'));
    }
}

/// What is left after trimming stood there before.
proof fn lemma_trimmed_part(s: Seq<char>, i: int)
    requires
        0 <= i < trim(s).len(),
    ensures
        s.contains(trim(s)[i]),
{
    lemma_trim_start(s);
    crate::text::lemma_trim_end(trim_start(s));
    let k = s.len() - trim_start(s).len();
    assert(trim(s)[i] == s[k + i]);
}

/// Where the first colon stands, what is before it and what is behind it.
proof fn lemma_parts(prefix: Seq<char>, cmd: Seq<char>)
    requires
        !prefix.contains(':'),
    ensures
        ({
            let t = trim(prefix + seq![':'] + cmd);
            let k = first_index(t, ':');
            &&& 0 <= k < t.len()
            &&& trim(t.take(k)) == trim(prefix)
            &&& trim(t.skip(k + 1)) == trim(cmd)
        }),
{
    let input = prefix + seq![':'] + cmd;
    let a = trim_start(prefix);
    let b = trim_end(cmd);
    let t = trim(input);
    lemma_trim_around(prefix, ':', cmd);
    assert(t == a + seq![':'] + b);
    lemma_trim_start(prefix);
    assert forall|i: int| 0 <= i < a.len() implies t[i] != ':' by {
        assert(t[i] == prefix[prefix.len() - a.len() + i]);
    }
    assert(t[a.len() as int] == ':');
    lemma_first_index_unique(t, ':', a.len() as int);
    assert(t.take(a.len() as int) =~= a);
    assert(t.skip(a.len() as int + 1) =~= b);
    lemma_trim_of_trimmed_end(prefix);
    lemma_trim_of_trimmed_end(cmd);
}

/// A command behind a shortcut and a colon runs in the stratum that the shortcut stands for.
pub proof fn law_shortcut_launches_in_stratum(prefix: Seq<char>, cmd: Seq<char>)
    requires
        !prefix.contains(':'),
        is_shortcut(prefix),
        trim(cmd).len() > 0,
    ensures
        launched(prefix + seq![':'] + cmd, None) == Some(
            in_stratum(stratum_named(lowercase(trim(prefix))), trim(cmd)),
        ),
        lowercase(trim(prefix)) == "arch"@ ==> launched(prefix + seq![':'] + cmd, None) == Some(
            seq!["strat"@, "arch"@, "sh"@, "-c"@, "exec "@ + trim(cmd)],
        ),
        lowercase(trim(prefix)) == "deb"@ ==> launched(prefix + seq![':'] + cmd, None) == Some(
            seq!["strat"@, "debian"@, "sh"@, "-c"@, "exec "@ + trim(cmd)],
        ),
        lowercase(trim(prefix)) == "fed"@ ==> launched(prefix + seq![':'] + cmd, None) == Some(
            seq!["strat"@, "fedora"@, "sh"@, "-c"@, "exec "@ + trim(cmd)],
        ),
{
    lemma_parts(prefix, cmd);
    lemma_shortcuts_differ();
}

proof fn lemma_shortcuts_differ()
    ensures
        "arch"@ != "deb"@,
        "arch"@ != "fed"@,
        "fed"@ != "deb"@,
{
    reveal_strlit("arch");
    reveal_strlit("deb");
    reveal_strlit("fed");
    assert("arch"@[0] == 'a');
    assert("deb"@[0] == 'd');
    assert("fed"@[0] == 'f');
}

/// A command in which anything but a shortcut stands before the first colon, or nothing behind it,
/// runs in the shell as it is, colon and all.
pub proof fn law_other_prefix_runs_in_shell(prefix: Seq<char>, rest: Seq<char>)
    requires
        !prefix.contains(':'),
        lowercase(trim(prefix)) != "arch"@ && lowercase(trim(prefix)) != "deb"@ && lowercase(
            trim(prefix),
        ) != "fed"@ || trim(rest).len() == 0,
    ensures
        launched(prefix + seq![':'] + rest, None) == Some(
            in_shell(trim(prefix + seq![':'] + rest)),
        ),
        launched(prefix + seq![':'] + rest, None) == Some(
            seq!["sh"@, "-c"@, trim(prefix + seq![':'] + rest)],
        ),
{
    lemma_parts(prefix, rest);
}

/// The shortcuts: `arch:`, `deb:` and `fed:` before a command run it in the strata `arch`,
/// `debian` and `fedora`.
pub proof fn law_shortcuts(cmd: Seq<char>)
    requires
        trim(cmd).len() > 0,
    ensures
        launched("arch:"@ + cmd, None) == Some(in_stratum("arch"@, trim(cmd))),
        launched("deb:"@ + cmd, None) == Some(in_stratum("debian"@, trim(cmd))),
        launched("fed:"@ + cmd, None) == Some(in_stratum("fedora"@, trim(cmd))),
{
    reveal_strlit("arch");
    reveal_strlit("arch:");
    reveal_strlit("deb");
    reveal_strlit("deb:");
    reveal_strlit("debian");
    reveal_strlit("fed");
    reveal_strlit("fed:");
    reveal_strlit("fedora");
    assert("arch:"@ + cmd =~= "arch"@ + seq![':'] + cmd);
    assert("deb:"@ + cmd =~= "deb"@ + seq![':'] + cmd);
    assert("fed:"@ + cmd =~= "fed"@ + seq![':'] + cmd);
    assert(ascii_lowercase("arch"@) =~= "arch"@);
    assert(ascii_lowercase("deb"@) =~= "deb"@);
    assert(ascii_lowercase("fed"@) =~= "fed"@);
    assert("arch"@ != "deb"@ && "arch"@ != "fed"@ && "fed"@ != "deb"@) by {
        assert("arch"@[0] == 'a');
        assert("deb"@[0] == 'd');
        assert("fed"@[0] == 'f');
    }
    assert(trim("arch"@) == "arch"@);
    assert(trim("deb"@) == "deb"@);
    assert(trim("fed"@) == "fed"@);
    law_shortcut_launches_in_stratum("arch"@, cmd);
    law_shortcut_launches_in_stratum("deb"@, cmd);
    law_shortcut_launches_in_stratum("fed"@, cmd);
}

/// In a stratum that is given, the command is taken as it is, colons and all.
pub proof fn law_given_stratum_wins(input: Seq<char>, stratum: Seq<char>)
    requires
        trim(input).len() > 0,
    ensures
        launched(input, Some(stratum)) == Some(in_stratum(stratum, trim(input))),
        launched(input, Some(stratum)) == Some(
            seq!["strat"@, stratum, "sh"@, "-c"@, "exec "@ + trim(input)],
        ),
{
}

/// A command without a colon runs in the shell as it is.
pub proof fn law_plain_command_runs_in_shell(input: Seq<char>)
    requires
        !input.contains(':'),
        trim(input).len() > 0,
    ensures
        launched(input, None) == Some(seq!["sh"@, "-c"@, trim(input)]),
{
    law_no_colon_no_stratum(input);
}

/// What stands before the first colon names a stratum, in small letters and two of the names cut
/// short, and the command stands behind it; with nothing behind it, all is the command.
pub proof fn law_prefix_and_command(prefix: Seq<char>, rest: Seq<char>)
    requires
        !prefix.contains(':'),
    ensures
        trim(rest).len() == 0 ==> bedrock_prefix(prefix + seq![':'] + rest) == (
            None::<Seq<char>>,
            trim(prefix + seq![':'] + rest),
        ),
        trim(rest).len() > 0 ==> bedrock_prefix(prefix + seq![':'] + rest).1 == trim(rest),
        trim(rest).len() > 0 && lowercase(trim(prefix)) == "deb"@ ==> bedrock_prefix(
            prefix + seq![':'] + rest,
        ).0 == Some("debian"@),
        trim(rest).len() > 0 && lowercase(trim(prefix)) == "fed"@ ==> bedrock_prefix(
            prefix + seq![':'] + rest,
        ).0 == Some("fedora"@),
        trim(rest).len() > 0 && lowercase(trim(prefix)) != "deb"@ && lowercase(trim(prefix))
            != "fed"@ ==> bedrock_prefix(prefix + seq![':'] + rest).0 == Some(
            lowercase(trim(prefix)),
        ),
{
    lemma_parts(prefix, rest);
    lemma_shortcuts_differ();
}

/// The white space round a command makes no difference, whatever it runs in.
pub proof fn law_white_space_makes_no_difference(
    a: Seq<char>,
    input: Seq<char>,
    b: Seq<char>,
    stratum: Option<Seq<char>>,
)
    requires
        forall|i: int| 0 <= i < a.len() ==> is_white_space(#[trigger] a[i]),
        forall|i: int| 0 <= i < b.len() ==> is_white_space(#[trigger] b[i]),
    ensures
        launched(a + trim(input) + b, stratum) == launched(input, stratum),
        bedrock_prefix(a + trim(input) + b) == bedrock_prefix(input),
{
    law_trimmed_ends(input);
    law_trim_leaves_the_middle(a, trim(input), b);
}

/// What the errors are in words.
pub proof fn law_error_words(e: LaunchError)
    ensures
        e is EmptyCommand ==> e.words() == "empty command"@,
        e matches LaunchError::SpawnError(s) ==> e.words() == "failed to spawn: "@ + s@,
{
}

} // verus!
