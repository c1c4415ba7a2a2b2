//! How the decision on a commit leaves the process: as the answer of the
//! coding agent's hook, or as the exit code and notes of a manual launch.

use vstd::prelude::*;

use crate::chars::{append_text, chars_of, has_prefix, is_text, starts_with, string_of, trim, trimmed, texts};
use crate::scope::Scope;

verus! {

/// Exit code of a manual launch when the commit is denied.
pub const EXIT_DENIED: i32 = 10;

/// Exit code of a decision that lets the commit through, and of every hook
/// answer.
pub const EXIT_OK: i32 = 0;

/// The deny reason when the window closes without a decision: a gate that
/// accepts by accident is worthless.
pub const CLOSED_UNDECIDED: &'static str = "Review window closed without a decision: commit denied.";

/// The start of the deny reason when the window cannot be shown.
pub const FAILED_TO_OPEN: &'static str = "Review window failed to open, commit denied: ";

/// The start of the deny reason when the review itself fails.
pub const CRASHED: &'static str = "commit-review crashed: ";

/// How a decision leaves the process.
#[derive(Debug, PartialEq, Eq, Structural, Clone, Copy)]
pub enum Output {
    /// The coding agent's hook protocol: a JSON answer on stdout, exit 0 either way.
    Hook,
    /// Manual launch: the notes on stdout, exit 10 on deny.
    Plain,
}

/// What a decision writes on stdout.
pub enum Reply {
    /// Nothing: a hook that lets the commit through without notes.
    Silent,
    /// The notes as they are, on a line of their own.
    Text(String),
    /// The hook's answer that allows the commit, the notes as context.
    Allow { context: String },
    /// The hook's answer that denies the commit, the notes as the reason.
    Deny { reason: String },
}

/// What a decision writes, its texts as characters.
pub enum ReplyView {
    Silent,
    Text(Seq<char>),
    Allow { context: Seq<char> },
    Deny { reason: Seq<char> },
}

impl View for Reply {
    type V = ReplyView;

    open spec fn view(&self) -> ReplyView {
        match self {
            Reply::Silent => ReplyView::Silent,
            Reply::Text(text) => ReplyView::Text(text@),
            Reply::Allow { context } => ReplyView::Allow { context: context@ },
            Reply::Deny { reason } => ReplyView::Deny { reason: reason@ },
        }
    }
}

/// What a decision writes, given how it leaves and the notes it carries.
pub open spec fn reply_spec(output: Output, accept: bool, text: Seq<char>) -> ReplyView {
    match output {
        Output::Plain => ReplyView::Text(text),
        Output::Hook => if accept && text.len() == 0 {
            ReplyView::Silent
        } else if accept {
            ReplyView::Allow { context: text }
        } else {
            ReplyView::Deny { reason: text }
        },
    }
}

/// The exit code of a decision.
pub open spec fn exit_code_spec(output: Output, accept: bool) -> i32 {
    if output == Output::Plain && !accept {
        EXIT_DENIED
    } else {
        EXIT_OK
    }
}

/// What a decision writes on stdout. The text reaches the agent either
/// way: as the deny reason, or as extra context on an accepted commit.
fn reply(output: Output, accept: bool, text: &str) -> (r: Reply)
    ensures
        r@ == reply_spec(output, accept, text@),
{
    match output {
        Output::Plain => Reply::Text(text.to_owned()),
        Output::Hook => {
            if accept && text.unicode_len() == 0 {
                Reply::Silent
            } else if accept {
                Reply::Allow { context: text.to_owned() }
            } else {
                Reply::Deny { reason: text.to_owned() }
            }
        },
    }
}

/// The exit code of a decision: a manual launch reports a deny, a hook
/// always exits cleanly and answers on stdout.
fn exit_code(output: Output, accept: bool) -> (code: i32)
    ensures
        code == exit_code_spec(output, accept),
{
    match (output, accept) {
        (Output::Plain, false) => EXIT_DENIED,
        _ => EXIT_OK,
    }
}

/// How a decision leaves the process: what it writes, and its exit code.
pub struct Exit {
    pub reply: Reply,
    pub code: i32,
}

/// How the process leaves with the decision `accept` and the notes `text`.
pub fn finish(output: Output, accept: bool, text: &str) -> (exit: Exit)
    ensures
        exit.reply@ == reply_spec(output, accept, text@),
        exit.code == exit_code_spec(output, accept),
{
    Exit { reply: reply(output, accept, text), code: exit_code(output, accept) }
}

/// How the process leaves when it denies the commit for `reason`.
pub fn deny(output: Output, reason: &str) -> (exit: Exit)
    ensures
        exit.reply@ == reply_spec(output, false, reason@),
        exit.code == exit_code_spec(output, false),
{
    finish(output, false, reason)
}

/// What the notes of a decision become: without the white space
/// around them.
pub fn notes(text: &str) -> (r: String)
    ensures
        r@ == trim(text@),
{
    let v = trimmed(text);
    string_of(v.as_slice(), 0, v.len())
}

/// The deny reason when the window cannot be shown, with the error.
pub fn failed_to_open(error: &str) -> (reason: String)
    ensures
        reason@ == FAILED_TO_OPEN@ + error@,
{
    let mut reason = FAILED_TO_OPEN.to_owned();
    append_text(&mut reason, error);
    reason
}

/// The deny reason when the review fails, with what failed.
pub fn crashed(what: &str) -> (reason: String)
    ensures
        reason@ == CRASHED@ + what@,
{
    let mut reason = CRASHED.to_owned();
    append_text(&mut reason, what);
    reason
}

/// The value of `--<name> <value>` or `--<name>=<value>`, the first that
/// stands among `args` from position `i` on.
pub open spec fn flag_from(args: Seq<Seq<char>>, flag: Seq<char>, i: int) -> Option<Seq<char>>
    decreases args.len() - i,
{
    if i < 0 || i >= args.len() {
        None
    } else if args[i] == flag {
        if i + 1 < args.len() {
            Some(args[i + 1])
        } else {
            None
        }
    } else if starts_with(args[i], flag.push('=')) {
        Some(args[i].skip(flag.len() + 1int))
    } else {
        flag_from(args, flag, i + 1)
    }
}

/// The flag `--<name>`.
pub open spec fn flag_of(name: Seq<char>) -> Seq<char> {
    seq!['-', '-'] + name
}

/// The value of `--<name> <value>` or `--<name>=<value>` among the
/// arguments after the program's name; a flag with nothing after it has no
/// value.
pub fn flag_value(args: &[String], name: &str) -> (value: Option<String>)
    ensures
        value matches Some(v) ==> flag_from(texts(args@), flag_of(name@), 0) == Some(v@),
        value is None ==> flag_from(texts(args@), flag_of(name@), 0) is None,
{
    let mut flag = String::new();
    flag.push('-');
    flag.push('-');
    append_text(&mut flag, name);
    let mut with_value = flag.clone();
    with_value.push('=');
    let ghost f = flag_of(name@);
    assert(flag@ =~= f);
    let ghost all = texts(args@);
    let mut i: usize = 0;
    while i < args.len()
        invariant
            i <= args@.len(),
            all == texts(args@),
            f == flag_of(name@),
            flag@ == f,
            with_value@ == f.push('='),
            flag_from(all, f, 0) == flag_from(all, f, i as int),
        decreases args@.len() - i,
    {
        let a = chars_of(args[i].as_str());
        assert(a@ == all[i as int]);
        if is_text(a.as_slice(), flag.as_str()) {
            assert(all[i as int] == f);
            if i + 1 < args.len() {
                let v = args[i + 1].clone();
                assert(v@ == all[i + 1]);
                assert(flag_from(all, f, i as int) == Some(all[i + 1]));
                return Some(v);
            }
            assert(flag_from(all, f, i as int) is None);
            return None;
        }
        if has_prefix(a.as_slice(), with_value.as_str()) {
            let v = string_of(a.as_slice(), with_value.unicode_len(), a.len());
            assert(v@ =~= all[i as int].skip(f.len() + 1int));
            return Some(v);
        }
        i += 1;
    }
    None
}

/// The changes the window shows: those the command commits, or the whole
/// working tree for a manual launch, which has no command.
pub fn scope_of(command_scope: Option<Scope>) -> (scope: Scope)
    ensures
        scope == (match command_scope {
            Some(s) => s,
            None => Scope::Worktree,
        }),
{
    match command_scope {
        Some(s) => s,
        None => Scope::Worktree,
    }
}

} // verus!
