//! Running a command-line tool, as decisions: the command to start, and once
//! it has run, what to print and what to exit with. The caller does the
//! running, printing and exiting.

use vstd::prelude::*;
use crate::text::{trim, join, trim_chars, push_str, chars_to_string};

verus! {

/// A command to start.
pub struct Invocation {
    /// The program, found on the `PATH`.
    pub program: String,
    /// Its arguments: the subcommand, then the user's arguments.
    pub args: Vec<String>,
    /// The line to write to standard error before starting it, if any.
    pub announce: Option<String>,
}

/// What to do once the command has run.
pub struct Response {
    /// Text for standard output.
    pub stdout: String,
    /// Text for standard error.
    pub stderr: String,
    /// The code to exit the process with; `None` to return normally.
    pub exit_code: Option<i32>,
}

/// `err` trimmed, on a line of its own: what `eprintln!("{}", err.trim())` writes.
pub open spec fn error_line(err: Seq<char>) -> Seq<char> {
    trim(err) + "\n"@
}

/// The exit code after a run: none on success, else the command's own code,
/// or 1 when it has none (it was killed by a signal).
pub open spec fn exit_code_of(success: bool, code: Option<i32>) -> Option<i32> {
    if success {
        None
    } else {
        match code {
            Some(c) => Some(c),
            None => Some(1),
        }
    }
}

/// `Running: <program> <subcommand> <args joined by spaces>`.
pub open spec fn announcement(program: Seq<char>, sub: Seq<char>, args: Seq<Seq<char>>) -> Seq<
    char,
> {
    "Running: "@ + program + " "@ + sub + " "@ + join(args, " "@)
}

/// The invocation of `program subcommand args...`, announced when `verbose > 0`.
pub fn invocation(program: &str, subcommand: &str, args: &[String], verbose: u8) -> (r: Invocation)
    ensures
        r.program@ == program@,
        r.args.deep_view() == seq![subcommand@] + args.deep_view(),
        r.announce.deep_view() == (if verbose > 0 {
            Some(announcement(program@, subcommand@, args.deep_view()))
        } else {
            None
        }),
{
    let mut argv: Vec<String> = Vec::new();
    argv.push(subcommand.to_owned());
    let mut line: Vec<char> = Vec::new();
    push_str(&mut line, "Running: ");
    push_str(&mut line, program);
    push_str(&mut line, " ");
    push_str(&mut line, subcommand);
    push_str(&mut line, " ");
    let ghost prefix = line@;
    let ghost all = args.deep_view();
    let mut i: usize = 0;
    assert(all.take(0) =~= Seq::<Seq<char>>::empty());
    assert(argv.deep_view() =~= seq![subcommand@]);
    assert(line@ =~= prefix + join(all.take(0), " "@));
    while i < args.len()
        invariant
            i <= args.len(),
            all == args.deep_view(),
            argv.deep_view() == seq![subcommand@] + all.take(i as int),
            line@ == prefix + join(all.take(i as int), " "@),
        decreases args.len() - i,
    {
        assert(all.take(i + 1).drop_last() =~= all.take(i as int));
        assert(all[i as int] == args@[i as int]@);
        let ghost a0 = argv.deep_view();
        let a = args[i].clone();
        argv.push(a);
        assert(argv.deep_view() =~= a0.push(args@[i as int]@));
        if i > 0 {
            push_str(&mut line, " ");
        }
        push_str(&mut line, args[i].as_str());
        i = i + 1;
        assert(line@ =~= prefix + join(all.take(i as int), " "@));
    }
    assert(all.take(args.len() as int) =~= all);
    let announce = if verbose > 0 {
        Some(chars_to_string(line.as_slice()))
    } else {
        None
    };
    Invocation { program: program.to_owned(), args: argv, announce }
}

/// `err` trimmed, on a line of its own.
pub fn error_line_chars(err: &[char]) -> (r: Vec<char>)
    ensures
        r@ == error_line(err@),
{
    let mut r = trim_chars(err);
    push_str(&mut r, "\n");
    r
}

/// The exit code after a run.
pub fn exit_code(success: bool, code: Option<i32>) -> (r: Option<i32>)
    ensures
        r == exit_code_of(success, code),
{
    if success {
        None
    } else {
        match code {
            Some(c) => Some(c),
            None => Some(1),
        }
    }
}

/// A response with the given texts.
pub fn response(stdout: &[char], stderr: &[char], exit_code: Option<i32>) -> (r: Response)
    ensures
        r.stdout@ == stdout@,
        r.stderr@ == stderr@,
        r.exit_code == exit_code,
{
    Response { stdout: chars_to_string(stdout), stderr: chars_to_string(stderr), exit_code }
}

/// A filtered summary on a line of its own, or the raw text when there is none.
pub open spec fn shown(summary: Option<Seq<char>>, raw: Seq<char>) -> Seq<char> {
    match summary {
        Some(s) => s + "\n"@,
        None => raw,
    }
}

/// Appends the summary, or the raw text when there is none.
pub fn push_shown(buf: &mut Vec<char>, summary: Option<String>, raw: &str)
    ensures
        final(buf)@ == old(buf)@ + shown(summary.deep_view(), raw@),
{
    match summary {
        Some(s) => {
            push_str(buf, s.as_str());
            push_str(buf, "\n");
        },
        None => push_str(buf, raw),
    }
}

} // verus!
