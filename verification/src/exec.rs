//! Minimal process-execution abstraction, so that the firewall and conntrack
//! logic does not depend on real processes.

use vstd::prelude::*;

verus! {

/// What a finished process left behind.
#[derive(Debug, Clone, PartialEq, Eq)]
pub struct Output {
    pub status: i32,
    pub stdout: String,
    pub stderr: String,
}

/// The contents of an [`Output`].
pub struct OutputView {
    pub status: int,
    pub stdout: Seq<char>,
    pub stderr: Seq<char>,
}

impl View for Output {
    type V = OutputView;

    open spec fn view(&self) -> OutputView {
        OutputView { status: self.status as int, stdout: self.stdout@, stderr: self.stderr@ }
    }
}

/// A command: the program, its arguments and what it is fed on stdin.
pub struct CallView {
    pub program: Seq<char>,
    pub args: Seq<Seq<char>>,
    pub stdin: Option<Seq<char>>,
}

/// What came back: the process's output, or why it could not be run.
pub type Reply = Result<OutputView, Seq<char>>;

/// A command and what came back.
pub struct Exchange {
    pub call: CallView,
    pub reply: Reply,
}

/// Commands with what came back, oldest first.
pub type Log = Seq<Exchange>;

/// The contents of what [`Exec::run`] returns.
pub open spec fn reply_of(r: Result<Output, String>) -> Reply {
    match r {
        Ok(out) => Ok(out@),
        Err(e) => Err(e@),
    }
}

/// The texts of an argument list.
pub open spec fn arg_texts(args: Seq<&str>) -> Seq<Seq<char>> {
    args.map_values(|a: &str| a@)
}

/// The command that a call of [`Exec::run`] asks for.
pub open spec fn call_of(program: &str, args: &[&str], stdin: Option<&str>) -> CallView {
    CallView {
        program: program@,
        args: arg_texts(args@),
        stdin: match stdin {
            Some(s) => Some(s@),
            None => None,
        },
    }
}

/// The commands of a list of exchanges.
pub open spec fn calls_in(t: Seq<Exchange>) -> Seq<CallView> {
    t.map_values(|e: Exchange| e.call)
}

/// The replies of a list of exchanges.
pub open spec fn replies_in(t: Seq<Exchange>) -> Seq<Reply> {
    t.map_values(|e: Exchange| e.reply)
}

/// What `after` holds beyond `before`.
pub open spec fn since(before: Seq<Exchange>, after: Seq<Exchange>) -> Seq<Exchange> {
    after.skip(before.len() as int)
}

impl Output {
    /// True when the process exited with status 0.
    pub fn success(&self) -> (r: bool)
        ensures
            r == (self.status == 0),
    {
        self.status == 0
    }
}

impl Default for Output {
    fn default() -> (r: Output)
        ensures
            r.status == 0,
            r.stdout@ == Seq::<char>::empty(),
            r.stderr@ == Seq::<char>::empty(),
    {
        Output { status: 0, stdout: String::new(), stderr: String::new() }
    }
}

/// Something that runs commands.
pub trait Exec {
    /// Every command run so far with what came back, oldest first. Exists for
    /// specifications only and is never called.
    spec fn log(&self) -> Log;

    /// Run `program` with `args`, optionally feeding `stdin`, and capture
    /// output. An error carries why the program could not be run.
    fn run(&mut self, program: &str, args: &[&str], stdin: Option<&str>) -> (r: Result<
        Output,
        String,
    >)
        ensures
            final(self).log() == old(self).log().push(
                (Exchange { call: call_of(program, args, stdin), reply: reply_of(r) }),
            ),
    ;
}

} // verus!
