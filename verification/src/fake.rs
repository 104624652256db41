//! A scripted stand-in for real processes.

use vstd::prelude::*;
use crate::exec::{arg_texts, call_of, reply_of, CallView, Exchange, Exec, Output};
use crate::text::{opt_text, texts};

verus! {

/// One command as it was asked for.
#[derive(Debug, Clone, PartialEq, Eq)]
pub struct Call {
    pub program: String,
    pub args: Vec<String>,
    pub stdin: Option<String>,
}

impl View for Call {
    type V = CallView;

    open spec fn view(&self) -> CallView {
        CallView {
            program: self.program@,
            args: texts(self.args@),
            stdin: opt_text(self.stdin),
        }
    }
}

/// Scripted fake: hands out one canned `Output` per call, in the order they
/// were added, and records every call. When the script is exhausted every
/// command succeeds silently.
pub struct FakeExec {
    pub calls: Vec<Call>,
    responses: Vec<Output>,
    log: Ghost<Seq<Exchange>>,
}

impl FakeExec {
    /// The replies that are still to be handed out.
    pub closed spec fn script(&self) -> Seq<Output> {
        self.responses@
    }

    /// The commands run so far.
    pub closed spec fn called(&self) -> Seq<Call> {
        self.calls@
    }

    /// A fake without a script.
    pub fn new() -> (r: FakeExec)
        ensures
            r.called().len() == 0,
            r.script().len() == 0,
            r.log().len() == 0,
    {
        FakeExec { calls: Vec::new(), responses: Vec::new(), log: Ghost(Seq::empty()) }
    }

    fn then_reply(self, out: Output) -> (r: FakeExec)
        ensures
            r.called() == self.called(),
            r.log() == self.log(),
            r.script() == self.script().push(out),
    {
        let mut responses = self.responses;
        responses.push(out);
        FakeExec { calls: self.calls, responses, log: self.log }
    }

    /// Adds a reply with the given exit status and standard output.
    pub fn respond(self, status: i32, stdout: &str) -> (r: FakeExec)
        ensures
            r.called() == self.called(),
            r.log() == self.log(),
            r.script().len() == self.script().len() + 1,
            r.script().drop_last() == self.script(),
            r.script().last().status == status,
            r.script().last().stdout@ == stdout@,
            r.script().last().stderr@ == Seq::<char>::empty(),
    {
        let r = self.then_reply(
            Output { status, stdout: stdout.to_owned(), stderr: String::new() },
        );
        assert(r.script().drop_last() =~= self.script());
        r
    }

    /// Adds a reply with the given exit status and standard error.
    pub fn respond_stderr(self, status: i32, stderr: &str) -> (r: FakeExec)
        ensures
            r.called() == self.called(),
            r.log() == self.log(),
            r.script().len() == self.script().len() + 1,
            r.script().drop_last() == self.script(),
            r.script().last().status == status,
            r.script().last().stdout@ == Seq::<char>::empty(),
            r.script().last().stderr@ == stderr@,
    {
        let r = self.then_reply(
            Output { status, stdout: String::new(), stderr: stderr.to_owned() },
        );
        assert(r.script().drop_last() =~= self.script());
        r
    }
}

impl Default for FakeExec {
    fn default() -> (r: FakeExec)
        ensures
            r.called().len() == 0,
            r.script().len() == 0,
            r.log().len() == 0,
    {
        FakeExec::new()
    }
}

impl Exec for FakeExec {
    closed spec fn log(&self) -> Seq<Exchange> {
        self.log@
    }

    fn run(&mut self, program: &str, args: &[&str], stdin: Option<&str>) -> (r: Result<
        Output,
        String,
    >)
        ensures
            final(self).called().len() == old(self).called().len() + 1,
            final(self).called().drop_last() == old(self).called(),
            final(self).called().last()@ == call_of(program, args, stdin),
            r is Ok,
            old(self).script().len() > 0 ==> r->Ok_0 == old(self).script()[0]
                && final(self).script() == old(self).script().skip(1),
            old(self).script().len() == 0 ==> r->Ok_0.status == 0 && r->Ok_0.stdout@ == Seq::<
                char,
            >::empty() && r->Ok_0.stderr@ == Seq::<char>::empty() && final(self).script()
                == old(self).script(),
    {
        let mut copied: Vec<String> = Vec::new();
        let mut i: usize = 0;
        while i < args.len()
            invariant
                i <= args@.len(),
                texts(copied@) == arg_texts(args@).take(i as int),
            decreases args@.len() - i,
        {
            let a: &str = args[i];
            assert(arg_texts(args@).take(i + 1) == arg_texts(args@).take(i as int).push(a@));
            copied.push(a.to_owned());
            assert(texts(copied@) =~= arg_texts(args@).take(i + 1));
            i += 1;
        }
        assert(arg_texts(args@).take(i as int) == arg_texts(args@));
        let fed = match stdin {
            Some(s) => Some(s.to_owned()),
            None => None,
        };
        self.calls.push(Call { program: program.to_owned(), args: copied, stdin: fed });
        assert(self.calls@.drop_last() =~= old(self).calls@);
        let out = if self.responses.len() > 0 {
            self.responses.remove(0)
        } else {
            Output::default()
        };
        assert(old(self).script().len() > 0 ==> self.responses@ =~= old(self).script().skip(1));
        let r: Result<Output, String> = Ok(out);
        self.log = Ghost(
            self.log@.push(
                (Exchange { call: call_of(program, args, stdin), reply: reply_of(r) }),
            ),
        );
        r
    }
}

} // verus!
