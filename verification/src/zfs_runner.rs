//! Running `zfs` and `zpool`.
use vstd::prelude::*;
use vstd::string::*;
use crate::text;

verus! {

/// What a command printed and whether it succeeded.
#[derive(Debug)]
pub struct CmdOutput {
    pub stdout: String,
    pub stderr: String,
    pub success: bool,
}

impl Clone for CmdOutput {
    fn clone(&self) -> (r: Self)
        ensures
            r@ == self@,
    {
        CmdOutput {
            stdout: self.stdout.clone(),
            stderr: self.stderr.clone(),
            success: self.success,
        }
    }
}

/// A [`CmdOutput`] taken by value.
pub ghost struct OutputView {
    pub stdout: Seq<char>,
    pub stderr: Seq<char>,
    pub success: bool,
}

impl View for CmdOutput {
    type V = OutputView;

    open spec fn view(&self) -> OutputView {
        OutputView { stdout: self.stdout@, stderr: self.stderr@, success: self.success }
    }
}

/// A command that was run and what came of it: its output, or why it could not be run.
pub ghost struct Call {
    pub program: Seq<char>,
    pub args: Seq<Seq<char>>,
    pub answer: Result<OutputView, Seq<char>>,
}

/// An answer taken by value.
pub open spec fn answer_view(r: Result<CmdOutput, String>) -> Result<OutputView, Seq<char>> {
    match r {
        Ok(o) => Ok(o@),
        Err(e) => Err(e@),
    }
}

/// Runs commands, and remembers them.
pub trait Runner {
    /// the commands run so far
    spec fn log(&self) -> Seq<Call>;

    /// Runs a program; an error where it could not be run.
    fn run(&mut self, program: &str, args: &Vec<String>) -> (r: Result<CmdOutput, String>)
        ensures
            final(self).log() == old(self).log().push(
                Call { program: program@, args: text::texts(args@), answer: answer_view(r) },
            ),
    ;
}

/// Runs commands, and promises nothing of the answers.
pub trait Execute {
    /// Runs a program; an error where it could not be run.
    fn execute(&mut self, program: &str, args: &Vec<String>) -> (r: Result<CmdOutput, String>);
}

/// A runner made of anything that runs commands.
pub struct Recorded<E: Execute> {
    pub inner: E,
    /// the commands with their answers
    pub log: Ghost<Seq<Call>>,
}

impl<E: Execute> Recorded<E> {
    pub fn new(inner: E) -> (r: Self)
        ensures
            r.inner == inner,
            r.log() == Seq::<Call>::empty(),
    {
        Recorded { inner, log: Ghost(Seq::empty()) }
    }
}

impl<E: Execute> Runner for Recorded<E> {
    open spec fn log(&self) -> Seq<Call> {
        self.log@
    }

    fn run(&mut self, program: &str, args: &Vec<String>) -> (r: Result<CmdOutput, String>) {
        let r = self.inner.execute(program, args);
        self.log = Ghost(
            self.log@.push(
                Call { program: program@, args: text::texts(args@), answer: answer_view(r) },
            ),
        );
        r
    }
}

/// The arguments with which `sudo` runs a program without asking for a password.
pub fn sudo_args(program: &str, args: &Vec<String>) -> (r: Vec<String>)
    ensures
        text::texts(r@) == seq!["-n"@, program@] + text::texts(args@),
{
    let mut all: Vec<String> = Vec::new();
    all.push("-n".to_owned());
    all.push(program.to_owned());
    let mut i: usize = 0;
    while i < args.len()
        invariant
            i <= args@.len(),
            all@.len() == i + 2,
            all@[0]@ == "-n"@,
            all@[1]@ == program@,
            forall|j: int| 0 <= j < i ==> (#[trigger] all@[j + 2])@ == args@[j]@,
        decreases args@.len() - i,
    {
        all.push(args[i].clone());
        i = i + 1;
    }
    assert forall|k: int| 0 <= k < all@.len() implies #[trigger] text::texts(all@)[k] == (seq![
        "-n"@,
        program@,
    ] + text::texts(args@))[k] by {
        if k >= 2 {
            assert(all@[(k - 2) + 2]@ == args@[k - 2]@);
        }
    }
    assert(text::texts(all@) =~= seq!["-n"@, program@] + text::texts(args@));
    all
}

/// A runner that has another one run everything through `sudo`, for a daemon without
/// privileges.
pub struct SudoRunner<R: Runner> {
    pub inner: R,
    /// the commands with their answers
    pub log: Ghost<Seq<Call>>,
}

impl<R: Runner> SudoRunner<R> {
    pub fn new(inner: R) -> (r: Self)
        ensures
            r.inner == inner,
            r.log() == Seq::<Call>::empty(),
    {
        SudoRunner { inner, log: Ghost(Seq::empty()) }
    }
}

impl<R: Runner> Runner for SudoRunner<R> {
    open spec fn log(&self) -> Seq<Call> {
        self.log@
    }

    fn run(&mut self, program: &str, args: &Vec<String>) -> (r: Result<CmdOutput, String>)
        ensures
            final(self).inner.log() == old(self).inner.log().push(
                Call {
                    program: "sudo"@,
                    args: seq!["-n"@, program@] + text::texts(args@),
                    answer: answer_view(r),
                },
            ),
    {
        let all = sudo_args(program, args);
        let r = self.inner.run("sudo", &all);
        self.log = Ghost(
            self.log@.push(
                Call { program: program@, args: text::texts(args@), answer: answer_view(r) },
            ),
        );
        r
    }
}

/// A runner that answers from a list and writes down what it was asked.
pub struct FakeRunner {
    /// the answers not yet given
    pub responses: Vec<CmdOutput>,
    /// the command lines so far
    pub calls: Vec<String>,
    /// the commands with their answers
    pub log: Ghost<Seq<Call>>,
}

/// A command line.
pub open spec fn command_line(program: Seq<char>, args: Seq<Seq<char>>) -> Seq<char> {
    program + " "@ + text::joined(args, " "@)
}

impl FakeRunner {
    pub fn new(responses: Vec<CmdOutput>) -> (r: Self)
        ensures
            r.responses@ == responses@,
            r.calls@ == Seq::<String>::empty(),
            r.log() == Seq::<Call>::empty(),
    {
        FakeRunner { responses, calls: Vec::new(), log: Ghost(Seq::empty()) }
    }

    /// A successful answer.
    pub fn ok(stdout: &str) -> (r: CmdOutput)
        ensures
            r.stdout@ == stdout@,
            r.stderr@ == Seq::<char>::empty(),
            r.success,
    {
        CmdOutput { stdout: stdout.to_owned(), stderr: String::new(), success: true }
    }

    /// A failed answer.
    pub fn fail(stderr: &str) -> (r: CmdOutput)
        ensures
            r.stdout@ == Seq::<char>::empty(),
            r.stderr@ == stderr@,
            !r.success,
    {
        CmdOutput { stdout: String::new(), stderr: stderr.to_owned(), success: false }
    }
}

impl Runner for FakeRunner {
    open spec fn log(&self) -> Seq<Call> {
        self.log@
    }

    fn run(&mut self, program: &str, args: &Vec<String>) -> (r: Result<CmdOutput, String>)
        ensures
            text::texts(final(self).calls@) == text::texts(old(self).calls@).push(
                command_line(program@, text::texts(args@)),
            ),
            old(self).responses@.len() > 0 ==> answer_view(r) == Ok::<OutputView, Seq<char>>(
                old(self).responses@[0]@,
            ) && final(self).responses@ == old(self).responses@.skip(1),
            old(self).responses@.len() == 0 ==> answer_view(r) == Err::<OutputView, Seq<char>>(
                "FakeRunner: no more queued responses"@,
            ) && final(self).responses@ == old(self).responses@,
    {
        let ghost before = text::texts(self.calls@);
        let mut line = program.to_owned();
        line.append(" ");
        line.append(text::join(args, " ").as_str());
        let ghost written = line@;
        self.calls.push(line);
        assert(text::texts(self.calls@) =~= before.push(written));
        let r = if self.responses.len() > 0 {
            let first = self.responses.remove(0);
            assert(self.responses@ =~= old(self).responses@.skip(1));
            Ok(first)
        } else {
            Err("FakeRunner: no more queued responses".to_owned())
        };
        self.log = Ghost(
            self.log@.push(
                Call { program: program@, args: text::texts(args@), answer: answer_view(r) },
            ),
        );
        r
    }
}

/// `sudo` is told not to ask, and then the program with all its arguments, in order.
pub proof fn sudo_runs_the_command(program: &str, args: &Vec<String>, r: Vec<String>, i: int)
    requires
        call_ensures(sudo_args, (program, args), r),
        0 <= i < args@.len(),
    ensures
        r@.len() == args@.len() + 2,
        r@[0]@ == "-n"@,
        r@[1]@ == program@,
        r@[i + 2]@ == args@[i]@,
{
    let t = text::texts(r@);
    let w = seq!["-n"@, program@] + text::texts(args@);
    assert(t == w);
    assert(t.len() == r@.len() && w.len() == args@.len() + 2);
    assert(t[0] == w[0] && t[1] == w[1] && t[i + 2] == w[i + 2]);
    assert(w[i + 2] == text::texts(args@)[i]);
}

} // verus!
