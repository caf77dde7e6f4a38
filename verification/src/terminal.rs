//! A line-driven terminal: commands are registered under their names, and
//! each input line runs the command named by its first word.

use vstd::prelude::*;
use crate::registry::Registry;
use crate::text::{
    chars_of, ranges_text, ranges_within, split_pieces, split_ranges, string_from_range, trim,
    trim_bounds, word_ranges, words, Separator, lemma_words_trim,
};

verus! {

broadcast use vstd::string::group_string_axioms;

/// Answers `pong`.
#[derive(Debug, Clone, Copy, PartialEq, Eq, Structural)]
pub struct PingCommand;

/// Reports how many arguments it was given.
#[derive(Debug, Clone, Copy, PartialEq, Eq, Structural)]
pub struct CountCommand;

/// Counts how many times it ran.
#[derive(Debug, Clone, Copy, PartialEq, Eq, Structural)]
pub struct TimesCommand {
    pub count: u32,
}

impl TimesCommand {
    /// A counter that has not run yet.
    pub fn new() -> (r: TimesCommand)
        ensures
            r.count == 0,
    {
        TimesCommand { count: 0 }
    }
}

/// A registered command.
#[derive(Debug, Clone, Copy, PartialEq, Eq, Structural)]
pub enum Command {
    Ping(PingCommand),
    Count(CountCommand),
    Times(TimesCommand),
}

/// The name a command is registered and called under.
pub open spec fn command_name(c: Command) -> Seq<char> {
    match c {
        Command::Ping(_) => "ping"@,
        Command::Count(_) => "count"@,
        Command::Times(_) => "times"@,
    }
}

impl Command {
    /// The name this command is registered and called under.
    pub fn get_name(&self) -> (r: &'static str)
        ensures
            r@ == command_name(*self),
    {
        match self {
            Command::Ping(_) => "ping",
            Command::Count(_) => "count",
            Command::Times(_) => "times",
        }
    }
}

/// What running one input line gives.
#[derive(Debug)]
pub enum Outcome {
    /// The line holds no word.
    Blank,
    /// The line asks to stop; no later line runs.
    Stop,
    /// No command has this (lower-cased) name.
    Unknown(String),
    /// `ping` ran.
    Pong,
    /// `count` ran with this many arguments.
    Counted(usize),
    /// `times` ran for this many times in all.
    CalledTimes(u32),
    /// `times` cannot count further (its counter is at `u32::MAX`); no later line runs.
    TimesOverflow,
}

/// An outcome, as texts.
pub ghost enum OutcomeSpec {
    Blank,
    Stop,
    Unknown(Seq<char>),
    Pong,
    Counted(nat),
    CalledTimes(u32),
    TimesOverflow,
}

impl View for Outcome {
    type V = OutcomeSpec;

    open spec fn view(&self) -> OutcomeSpec {
        match self {
            Outcome::Blank => OutcomeSpec::Blank,
            Outcome::Stop => OutcomeSpec::Stop,
            Outcome::Unknown(n) => OutcomeSpec::Unknown(n@),
            Outcome::Pong => OutcomeSpec::Pong,
            Outcome::Counted(k) => OutcomeSpec::Counted(*k as nat),
            Outcome::CalledTimes(k) => OutcomeSpec::CalledTimes(*k),
            Outcome::TimesOverflow => OutcomeSpec::TimesOverflow,
        }
    }
}

impl PingCommand {
    /// The name `ping`.
    pub fn get_name(&self) -> (r: &'static str)
        ensures
            r@ == "ping"@,
    {
        "ping"
    }

    /// Answers `pong`, whatever the arguments.
    pub fn exec(&self, _argc: usize) -> (r: Outcome)
        ensures
            r@ == OutcomeSpec::Pong,
    {
        Outcome::Pong
    }
}

impl CountCommand {
    /// The name `count`.
    pub fn get_name(&self) -> (r: &'static str)
        ensures
            r@ == "count"@,
    {
        "count"
    }

    /// Reports the number of arguments.
    pub fn exec(&self, argc: usize) -> (r: Outcome)
        ensures
            r@ == OutcomeSpec::Counted(argc as nat),
    {
        Outcome::Counted(argc)
    }
}

impl TimesCommand {
    /// The name `times`.
    pub fn get_name(&self) -> (r: &'static str)
        ensures
            r@ == "times"@,
    {
        "times"
    }

    /// Counts one more run and reports the total; a counter already at
    /// `u32::MAX` is left alone and reports the overflow.
    pub fn exec(&mut self, _argc: usize) -> (r: Outcome)
        ensures
            old(self).count == u32::MAX ==> final(self).count == old(self).count && r@ == OutcomeSpec::TimesOverflow,
            old(self).count < u32::MAX ==> final(self).count == old(self).count + 1 && r@
                == OutcomeSpec::CalledTimes(final(self).count),
    {
        if self.count == u32::MAX {
            return Outcome::TimesOverflow;
        }
        self.count = self.count + 1;
        Outcome::CalledTimes(self.count)
    }
}

/// Running a command with `argc` arguments: the command afterwards and the outcome.
pub open spec fn spec_exec(c: Command, argc: nat) -> (Command, OutcomeSpec) {
    match c {
        Command::Ping(_) => (c, OutcomeSpec::Pong),
        Command::Count(_) => (c, OutcomeSpec::Counted(argc)),
        Command::Times(t) => if t.count == u32::MAX {
            (c, OutcomeSpec::TimesOverflow)
        } else {
            let next = TimesCommand { count: (t.count + 1) as u32 };
            (Command::Times(next), OutcomeSpec::CalledTimes(next.count))
        },
    }
}

impl Command {
    /// Runs this command with `argc` arguments.
    pub fn exec(&mut self, argc: usize) -> (r: Outcome)
        ensures
            (*final(self), r@) == spec_exec(*old(self), argc as nat),
    {
        match self {
            Command::Ping(p) => p.exec(argc),
            Command::Count(c) => c.exec(argc),
            Command::Times(t) => {
                let mut tc = *t;
                let r = tc.exec(argc);
                *self = Command::Times(tc);
                r
            },
        }
    }
}

/// Running the command called `name` with `argc` arguments, against the
/// registered commands `m`: the registry afterwards and the outcome.
pub open spec fn spec_dispatch(m: Map<Seq<char>, Command>, name: Seq<char>, argc: nat) -> (
    Map<Seq<char>, Command>,
    OutcomeSpec,
) {
    if name == "stop"@ {
        (m, OutcomeSpec::Stop)
    } else if !m.contains_key(name) {
        (m, OutcomeSpec::Unknown(name))
    } else {
        let (c, o) = spec_exec(m[name], argc);
        (m.insert(name, c), o)
    }
}

/// Calling a registered command runs it (its state is updated, the others
/// are untouched); calling an unknown name or `stop` changes nothing; `times`
/// counts up by one per call until its counter is full.
pub proof fn lemma_dispatch_laws(m: Map<Seq<char>, Command>, c: Command, argc: nat, other: Seq<char>, t: TimesCommand)
    ensures
        ({
            let reg = m.insert(command_name(c), c);
            let (after, o) = spec_dispatch(reg, command_name(c), argc);
            &&& after == reg.insert(command_name(c), spec_exec(c, argc).0)
            &&& o == spec_exec(c, argc).1
        }),
        !m.contains_key(other) || other == "stop"@ ==> spec_dispatch(m, other, argc).0 == m,
        t.count < u32::MAX ==> spec_exec(Command::Times(t), argc) == (
            Command::Times(TimesCommand { count: (t.count + 1) as u32 }),
            OutcomeSpec::CalledTimes((t.count + 1) as u32),
        ),
{
    reveal_strlit("stop");
    reveal_strlit("ping");
    reveal_strlit("count");
    reveal_strlit("times");
    let name = command_name(c);
    assert(name != "stop"@) by {
        assert(name[0] != 's' || name.len() != 4 || name[1] != 't');
    }
}

/// The name given to the result of `str::to_lowercase` (Unicode lower-case
/// mapping) on a text.
pub uninterp spec fn lowercase(s: Seq<char>) -> Seq<char>;

/// `str::to_lowercase`: the text with every character mapped to lower case
/// by Unicode's rules. The contract only names the result as a function of
/// the text; the Unicode tables are not stated.
#[verifier::external_body]
fn unicode_lowercase(s: &str) -> (r: String)
    ensures
        r@ == lowercase(s@),
{
    s.to_lowercase()
}

/// Running one input line against `m`: the line is trimmed and cut into
/// words; a line without words is blank; otherwise the first word, lower-cased,
/// names the command and the other words are its arguments.
pub open spec fn spec_run_line(m: Map<Seq<char>, Command>, line: Seq<char>) -> (
    Map<Seq<char>, Command>,
    OutcomeSpec,
) {
    let parts = words(trim(line));
    if parts.len() == 0 {
        (m, OutcomeSpec::Blank)
    } else {
        spec_dispatch(m, lowercase(parts[0]), (parts.len() - 1) as nat)
    }
}

/// A line is read by its whitespace-separated words alone: lines with the
/// same words run alike, however much whitespace stands around and between
/// them. A line without words is blank; otherwise the first word, lower-cased,
/// is called with one argument per further word, so `count` reports the
/// number of words after its name.
pub proof fn lemma_run_line_reads_words(m: Map<Seq<char>, Command>, line: Seq<char>, other: Seq<char>)
    ensures
        words(line) == words(other) ==> spec_run_line(m, line) == spec_run_line(m, other),
        words(line).len() == 0 ==> spec_run_line(m, line) == (m, OutcomeSpec::Blank),
        words(line).len() > 0 ==> spec_run_line(m, line) == spec_dispatch(
            m,
            lowercase(words(line)[0]),
            (words(line).len() - 1) as nat,
        ),
        words(line).len() > 0 && lowercase(words(line)[0]) == "count"@ && m.contains_key("count"@)
            && m["count"@] is Count ==> spec_run_line(m, line) == (m, OutcomeSpec::Counted((words(line).len() - 1) as nat)),
{
    lemma_words_trim(line);
    lemma_words_trim(other);
    reveal_strlit("count");
    reveal_strlit("stop");
    if words(line).len() > 0 && lowercase(words(line)[0]) == "count"@ && m.contains_key("count"@) && m["count"@] is Count {
        assert("count"@ != "stop"@) by {
            assert("count"@[0] != "stop"@[0]);
        }
        assert(m.insert("count"@, m["count"@]) =~= m);
    }
}

/// Whether an outcome ends the run.
pub open spec fn ends_run(o: OutcomeSpec) -> bool {
    o is Stop || o is TimesOverflow
}

/// Running the lines in order against `m`, up to and including the first
/// line that ends the run: the registry afterwards and the outcomes.
pub open spec fn spec_run(m: Map<Seq<char>, Command>, lines: Seq<Seq<char>>) -> (
    Map<Seq<char>, Command>,
    Seq<OutcomeSpec>,
)
    decreases lines.len(),
{
    if lines.len() == 0 {
        (m, Seq::empty())
    } else {
        let (m1, o) = spec_run_line(m, lines[0]);
        if ends_run(o) {
            (m1, seq![o])
        } else {
            let (m2, rest) = spec_run(m1, lines.drop_first());
            (m2, seq![o] + rest)
        }
    }
}

/// The outcomes of a list, as texts.
pub open spec fn outcome_views(v: Seq<Outcome>) -> Seq<OutcomeSpec> {
    v.map_values(|o: Outcome| o@)
}

/// Registered commands, by name.
pub struct Terminal {
    commands: Registry<Command>,
}

impl View for Terminal {
    type V = Map<Seq<char>, Command>;

    closed spec fn view(&self) -> Map<Seq<char>, Command> {
        self.commands@
    }
}

impl Terminal {
    /// The terminal is well formed.
    pub closed spec fn wf(&self) -> bool {
        self.commands.wf()
    }

    /// A well-formed terminal knows finitely many commands.
    pub proof fn lemma_finite(&self)
        requires
            self.wf(),
        ensures
            self@.dom().finite(),
    {
        self.commands.lemma_keys();
    }

    /// A terminal without commands.
    pub fn new() -> (r: Terminal)
        ensures
            r.wf(),
            r@ == Map::<Seq<char>, Command>::empty(),
            r@.dom().finite(),
    {
        Terminal { commands: Registry::new() }
    }

    /// Registers `command` under its name, replacing a command of that name.
    pub fn register(&mut self, command: Command)
        requires
            old(self).wf(),
        ensures
            final(self).wf(),
            final(self)@ == old(self)@.insert(command_name(command), command),
            final(self)@.dom().finite(),
    {
        proof {
            self.lemma_finite();
        }
        let name = command.get_name().to_owned();
        match self.commands.find(&name) {
            Some(i) => self.commands.replace_at(i, Ghost(name@), command),
            None => self.commands.add(name, command),
        }
    }

    /// The command registered under `name`, if any.
    pub fn get(&self, name: &String) -> (r: Option<Command>)
        requires
            self.wf(),
        ensures
            r == (if self@.contains_key(name@) { Some(self@[name@]) } else { None::<Command> }),
    {
        match self.commands.find(name) {
            Some(i) => Some(*self.commands.at(i).1),
            None => None,
        }
    }

    /// Runs the command called `name` (already lower-cased) with `argc` arguments.
    pub fn dispatch(&mut self, name: &String, argc: usize) -> (r: Outcome)
        requires
            old(self).wf(),
        ensures
            final(self).wf(),
            (final(self)@, r@) == spec_dispatch(old(self)@, name@, argc as nat),

            final(self)@.dom().finite(),
    {
        proof {
            self.lemma_finite();
        }
        let nv = chars_of(name.as_str());
        proof {
            reveal_strlit("stop");
        }
        let is_stop = nv.len() == 4 && nv[0] == 's' && nv[1] == 't' && nv[2] == 'o' && nv[3] == 'p';
        if is_stop {
            assert(nv@ =~= "stop"@);
            return Outcome::Stop;
        }
        assert(name@ != "stop"@) by {
            if name@ == "stop"@ {
                assert(nv@[0] == 's' && nv@[1] == 't' && nv@[2] == 'o' && nv@[3] == 'p');
            }
        }
        match self.commands.find(name) {
            None => Outcome::Unknown(name.clone()),
            Some(i) => {
                let mut cmd = *self.commands.at(i).1;
                let r = cmd.exec(argc);
                self.commands.replace_at(i, Ghost(name@), cmd);
                r
            },
        }
    }

    /// Runs one input line.
    pub fn run_line(&mut self, line: &str) -> (r: Outcome)
        requires
            old(self).wf(),
        ensures
            final(self).wf(),
            (final(self)@, r@) == spec_run_line(old(self)@, line@),

            final(self)@.dom().finite(),
    {
        proof {
            self.lemma_finite();
        }
        let v = chars_of(line);
        let (a, b) = trim_bounds(&v, 0, v.len());
        assert(v@.subrange(0, v@.len() as int) =~= v@);
        let parts = word_ranges(&v, a, b);
        if parts.len() == 0 {
            return Outcome::Blank;
        }
        let (p0, p1) = parts[0];
        assert(parts@[0] == (p0, p1));
        let first = string_from_range(&v, p0, p1);
        let name = unicode_lowercase(first.as_str());
        self.dispatch(&name, parts.len() - 1)
    }

    /// Runs the lines of `input` (its pieces between `\n`) in order, up to
    /// and including the first that stops the run.
    pub fn run(&mut self, input: &str) -> (r: Vec<Outcome>)
        requires
            old(self).wf(),
        ensures
            final(self).wf(),
            (final(self)@, outcome_views(r@)) == spec_run(old(self)@, split_pieces(input@, Separator::Char('\n'))),

            final(self)@.dom().finite(),
    {
        proof {
            self.lemma_finite();
        }
        let v = chars_of(input);
        let lines = split_ranges(&v, 0, v.len(), Separator::Char('\n'));
        assert(v@.subrange(0, v@.len() as int) =~= v@);
        let ghost ls = ranges_text(v@, lines@);
        let ghost goal = spec_run(self@, ls);
        let mut out: Vec<Outcome> = Vec::new();
        let mut k: usize = 0;
        assert(ls.skip(0) =~= ls);
        assert(outcome_views(out@) + spec_run(self@, ls.skip(0)).1 =~= goal.1);
        while k < lines.len()
            invariant
                self.wf(),
                k <= lines@.len(),
                ls == ranges_text(v@, lines@),
                ls == split_pieces(input@, Separator::Char('\n')),
                goal == spec_run(old(self)@, ls),
                ranges_within(lines@, v@.len()),
                goal == (spec_run(self@, ls.skip(k as int)).0, outcome_views(out@) + spec_run(self@, ls.skip(k as int)).1),
            decreases lines@.len() - k,
        {
            let (a, b) = lines[k];
            assert(lines@[k as int] == (a, b));
            let line = string_from_range(&v, a, b);
            let ghost m0 = self@;
            let ghost rest = ls.skip(k as int);
            assert(rest[0] == line@);
            assert(rest.drop_first() =~= ls.skip(k + 1));
            let o = self.run_line(line.as_str());
            let ends = match o {
                Outcome::Stop => true,
                Outcome::TimesOverflow => true,
                _ => false,
            };
            let ghost out0 = out@;
            out.push(o);
            assert(outcome_views(out@) =~= outcome_views(out0).push(out@.last()@));
            if ends {
                assert(goal == (self@, outcome_views(out@)));
                return out;
            }
            assert(outcome_views(out@) + spec_run(self@, ls.skip(k + 1)).1 =~= outcome_views(out0) + (seq![out@.last()@] + spec_run(self@, ls.skip(k + 1)).1));
            k = k + 1;
        }
        assert(ls.skip(lines@.len() as int) =~= Seq::<Seq<char>>::empty());
        assert(outcome_views(out@) + Seq::<OutcomeSpec>::empty() =~= outcome_views(out@));
        proof {
            self.lemma_finite();
        }
        out
    }
}

} // verus!
