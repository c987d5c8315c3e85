//! The decisions of the execution engine.
//!
//! A `Run` walks the flat list of commands of one line. It says which action
//! comes next (change directory, start a program, or finish with an overall
//! result); the caller performs it and hands back what happened. A link that
//! fails passes the turn to its fallback, a command that fails for good ends
//! the whole run, and a program started in the background counts as a
//! success at once.
use crate::split::views;
use crate::tokens::{chains, Link, Tokens};
use vstd::prelude::*;
use vstd::string::*;

verus! {

/// What came of the last action.
#[derive(Debug, Clone, Copy, PartialEq, Eq)]
pub enum Event {
    /// The program could not be started.
    NotFound,
    /// The program was started and is not waited for.
    Started,
    /// The program ran to its end; `true` where its exit status was zero.
    Exited(bool),
    /// The working directory was to change; `true` where it did.
    DirChanged(bool),
}

/// What the caller is to do next.
#[derive(Debug, PartialEq, Eq)]
pub enum Action {
    /// Change the working directory to this path.
    ChangeDir(String),
    /// Start this program with these arguments; wait for it unless it runs
    /// in the background.
    Spawn { program: String, args: Vec<String>, background: bool },
    /// The run is over, with this overall result.
    Finish(bool),
}

/// Where a run stands: the links of the command under way that are left to
/// try, the commands not yet begun, and the overall result once there is one.
pub struct RunView {
    pub current: Seq<Link>,
    pub rest: Seq<Seq<Link>>,
    pub outcome: Option<bool>,
}

/// The one built-in command that the engine carries out itself.
pub open spec fn is_cd(l: Link) -> bool {
    l.program == seq!['c', 'd']
}

/// The path that `cd` goes to: its first argument, or an empty path, which
/// names no directory.
pub open spec fn cd_target(l: Link) -> Seq<char> {
    if l.args.len() > 0 {
        l.args[0]
    } else {
        seq![]
    }
}

/// Whether an event counts as success of the link that caused it. A program
/// started in the background succeeds, whatever it does later.
pub open spec fn succeeded(e: Event) -> bool {
    match e {
        Event::NotFound => false,
        Event::Started => true,
        Event::Exited(ok) => ok,
        Event::DirChanged(ok) => ok,
    }
}

/// Every command has at least one link.
pub open spec fn all_nonempty(cmds: Seq<Seq<Link>>) -> bool {
    forall|i: int| 0 <= i < cmds.len() ==> (#[trigger] cmds[i]).len() > 0
}

pub open spec fn wf_view(v: RunView) -> bool {
    &&& all_nonempty(v.rest)
    &&& v.outcome is None ==> v.current.len() > 0
}

/// A run about to begin the first of `cmds`; with no commands it has
/// succeeded already.
pub open spec fn start(cmds: Seq<Seq<Link>>) -> RunView {
    if cmds.len() == 0 {
        RunView { current: seq![], rest: seq![], outcome: Some(true) }
    } else {
        RunView { current: cmds[0], rest: cmds.drop_first(), outcome: None }
    }
}

/// The run after `e` happened to the link under way. Success moves on to the
/// next command. A failure moves to the fallback, where there is one and the
/// link is not `cd`; otherwise it ends the run with failure, and no later
/// command is begun. A finished run stays as it is.
pub open spec fn step(v: RunView, e: Event) -> RunView {
    if v.outcome is Some {
        v
    } else if succeeded(e) {
        start(v.rest)
    } else if !is_cd(v.current[0]) && v.current.len() > 1 {
        RunView { current: v.current.drop_first(), ..v }
    } else {
        failed(v)
    }
}

/// The run after a sequence of events.
pub open spec fn steps(v: RunView, es: Seq<Event>) -> RunView
    decreases es.len(),
{
    if es.len() == 0 {
        v
    } else {
        steps(step(v, es[0]), es.drop_first())
    }
}

/// The state in which a run ends with failure, nothing left under way and
/// the commands not yet begun untouched.
pub open spec fn failed(v: RunView) -> RunView {
    RunView { current: seq![], rest: v.rest, outcome: Some(false) }
}

/// A finished run stays as it is, whatever happens afterwards.
pub proof fn lemma_finished_run_stays(v: RunView, es: Seq<Event>)
    requires
        v.outcome is Some,
    ensures
        steps(v, es) == v,
    decreases es.len(),
{
    if es.len() > 0 {
        lemma_finished_run_stays(v, es.drop_first());
    }
}

/// The run is flat: once a command has failed for good (its last link
/// failed, or a `cd` failed), the run ends with failure and no later command
/// of the line is begun, whichever `;` or `&&` part of the line it came from.
pub proof fn lemma_failure_stops_run(v: RunView, e: Event, es: Seq<Event>)
    requires
        wf_view(v),
        v.outcome is None,
        !succeeded(e),
        is_cd(v.current[0]) || v.current.len() == 1,
    ensures
        step(v, e) == failed(v),
        steps(step(v, e), es) == failed(v),
{
    lemma_finished_run_stays(step(v, e), es);
}

/// A program launched in the background counts as success at once, whatever
/// it later exits with: the run moves on to the next command.
pub proof fn lemma_background_launch_succeeds(v: RunView)
    requires
        wf_view(v),
        v.outcome is None,
        v.current[0].background,
    ensures
        step(v, Event::Started) == start(v.rest),
        start(v.rest).outcome != Some(false),
{
}

/// Links of a fallback chain are tried in order: after `k` failures (none of
/// them of `cd`) the `k`-th fallback is the one under way.
pub proof fn lemma_failures_walk_chain(v: RunView, es: Seq<Event>)
    requires
        wf_view(v),
        v.outcome is None,
        es.len() < v.current.len(),
        forall|j: int| 0 <= j < es.len() ==> !succeeded(#[trigger] es[j]) && !is_cd(v.current[j]),
    ensures
        steps(v, es) == (RunView { current: v.current.skip(es.len() as int), ..v }),
    decreases es.len(),
{
    if es.len() == 0 {
        assert(v.current.skip(0) =~= v.current);
    } else {
        let w = step(v, es[0]);
        assert(!succeeded(es[0]) && !is_cd(v.current[0]));
        assert forall|j: int| 0 <= j < es.drop_first().len() implies !succeeded(
            #[trigger] es.drop_first()[j],
        ) && !is_cd(w.current[j]) by {
            assert(es.drop_first()[j] == es[j + 1]);
        }
        lemma_failures_walk_chain(w, es.drop_first());
        assert(w.current.skip(es.drop_first().len() as int) =~= v.current.skip(es.len() as int));
    }
}

/// A fallback chain stops at its first success: where the first links fail
/// (none of them `cd`) and the next one succeeds, the run moves on to the
/// next command and the links after the successful one are never tried.
pub proof fn lemma_chain_stops_at_first_success(v: RunView, es: Seq<Event>)
    requires
        wf_view(v),
        v.outcome is None,
        0 < es.len() <= v.current.len(),
        forall|j: int|
            0 <= j < es.len() - 1 ==> !succeeded(#[trigger] es[j]) && !is_cd(v.current[j]),
        succeeded(es.last()),
    ensures
        steps(v, es) == start(v.rest),
    decreases es.len(),
{
    if es.len() > 1 {
        let w = step(v, es[0]);
        assert(!succeeded(es[0]) && !is_cd(v.current[0]));
        assert forall|j: int| 0 <= j < es.drop_first().len() - 1 implies !succeeded(
            #[trigger] es.drop_first()[j],
        ) && !is_cd(w.current[j]) by {
            assert(es.drop_first()[j] == es[j + 1]);
        }
        assert(es.drop_first().last() == es.last());
        lemma_chain_stops_at_first_success(w, es.drop_first());
    } else {
        assert(es.last() == es[0]);
        assert(steps(step(v, es[0]), es.drop_first()) == step(v, es[0]));
    }
}

/// When every link of a chain fails (none before the last being `cd`), the
/// command fails and the run ends with failure before any later command.
pub proof fn lemma_chain_all_fail(v: RunView, es: Seq<Event>)
    requires
        wf_view(v),
        v.outcome is None,
        es.len() == v.current.len(),
        forall|j: int| 0 <= j < es.len() ==> !succeeded(#[trigger] es[j]),
        forall|j: int| 0 <= j < es.len() - 1 ==> !is_cd(#[trigger] v.current[j]),
    ensures
        steps(v, es) == failed(v),
    decreases es.len(),
{
    let w = step(v, es[0]);
    assert(!succeeded(es[0]));
    if es.len() > 1 {
        assert(!is_cd(v.current[0]));
        assert forall|j: int| 0 <= j < es.drop_first().len() implies !succeeded(
            #[trigger] es.drop_first()[j],
        ) by {
            assert(es.drop_first()[j] == es[j + 1]);
        }
        assert forall|j: int| 0 <= j < es.drop_first().len() - 1 implies !is_cd(
            #[trigger] w.current[j],
        ) by {
            assert(w.current[j] == v.current[j + 1]);
        }
        lemma_chain_all_fail(w, es.drop_first());
    } else {
        lemma_finished_run_stays(w, es.drop_first());
    }
}

/// A `cd` that could not change the directory fails, and with it the run,
/// even where the command has a fallback.
pub proof fn lemma_failed_cd_ends_run(v: RunView)
    requires
        wf_view(v),
        v.outcome is None,
        is_cd(v.current[0]),
    ensures
        step(v, Event::DirChanged(false)) == failed(v),
{
}

/// The run of the commands of one line.
pub struct Run {
    current: Option<Tokens>,
    pending: Vec<Tokens>,
    outcome: Option<bool>,
}

impl View for Run {
    type V = RunView;

    closed spec fn view(&self) -> RunView {
        RunView {
            current: match self.current {
                Some(t) => t.chain(),
                None => seq![],
            },
            rest: chains(self.pending@),
            outcome: self.outcome,
        }
    }
}

pub proof fn lemma_chains_nonempty(v: Seq<Tokens>)
    ensures
        all_nonempty(chains(v)),
{
    assert forall|i: int| 0 <= i < chains(v).len() implies (#[trigger] chains(v)[i]).len() > 0 by {
        assert(chains(v)[i] == v[i].chain());
    }
}

/// Whether `s` is `cd`.
fn is_cd_name(s: &str) -> (r: bool)
    ensures
        r == (s@ == seq!['c', 'd']),
{
    if s.unicode_len() != 2 {
        return false;
    }
    let r = s.get_char(0) == 'c' && s.get_char(1) == 'd';
    assert(r ==> s@ =~= seq!['c', 'd']);
    r
}

/// A copy of a list of strings.
fn copy_strings(v: &Vec<String>) -> (r: Vec<String>)
    ensures
        views(r@) == views(v@),
{
    let mut r: Vec<String> = Vec::new();
    let mut i: usize = 0;
    while i < v.len()
        invariant
            i <= v.len(),
            views(r@) == views(v@).take(i as int),
        decreases v.len() - i,
    {
        let ghost before = views(r@);
        r.push(v[i].clone());
        assert(views(r@) =~= before.push(v@[i as int]@));
        assert(views(v@).take(i + 1) =~= views(v@).take(i as int).push(v@[i as int]@));
        i = i + 1;
    }
    assert(views(v@).take(i as int) =~= views(v@));
    r
}

impl Run {
    pub closed spec fn wf(&self) -> bool {
        &&& wf_view(self@)
        &&& (self.current is Some) == (self.outcome is None)
    }

    /// A run of `commands`, in their order.
    pub fn new(commands: Vec<Tokens>) -> (r: Run)
        ensures
            r.wf(),
            r@ == start(chains(commands@)),
    {
        let mut commands = commands;
        proof {
            lemma_chains_nonempty(commands@);
        }
        if commands.len() == 0 {
            assert(chains(commands@) =~= seq![]);
            return Run { current: None, pending: commands, outcome: Some(true) };
        }
        let ghost all = chains(commands@);
        let first = commands.remove(0);
        proof {
            lemma_chains_nonempty(commands@);
            assert(chains(commands@) =~= all.drop_first());
        }
        Run { current: Some(first), pending: commands, outcome: None }
    }

    /// The overall result, once the run is over.
    pub fn outcome(&self) -> (r: Option<bool>)
        ensures
            r == self@.outcome,
    {
        self.outcome
    }

    /// The action that the run asks for now.
    pub fn next_action(&self) -> (r: Action)
        requires
            self.wf(),
        ensures
            match r {
                Action::Finish(ok) => self@.outcome == Some(ok),
                Action::ChangeDir(path) => {
                    &&& self@.outcome is None
                    &&& is_cd(self@.current[0])
                    &&& path@ == cd_target(self@.current[0])
                },
                Action::Spawn { program, args, background } => {
                    &&& self@.outcome is None
                    &&& !is_cd(self@.current[0])
                    &&& program@ == self@.current[0].program
                    &&& views(args@) == self@.current[0].args
                    &&& background == self@.current[0].background
                },
            },
    {
        match &self.current {
            None => Action::Finish(self.outcome.unwrap()),
            Some(t) => {
                assert(self@.current[0] == t.link());
                if is_cd_name(t.main_com.as_str()) {
                    if t.args.len() > 0 {
                        Action::ChangeDir(t.args[0].clone())
                    } else {
                        Action::ChangeDir(String::new())
                    }
                } else {
                    Action::Spawn {
                        program: t.main_com.clone(),
                        args: copy_strings(&t.args),
                        background: t.in_background,
                    }
                }
            },
        }
    }

    /// Takes in what came of the last action.
    pub fn record(&mut self, e: Event)
        requires
            old(self).wf(),
        ensures
            final(self).wf(),
            final(self)@ == step(old(self)@, e),
    {
        if self.outcome.is_some() {
            return;
        }
        let ok = match e {
            Event::NotFound => false,
            Event::Started => true,
            Event::Exited(ok) => ok,
            Event::DirChanged(ok) => ok,
        };
        let ghost v = self@;
        let cur = self.current.take().unwrap();
        assert(v.current[0] == cur.link());
        if ok {
            if self.pending.len() == 0 {
                self.outcome = Some(true);
                assert(chains(self.pending@) =~= seq![]);
                assert(self@ =~= start(v.rest));
            } else {
                let next = self.pending.remove(0);
                proof {
                    lemma_chains_nonempty(self.pending@);
                    assert(chains(self.pending@) =~= v.rest.drop_first());
                }
                self.current = Some(next);
                assert(self@ =~= start(v.rest));
            }
        } else {
            let cd = is_cd_name(cur.main_com.as_str());
            if !cd && cur.or_com.is_some() {
                let next = cur.or_com.unwrap();
                assert(v.current.drop_first() =~= next.chain());
                self.current = Some(*next);
            } else {
                self.outcome = Some(false);
                assert(self@ =~= failed(v));
            }
        }
    }
}

} // verus!
