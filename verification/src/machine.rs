//! The cursor loop. A `Machine` carries the program counter, the terminal
//! identity and the children index; each `step` parses and executes the
//! instruction at the cursor, then advances to a child (chosen at random
//! when there are several). Input and output cross the boundary as values,
//! so a driver performs the real reads and writes.

use vstd::prelude::*;
use crate::errors::Error;
use crate::value::Val;
use crate::store::Instance;
use crate::parse::Op;
use crate::engine::Effect;
use crate::graph::{
    Repo, ChildIndex, child_map, child_index_get, children_ok, children_exact, collect_children,
    replace, find_tag, canon, best_candidate, no_branch_target, bad_redirect,
};
use crate::store::{m_set, split_path, seq_strs};
use crate::value::{ValModel, render_spec};
use crate::parse::{OpModel, parse_tokens_spec, shell_tokens};
use crate::engine::{exec_spec, err_frame, ev, EffModel};
use crate::num::push_char;
use crate::value::render;

verus! {

/// Relies on `rand::random`: a sample from the thread-local generator.
/// Nothing is promised of the value.
pub assume_specification<T>[ rand::random::<T> ]() -> (r: T)
    where
        rand::distributions::Standard: rand::distributions::Distribution<T>,
;

/// A uniformly-ish random index below `n`.
fn pick_index(n: usize) -> (r: usize)
    requires
        n > 0,
    ensures
        r < n,
{
    let x: usize = rand::random::<usize>();
    x % n
}

/// What `inpln` keeps of a read line: the terminator goes, with one `\r`
/// before it; a line with no terminator means input ended mid-line.
pub open spec fn strip_spec(s: Seq<char>) -> Option<Seq<char>> {
    if s.len() == 0 || s.last() != '\n' {
        None
    } else {
        let s1 = s.drop_last();
        if s1.len() > 0 && s1.last() == '\r' {
            Some(s1.drop_last())
        } else {
            Some(s1)
        }
    }
}

/// Strips the line terminator, exactly as `strip_spec` describes.
fn strip_line(s: &str) -> (r: Result<String, Error>)
    ensures
        match r {
            Ok(t) => strip_spec(s@) == Some(t@),
            Err(e) => e is IoError && strip_spec(s@) is None,
        },
{
    let len = s.unicode_len();
    if len == 0 || s.get_char(len - 1) != '\n' {
        return Err(Error::IoError);
    }
    let cut: usize = if len >= 2 && s.get_char(len - 2) == '\r' {
        len - 2
    } else {
        len - 1
    };
    let out = String::from_str(s.substring_char(0, cut));
    proof {
        assert(s@.drop_last() =~= s@.subrange(0, len - 1));
        if cut + 2 == len {
            assert(s@.drop_last().drop_last() =~= s@.subrange(0, len - 2));
        }
    }
    Ok(out)
}

/// The program counter and everything the cursor loop needs.
#[derive(Debug)]
pub struct Machine {
    pub cur: usize,
    pub end_id: usize,
    pub children: ChildIndex,
    pub awaiting: Option<String>,
    pub done: bool,
}

/// One step's outcome: its visible effect, and whether the program halted.
#[derive(Debug)]
pub struct StepOut {
    pub effect: Effect,
    pub halted: bool,
}

/// What a bounded run produced.
#[derive(Debug)]
pub struct RunOutcome {
    pub output: String,
    pub finished: bool,
}

/// A runtime failure, carrying the canonical identity of the commit the
/// cursor was at, so reports can prefix it.
#[derive(Debug)]
pub struct RunError {
    pub at: usize,
    pub err: Error,
}

/// The instruction at a commit, as the parser reads it.
pub open spec fn msg_op(repo: Repo, id: usize) -> Option<OpModel> {
    match shell_tokens(repo.commits@[id as int].message@) {
        None => None,
        Some(toks) => parse_tokens_spec(toks),
    }
}

/// What advancing from `cur` does: halt at the terminal identity, else move
/// to one of its recorded children.
pub open spec fn advance_to(
    cur: usize,
    end_id: usize,
    cm: Map<usize, Seq<usize>>,
    post_cur: usize,
    post_done: bool,
    halted: bool,
) -> bool {
    if cur == end_id {
        halted && post_done && post_cur == cur
    } else {
        !halted && !post_done && cm.contains_key(cur) && cm[cur].len() > 0 && cm[cur].contains(
            post_cur,
        )
    }
}

/// When advancing has nowhere to go.
pub open spec fn advance_stuck(cur: usize, end_id: usize, cm: Map<usize, Seq<usize>>) -> bool {
    cur != end_id && (!cm.contains_key(cur) || cm[cur].len() == 0)
}

/// One step, whole: the inert done machine, the pending-input step, or the
/// execute-and-advance step.
pub open spec fn step_rel(
    repo: Repo,
    pre_m: Machine,
    pre_i: Instance,
    input: Option<String>,
    post_m: Machine,
    post_i: Instance,
    r: Result<StepOut, Error>,
) -> bool {
    &&& post_m.end_id == pre_m.end_id
    &&& post_m.children == pre_m.children
    &&& (pre_m.done ==> post_m == pre_m && post_i == pre_i && (r matches Ok(o) && o.halted
        && o.effect is Quiet))
    &&& ((!pre_m.done && pre_m.awaiting is Some) ==> step_await_rel(
        pre_m,
        post_m,
        pre_i,
        post_i,
        pre_m.awaiting->Some_0@,
        input,
        r,
    ))
    &&& ((!pre_m.done && pre_m.awaiting is None) ==> step_exec_rel(
        repo,
        pre_m,
        post_m,
        pre_i,
        post_i,
        r,
    ))
}

/// A step that reports a halt has parked the machine.
pub proof fn lemma_step_halt(
    repo: Repo,
    pre_m: Machine,
    pre_i: Instance,
    input: Option<String>,
    post_m: Machine,
    post_i: Instance,
    o: StepOut,
)
    requires
        step_rel(repo, pre_m, pre_i, input, post_m, post_i, Ok(o)),
        o.halted,
    ensures
        post_m.done,
{
}

impl Machine {
    pub open spec fn inv(self, repo: Repo) -> bool {
        &&& repo.wf()
        &&& self.cur < repo.n()
        &&& self.end_id < repo.n()
        &&& children_ok(repo, child_map(self.children))
    }

    /// Sets up a run: canonicalizes the terminal commit and builds the
    /// children index from it, so the index is exactly the inverted
    /// canonical edge relation over the reachable commits.
    pub fn new(repo: &Repo, start: usize, end: usize) -> (r: Result<Machine, Error>)
        requires
            repo.wf(),
            start < repo.n(),
            end < repo.n(),
        ensures
            match r {
                Ok(m) => m.inv(*repo) && !m.done && m.awaiting is None && m.cur == start && canon(
                    *repo,
                    end,
                ) == Some(m.end_id) && children_exact(*repo, m.end_id, child_map(m.children)),
                Err(e) => e is RedirectLoop && bad_redirect(*repo, end),
            },
    {
        let mut endc = end;
        match replace(repo, &mut endc) {
            Ok(_) => {},
            Err(e) => {
                return Err(e);
            },
        }
        proof {
            crate::graph::lemma_canon_idempotent(*repo, end, endc);
        }
        let children = match collect_children(repo, endc) {
            Ok(c) => c,
            Err(e) => {
                proof {
                    assert(bad_redirect(*repo, end)) by {
                        assert(canon(*repo, end) == Some(endc));
                        assert(canon(*repo, endc) == Some(endc));
                    }
                }
                return Err(e);
            },
        };
        Ok(Machine { cur: start, end_id: endc, children, awaiting: None, done: false })
    }

    /// Sets up a run from the repository's `_start` and `_end` tags; their
    /// absence is exactly `MissingRef`.
    pub fn from_tags(repo: &Repo) -> (r: Result<Machine, Error>)
        requires
            repo.wf(),
        ensures
            match r {
                Ok(m) => m.inv(*repo) && !m.done && m.awaiting is None && repo.tag_of("_start"@)
                    == Some(m.cur) && (repo.tag_of("_end"@) matches Some(e0) && canon(*repo, e0)
                    == Some(m.end_id)) && children_exact(*repo, m.end_id, child_map(m.children)),
                Err(e) => (e is MissingRef <==> (repo.tag_of("_start"@) is None || repo.tag_of(
                    "_end"@,
                ) is None)) && (!(e is MissingRef) ==> e is RedirectLoop && (repo.tag_of("_end"@)
                    matches Some(e0) && bad_redirect(*repo, e0))),
            },
    {
        let st = match repo.resolve_tag("_start") {
            Some(x) => x,
            None => {
                return Err(Error::MissingRef);
            },
        };
        let en = match repo.resolve_tag("_end") {
            Some(x) => x,
            None => {
                return Err(Error::MissingRef);
            },
        };
        Machine::new(repo, st, en)
    }

    /// Halts at the terminal commit, otherwise moves the cursor to one of
    /// its recorded children; `NoSuccessor` exactly when there is none.
    fn advance_or_halt(&mut self, repo: &Repo) -> (r: Result<StepOut, Error>)
        requires
            old(self).inv(*repo),
            !old(self).done,
        ensures
            final(self).inv(*repo),
            final(self).end_id == old(self).end_id,
            final(self).children == old(self).children,
            final(self).awaiting == old(self).awaiting,
            match r {
                Ok(o) => o.effect is Quiet && advance_to(
                    old(self).cur,
                    old(self).end_id,
                    child_map(old(self).children),
                    final(self).cur,
                    final(self).done,
                    o.halted,
                ),
                Err(e) => e is NoSuccessor && advance_stuck(
                    old(self).cur,
                    old(self).end_id,
                    child_map(old(self).children),
                ) && *final(self) == *old(self),
            },
    {
        if self.cur == self.end_id {
            self.done = true;
            return Ok(StepOut { effect: Effect::Quiet, halted: true });
        }
        match child_index_get(&self.children, self.cur) {
            Some(outs) => {
                if outs.len() == 0 {
                    return Err(Error::NoSuccessor);
                }
                let k = pick_index(outs.len());
                let nxt = outs[k];
                proof {
                    assert(child_map(self.children).contains_key(self.cur));
                    assert(child_map(self.children)[self.cur][k as int] < repo.n());
                    assert(child_map(self.children)[self.cur].contains(nxt));
                }
                self.cur = nxt;
                Ok(StepOut { effect: Effect::Quiet, halted: false })
            },
            None => Err(Error::NoSuccessor),
        }
    }

    /// One step of the cursor loop: resolve redirection at the cursor,
    /// parse its message, execute (or branch), and advance; the contract
    /// pins every outcome over `exec_spec`, the children index and
    /// `best_candidate`, up to the random choice of successor. A pending
    /// `inpln` consumes `input` first; `Want` in the outcome asks the
    /// driver for a line.
    #[verifier::rlimit(100)]
    #[verifier::spinoff_prover]
    pub fn step(&mut self, repo: &Repo, inst: &mut Instance, input: Option<String>) -> (r: Result<
        StepOut,
        Error,
    >)
        requires
            old(self).inv(*repo),
            old(inst).inv(),
        ensures
            final(self).inv(*repo),
            final(inst).inv(),
            step_rel(*repo, *old(self), *old(inst), input, *final(self), *final(inst), r),
    {
        if self.done {
            return Ok(StepOut { effect: Effect::Quiet, halted: true });
        }
        let mut awname: Option<String> = None;
        match &self.awaiting {
            Some(s) => {
                awname = Some(String::from_str(s.as_str()));
            },
            None => {},
        }
        match awname {
            Some(var) => {
                let line = match input {
                    Some(l) => l,
                    None => {
                        return Err(Error::IoError);
                    },
                };
                let stripped = match strip_line(line.as_str()) {
                    Ok(t) => t,
                    Err(e) => {
                        return Err(e);
                    },
                };
                match inst.set(var.as_str(), Val::Str(stripped)) {
                    Ok(()) => {},
                    Err(e) => {
                        return Err(e);
                    },
                }
                self.awaiting = None;
                self.advance_or_halt(repo)
            },
            None => {
                let mut c = self.cur;
                match replace(repo, &mut c) {
                    Ok(_) => {},
                    Err(e) => {
                        return Err(e);
                    },
                }
                self.cur = c;
                let op = match Op::from_str(repo.commits[self.cur].message.as_str()) {
                    Ok(op) => op,
                    Err(e) => {
                        return Err(e);
                    },
                };
                match &op {
                    Op::Branch(tag) => {
                        let tagname = {
                            let sc = inst.table();
                            match tag.val(sc) {
                                Ok(v) => render(v),
                                Err(e) => {
                                    return Err(e);
                                },
                            }
                        };
                        let nxt = match child_index_get(&self.children, self.cur) {
                            Some(cands) => match find_tag(repo, tagname.as_str(), cands) {
                                Some(x) => x,
                                None => {
                                    return Err(Error::BranchTargetNotFound);
                                },
                            },
                            None => {
                                return Err(Error::BranchTargetNotFound);
                            },
                        };
                        proof {
                            assert(child_map(self.children).contains_key(self.cur));
                            let cands_view = child_map(self.children)[self.cur];
                            let i = choose|i: int|
                                0 <= i < cands_view.len() && cands_view[i] == nxt;
                            assert(cands_view[i] < repo.n());
                        }
                        self.cur = nxt;
                        Ok(StepOut { effect: Effect::Quiet, halted: false })
                    },
                    _ => {
                        let eff = match inst.exec(&op) {
                            Ok(e) => e,
                            Err(e) => {
                                return Err(e);
                            },
                        };
                        match eff {
                            Effect::Want(var) => {
                                let var2 = String::from_str(var.as_str());
                                self.awaiting = Some(var);
                                Ok(StepOut { effect: Effect::Want(var2), halted: false })
                            },
                            other => {
                                let out = match self.advance_or_halt(repo) {
                                    Ok(o) => o,
                                    Err(e) => {
                                        return Err(e);
                                    },
                                };
                                Ok(StepOut { effect: other, halted: out.halted })
                            },
                        }
                    },
                }
            },
        }
    }
}

/// A step that consumes a pending `inpln` line: the stripped line is stored
/// under the awaited variable, then the cursor advances.
pub open spec fn step_await_rel(
    pre: Machine,
    post: Machine,
    ipre: Instance,
    ipost: Instance,
    v: Seq<char>,
    input: Option<String>,
    r: Result<StepOut, Error>,
) -> bool {
    match input {
        None => r == Err::<StepOut, Error>(Error::IoError) && post == pre && ipost == ipre,
        Some(line) => match strip_spec(line@) {
            None => r == Err::<StepOut, Error>(Error::IoError) && post == pre && ipost == ipre,
            Some(t) => match m_set(
                ipre.root_model(),
                ipre.entered_model() + split_path(v),
                ValModel::Str(t),
            ) {
                None => r == Err::<StepOut, Error>(Error::NotATable) && post == pre
                    && ipost.root_model() == ipre.root_model() && ipost.entered_model()
                    == ipre.entered_model(),
                Some(m2) => ipost.root_model() == m2 && ipost.entered_model()
                    == ipre.entered_model() && post.awaiting is None && (match r {
                    Ok(o) => o.effect is Quiet && advance_to(
                        pre.cur,
                        pre.end_id,
                        child_map(pre.children),
                        post.cur,
                        post.done,
                        o.halted,
                    ),
                    Err(e) => e is NoSuccessor && advance_stuck(
                        pre.cur,
                        pre.end_id,
                        child_map(pre.children),
                    ) && post.cur == pre.cur && !post.done,
                }),
            },
        },
    }
}

/// A step that executes the instruction at the cursor: redirection first,
/// then parse, then `branch` through the children index and
/// `best_candidate`, or `exec_spec` and an advance.
pub open spec fn step_exec_rel(
    repo: Repo,
    pre: Machine,
    post: Machine,
    ipre: Instance,
    ipost: Instance,
    r: Result<StepOut, Error>,
) -> bool {
    match canon(repo, pre.cur) {
        None => r == Err::<StepOut, Error>(Error::RedirectLoop) && post == pre && ipost == ipre,
        Some(cc) => match msg_op(repo, cc) {
            None => r == Err::<StepOut, Error>(Error::Parse) && post.cur == cc && !post.done
                && post.awaiting is None && ipost == ipre,
            Some(op) => match op {
                OpModel::Branch(tg) => match ev(ipre.root_model(), ipre.entered_model(), tg) {
                    Err(e) => r == Err::<StepOut, Error>(e) && post.cur == cc && !post.done
                        && ipost == ipre,
                    Ok(tv) => {
                        let cm = child_map(pre.children);
                        &&& ipost == ipre
                        &&& !post.done
                        &&& (match r {
                            Ok(o) => o.effect is Quiet && !o.halted && cm.contains_key(cc)
                                && best_candidate(repo, render_spec(tv), cm[cc], post.cur),
                            Err(e) => e is BranchTargetNotFound && post.cur == cc && (
                            !cm.contains_key(cc) || no_branch_target(
                                repo,
                                render_spec(tv),
                                cm[cc],
                            )),
                        })
                    },
                },
                _ => match exec_spec(ipre.root_model(), ipre.entered_model(), op) {
                    Err(e) => r == Err::<StepOut, Error>(e) && err_frame(
                        ipre.root_model(),
                        ipre.entered_model(),
                        op,
                        ipost.root_model(),
                        ipost.entered_model(),
                    ) && post.cur == cc && !post.done,
                    Ok(res) => {
                        &&& ipost.root_model() == res.root
                        &&& ipost.entered_model() == res.segs
                        &&& (match res.eff {
                            EffModel::Want(v) => r matches Ok(o) && ({
                                &&& !o.halted
                                &&& o.effect.model() == res.eff
                                &&& post.awaiting is Some
                                &&& post.awaiting->Some_0@ == v
                                &&& post.cur == cc
                                &&& !post.done
                            }),
                            _ => match r {
                                Ok(o) => o.effect.model() == res.eff && post.awaiting is None
                                    && advance_to(
                                    cc,
                                    pre.end_id,
                                    child_map(pre.children),
                                    post.cur,
                                    post.done,
                                    o.halted,
                                ),
                                Err(e) => e is NoSuccessor && advance_stuck(
                                    cc,
                                    pre.end_id,
                                    child_map(pre.children),
                                ) && post.cur == cc && !post.done,
                            },
                        })
                    },
                },
            },
        },
    }
}

/// The text a sequence of step outcomes prints: `print` as is, `println`
/// with a newline, nothing else.
pub open spec fn effects_text(outs: Seq<StepOut>) -> Seq<char>
    decreases outs.len(),
{
    if outs.len() == 0 {
        Seq::empty()
    } else {
        effects_text(outs.drop_last()) + (match outs.last().effect.model() {
            EffModel::Out(t) => t,
            EffModel::OutLine(t) => t.push('\n'),
            _ => Seq::<char>::empty(),
        })
    }
}

/// The lines actually handed to steps, in order.
pub open spec fn some_views(ins: Seq<Option<String>>) -> Seq<Seq<char>>
    decreases ins.len(),
{
    if ins.len() == 0 {
        Seq::empty()
    } else {
        some_views(ins.drop_last()) + (match ins.last() {
            Some(t) => seq![t@],
            None => Seq::<Seq<char>>::empty(),
        })
    }
}

/// A chain of successful steps.
pub open spec fn run_trace(
    repo: Repo,
    ms: Seq<Machine>,
    ists: Seq<Instance>,
    ins: Seq<Option<String>>,
    outs: Seq<StepOut>,
) -> bool {
    &&& ms.len() == outs.len() + 1
    &&& ists.len() == outs.len() + 1
    &&& ins.len() == outs.len()
    &&& forall|i: int|
        0 <= i < outs.len() ==> #[trigger] step_rel(
            repo,
            ms[i],
            ists[i],
            ins[i],
            ms[i + 1],
            ists[i + 1],
            Ok(outs[i]),
        )
}

/// A machine as a run sets it up.
pub open spec fn run_setup(repo: Repo, start: usize, end: usize, m0: Machine) -> bool {
    &&& m0.cur == start
    &&& canon(repo, end) == Some(m0.end_id)
    &&& children_exact(repo, m0.end_id, child_map(m0.children))
    &&& !m0.done
    &&& m0.awaiting is None
}

/// What `Ok` from a run means: some chain of steps from a freshly set-up
/// machine, fed a prefix of the given lines in order, printed exactly this
/// output; `finished` says the last step halted (at the canonical terminal
/// commit), otherwise the fuel ran out.
pub open spec fn run_ok_witness(
    repo: Repo,
    start: usize,
    end: usize,
    ipre: Instance,
    ipost: Instance,
    inputs: Seq<String>,
    fuel: u64,
    o: RunOutcome,
) -> bool {
    exists|ms: Seq<Machine>, ists: Seq<Instance>, ins: Seq<Option<String>>, outs: Seq<StepOut>|
        {
            &&& #[trigger] run_trace(repo, ms, ists, ins, outs)
            &&& run_setup(repo, start, end, ms[0])
            &&& ists[0] == ipre
            &&& ists.last() == ipost
            &&& o.output@ == effects_text(outs)
            &&& some_views(ins).len() <= inputs.len()
            &&& some_views(ins) == seq_strs(inputs).subrange(0, some_views(ins).len() as int)
            &&& (o.finished ==> outs.len() > 0 && outs.last().halted && ms.last().done)
            &&& (!o.finished ==> outs.len() == fuel)
            &&& outs.len() <= fuel
        }
}

/// What `Err` from a run means: setting up failed on an unsettled
/// redirection, or a chain of successful steps ended in one failing step,
/// whose error and canonical cursor identity are reported.
pub open spec fn run_err_witness(
    repo: Repo,
    start: usize,
    end: usize,
    ipre: Instance,
    ipost: Instance,
    inputs: Seq<String>,
    fuel: u64,
    e: RunError,
) -> bool {
    ||| (e.err is RedirectLoop && bad_redirect(repo, end) && e.at == start && ipost == ipre)
    ||| exists|
        ms: Seq<Machine>,
        ists: Seq<Instance>,
        ins: Seq<Option<String>>,
        outs: Seq<StepOut>,
        fin: Option<String>,
        bm: Machine,
    |
        #![trigger run_trace(repo, ms, ists, ins, outs), step_rel(
            repo,
            ms.last(),
            ists.last(),
            fin,
            bm,
            ipost,
            Err(e.err),
        )]
        {
            &&& run_trace(repo, ms, ists, ins, outs)
            &&& run_setup(repo, start, end, ms[0])
            &&& ists[0] == ipre
            &&& step_rel(repo, ms.last(), ists.last(), fin, bm, ipost, Err(e.err))
            &&& e.at == bm.cur
            &&& some_views(ins.push(fin)).len() <= inputs.len()
            &&& some_views(ins.push(fin)) == seq_strs(inputs).subrange(
                0,
                some_views(ins.push(fin)).len() as int,
            )
            &&& outs.len() < fuel
        }
}

impl Instance {
    /// Runs a program: from `start`, through the children index built from
    /// `end`, for at most `fuel` instructions. `inputs` serves `inpln` line
    /// by line (each with its terminator); everything printed is collected
    /// into the outcome, `println` with a newline.
    /// Runs a program: from `start`, through the children index built from
    /// `end`, for at most `fuel` instructions. `inputs` serves `inpln` line
    /// by line (each with its terminator); everything printed is collected
    /// into the outcome, `println` with a newline. The contract ties the
    /// outcome to a trace of `step_rel` transitions.
    #[verifier::rlimit(100)]
    #[verifier::spinoff_prover]
    pub fn run(
        &mut self,
        repo: &Repo,
        start: usize,
        end: usize,
        inputs: Vec<String>,
        fuel: u64,
    ) -> (r: Result<RunOutcome, RunError>)
        requires
            old(self).inv(),
            repo.wf(),
            start < repo.n(),
            end < repo.n(),
        ensures
            final(self).inv(),
            match r {
                Ok(o) => run_ok_witness(
                    *repo,
                    start,
                    end,
                    *old(self),
                    *final(self),
                    inputs@,
                    fuel,
                    o,
                ),
                Err(e) => run_err_witness(
                    *repo,
                    start,
                    end,
                    *old(self),
                    *final(self),
                    inputs@,
                    fuel,
                    e,
                ) && e.at < repo.n(),
            },
    {
        let mut mach = match Machine::new(repo, start, end) {
            Ok(m) => m,
            Err(e) => {
                return Err(RunError { at: start, err: e });
            },
        };
        let mut out = String::new();
        let mut ii: usize = 0;
        let mut steps = fuel;
        let mut needs = false;
        let ghost mut ms: Seq<Machine> = seq![mach];
        let ghost mut ists: Seq<Instance> = seq![*self];
        let ghost mut ins: Seq<Option<String>> = Seq::empty();
        let ghost mut outs: Seq<StepOut> = Seq::empty();
        proof {
            assert(some_views(ins) =~= seq_strs(inputs@).subrange(0, 0));
            assert(out@ =~= effects_text(outs));
        }
        while steps > 0
            invariant
                repo.wf(),
                mach.inv(*repo),
                self.inv(),
                run_trace(*repo, ms, ists, ins, outs),
                run_setup(*repo, start, end, ms[0]),
                ists[0] == *old(self),
                ms.last() == mach,
                ists.last() == *self,
                out@ == effects_text(outs),
                ii <= inputs@.len(),
                some_views(ins).len() == ii,
                some_views(ins) == seq_strs(inputs@).subrange(0, ii as int),
                outs.len() + steps == fuel,
            decreases steps,
        {
            steps = steps - 1;
            let inp: Option<String> = if needs && ii < inputs.len() {
                let l = String::from_str(inputs[ii].as_str());
                ii = ii + 1;
                Some(l)
            } else {
                None
            };
            let ghost inpv = inp;
            let ghost pre_ins = ins;
            proof {
                ins = ins.push(inpv);
                assert(ins.drop_last() =~= pre_ins);
                match inpv {
                    Some(l) => {
                        assert(some_views(ins) =~= some_views(pre_ins).push(l@));
                        assert(some_views(ins) =~= seq_strs(inputs@).subrange(0, ii as int));
                    },
                    None => {
                        assert(some_views(ins) =~= some_views(pre_ins));
                    },
                }
            }
            needs = false;
            let ghost m_pre = mach;
            let ghost i_pre = *self;
            let so = match mach.step(repo, self, inp) {
                Ok(x) => x,
                Err(e) => {
                    let at = mach.cur;
                    proof {
                        assert(run_err_witness(
                            *repo,
                            start,
                            end,
                            *old(self),
                            *self,
                            inputs@,
                            fuel,
                            RunError { at, err: e },
                        )) by {
                            assert(run_trace(*repo, ms, ists, pre_ins, outs));
                            assert(step_rel(
                                *repo,
                                ms.last(),
                                ists.last(),
                                inpv,
                                mach,
                                *self,
                                Err::<StepOut, Error>(e),
                            ));
                            assert(pre_ins.push(inpv) == ins);
                        }
                    }
                    return Err(RunError { at, err: e });
                },
            };
            let ghost pre_ms = ms;
            let ghost pre_ists = ists;
            let ghost pre_outs = outs;
            proof {
                ms = ms.push(mach);
                ists = ists.push(*self);
                outs = outs.push(so);
                assert(step_rel(*repo, m_pre, i_pre, inpv, mach, *self, Ok(so)));
                assert forall|i: int|
                    0 <= i < outs.len() implies #[trigger] step_rel(
                    *repo,
                    ms[i],
                    ists[i],
                    ins[i],
                    ms[i + 1],
                    ists[i + 1],
                    Ok(outs[i]),
                ) by {
                    if i < outs.len() - 1 {
                        assert(step_rel(
                            *repo,
                            pre_ms[i],
                            pre_ists[i],
                            pre_ins[i],
                            pre_ms[i + 1],
                            pre_ists[i + 1],
                            Ok(pre_outs[i]),
                        ));
                    } else {
                        assert(ms[i] == m_pre && ists[i] == i_pre && ins[i] == inpv);
                    }
                }
                assert(outs.drop_last() =~= pre_outs);
            }
            match so.effect {
                Effect::Quiet => {
                    proof {
                        assert(out@ =~= effects_text(outs));
                    }
                },
                Effect::Out(t) => {
                    out.append(t.as_str());
                    proof {
                        assert(out@ =~= effects_text(outs));
                    }
                },
                Effect::OutLine(t) => {
                    out.append(t.as_str());
                    push_char(&mut out, '\n');
                    proof {
                        assert(out@ =~= effects_text(outs));
                    }
                },
                Effect::Want(_) => {
                    needs = true;
                    proof {
                        assert(out@ =~= effects_text(outs));
                    }
                },
            }
            if so.halted {
                proof {
                    lemma_step_halt(*repo, m_pre, i_pre, inpv, mach, *self, so);
                    let o = RunOutcome { output: out, finished: true };
                    assert(run_ok_witness(
                        *repo,
                        start,
                        end,
                        *old(self),
                        *self,
                        inputs@,
                        fuel,
                        o,
                    )) by {
                        assert(run_trace(*repo, ms, ists, ins, outs));
                        assert(outs.last() == so && ms.last() == mach);
                    }
                }
                return Ok(RunOutcome { output: out, finished: true });
            }
        }
        proof {
            let o = RunOutcome { output: out, finished: false };
            assert(run_ok_witness(*repo, start, end, *old(self), *self, inputs@, fuel, o)) by {
                assert(run_trace(*repo, ms, ists, ins, outs));
            }
        }
        Ok(RunOutcome { output: out, finished: false })
    }
}

} // verus!
