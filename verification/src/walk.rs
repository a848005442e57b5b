//! Walking a render plan.
//!
//! The walk alternates between plan decisions, made here, and host work
//! (evaluating an expression, choosing a branch, iterating a loop, rendering
//! a foreign node), done by the caller. The caller asks `next` for the next
//! step, performs it, and reports branch choices and loop counts back with
//! `enter`. Every body being walked is addressed by its path from the root
//! body: one `(entry index, branch)` step per level, where the branch of an
//! `If` entry is the branch index, and of a `For` entry `0` (the loop body)
//! or `1` (the `<c-empty>` body).

use vstd::prelude::*;

use crate::render_plan::{PlanNode, RenderPlan};
use crate::text::push_str;

verus! {

/// The body reached from `body` by one step.
pub open spec fn sub_body(body: Seq<PlanNode>, step: (usize, usize)) -> Option<Seq<PlanNode>> {
    if step.0 < body.len() {
        match body[step.0 as int] {
            PlanNode::If { branches, .. } => if step.1 < branches@.len() {
                Some(branches@[step.1 as int]@)
            } else {
                None
            },
            PlanNode::For { loop_body, empty_body, .. } => if step.1 == 0 {
                Some(loop_body@)
            } else if step.1 == 1 {
                match empty_body {
                    Some(e) => Some(e@),
                    None => None,
                }
            } else {
                None
            },
            _ => None,
        }
    } else {
        None
    }
}

/// The body at `path` from `root`, if the path leads to one.
pub open spec fn body_at_path(root: Seq<PlanNode>, path: Seq<(usize, usize)>) -> Option<Seq<PlanNode>>
    decreases path.len(),
{
    if path.len() == 0 {
        Some(root)
    } else {
        match body_at_path(root, path.drop_last()) {
            Some(b) => sub_body(b, path.last()),
            None => None,
        }
    }
}

/// The body at `path` in `plan`.
pub fn body_at<'a>(plan: &'a RenderPlan, path: &Vec<(usize, usize)>) -> (r: &'a Vec<PlanNode>)
    requires
        body_at_path(plan.body@, path@) is Some,
    ensures
        r@ == body_at_path(plan.body@, path@)->Some_0,
{
    let mut cur: &'a Vec<PlanNode> = &plan.body;
    let mut i: usize = 0;
    while i < path.len()
        invariant
            i <= path@.len(),
            body_at_path(plan.body@, path@) is Some,
            body_at_path(plan.body@, path@.take(i as int)) == Some(cur@),
        decreases path@.len() - i,
    {
        proof {
            lemma_path_prefix(plan.body@, path@, i + 1);
            assert(path@.take(i + 1).drop_last() =~= path@.take(i as int));
            assert(path@.take(i + 1).last() == path@[i as int]);
        }
        let (e, b) = path[i];
        let next: &'a Vec<PlanNode> = match &cur[e] {
            PlanNode::If { branches, .. } => &branches[b],
            PlanNode::For { loop_body, empty_body, .. } => {
                if b == 0 {
                    loop_body
                } else {
                    match empty_body {
                        Some(eb) => eb,
                        None => {
                            proof {
                                assert(false);
                            }
                            loop_body
                        },
                    }
                }
            },
            _ => {
                proof {
                    assert(false);
                }
                cur
            },
        };
        cur = next;
        i = i + 1;
    }
    proof {
        assert(path@.take(i as int) =~= path@);
    }
    cur
}

/// Every prefix of a path that leads to a body leads to a body.
proof fn lemma_path_prefix(root: Seq<PlanNode>, path: Seq<(usize, usize)>, n: int)
    requires
        body_at_path(root, path) is Some,
        0 <= n <= path.len(),
    ensures
        body_at_path(root, path.take(n)) is Some,
    decreases path.len() - n,
{
    if n < path.len() {
        lemma_path_prefix(root, path, n + 1);
        assert(path.take(n + 1).drop_last() =~= path.take(n));
    } else {
        assert(path.take(n) =~= path);
    }
}

/// Write what a text entry holds: the caller's part for an `Entry` that is
/// text. Returns whether `n` is text; anything else writes nothing.
pub fn append_text_entry(n: &PlanNode, out: &mut String) -> (wrote: bool)
    ensures
        wrote == (n is Text),
        wrote ==> final(out)@ == old(out)@ + n->Text_0@,
        !wrote ==> final(out)@ == old(out)@,
{
    match n {
        PlanNode::Text(s) => {
            push_str(out, s.as_str());
            true
        },
        _ => false,
    }
}

/// One body being walked: where it is, how far the walk has come, and how
/// many passes over it remain (including the current one).
pub struct Frame {
    pub path: Vec<(usize, usize)>,
    pub pos: usize,
    pub remaining: usize,
}

/// What the caller does next.
#[derive(Debug, Clone, Copy, PartialEq, Eq)]
pub enum Action {
    /// Handle entry `idx` of the current body (`body_at(plan, current path)`).
    Entry(usize),
    /// The current loop body starts its next pass: switch to the next
    /// iteration's scope.
    NextIteration,
    /// The current body is done: return to the body that entered it.
    ExitBody,
    /// The whole plan has been walked.
    Done,
}

/// Whether `now` is `before` with one more frame on top: branch `branch` of
/// the entry `before`'s innermost frame just handed out, to be walked
/// `times` times, from its start.
pub open spec fn pushed_branch(before: Seq<Frame>, now: Seq<Frame>, branch: usize, times: usize) -> bool {
    &&& before.len() > 0
    &&& now.len() == before.len() + 1
    &&& now.drop_last() == before
    &&& now.last().pos == 0
    &&& now.last().remaining == times
    &&& now.last().path@ == before.last().path@.push(((before.last().pos - 1) as usize, branch))
}

/// Whether the entry the innermost frame of `frames` just handed out has a
/// branch `branch` (a branch of an `If`; the loop body or the empty body of a
/// `For`).
pub open spec fn can_enter(plan: &RenderPlan, frames: Seq<Frame>, branch: usize) -> bool {
    &&& frames.len() > 0
    &&& frames.last().pos >= 1
    &&& sub_body(
        body_at_path(plan.body@, frames.last().path@)->Some_0,
        ((frames.last().pos - 1) as usize, branch),
    ) is Some
}

/// How a `For` entry is walked.
#[derive(Debug, Clone, Copy, PartialEq, Eq)]
pub enum LoopChoice {
    /// The loop body, once per iteration.
    Loop,
    /// The `<c-empty>` body, once.
    Empty,
    /// Neither.
    Skip,
}

/// A walk in progress: the stack of bodies being walked, innermost last.
pub struct Walker {
    pub frames: Vec<Frame>,
}

impl Walker {
    /// Whether every frame stands in a body of `plan`, each inner body was
    /// entered from the entry its parent frame just handed out.
    #[verifier::opaque]
    pub open spec fn wf(&self, plan: &RenderPlan) -> bool {
        &&& forall|k: int|
            0 <= k < self.frames@.len() ==> {
                let f = #[trigger] self.frames@[k];
                &&& body_at_path(plan.body@, f.path@) matches Some(b) && f.pos <= b.len()
                &&& f.remaining >= 1
            }
        &&& forall|k: int|
            0 <= k < self.frames@.len() - 1 ==> {
                let f = #[trigger] self.frames@[k];
                let g = self.frames@[k + 1];
                &&& g.path@.len() == f.path@.len() + 1
                &&& g.path@.drop_last() == f.path@
                &&& g.path@.last().0 + 1 == f.pos
            }
        &&& self.frames@.len() > 0 ==> self.frames@[0].path@.len() == 0
    }

    /// A walk at the start of the root body of `plan`.
    pub fn new(plan: &RenderPlan) -> (w: Walker)
        ensures
            w.wf(plan),
            w.frames@.len() == 1,
            w.frames@[0].pos == 0,
            w.frames@[0].remaining == 1,
    {
        let mut frames: Vec<Frame> = Vec::new();
        frames.push(Frame { path: Vec::new(), pos: 0, remaining: 1 });
        let w = Walker { frames };
        proof {
            reveal(Walker::wf);
            assert(w.frames@[0].path@ =~= Seq::<(usize, usize)>::empty());
        }
        w
    }

    /// The path of the body being walked.
    pub fn current_path(&self) -> (r: &Vec<(usize, usize)>)
        requires
            self.frames@.len() > 0,
        ensures
            r@ == self.frames@.last().path@,
    {
        &self.frames[self.frames.len() - 1].path
    }

    /// Advance the walk by one step.
    pub fn next(&mut self, plan: &RenderPlan) -> (a: Action)
        requires
            old(self).wf(plan),
        ensures
            final(self).wf(plan),
            old(self).frames@.len() == 0 ==> a == Action::Done && final(self).frames@.len() == 0,
            old(self).frames@.len() > 0 ==> {
                let f = old(self).frames@.last();
                let n = old(self).frames@.len();
                let len = body_at_path(plan.body@, f.path@)->Some_0.len();
                if f.pos < len {
                    &&& a == Action::Entry(f.pos)
                    &&& final(self).frames@.len() == n
                    &&& final(self).frames@.drop_last() == old(self).frames@.drop_last()
                    &&& final(self).frames@.last().path@ == f.path@
                    &&& final(self).frames@.last().pos == f.pos + 1
                    &&& final(self).frames@.last().remaining == f.remaining
                } else if f.remaining > 1 {
                    &&& a == Action::NextIteration
                    &&& final(self).frames@.len() == n
                    &&& final(self).frames@.drop_last() == old(self).frames@.drop_last()
                    &&& final(self).frames@.last().path@ == f.path@
                    &&& final(self).frames@.last().pos == 0
                    &&& final(self).frames@.last().remaining == f.remaining - 1
                } else {
                    &&& a == Action::ExitBody
                    &&& final(self).frames@ == old(self).frames@.drop_last()
                }
            },
    {
        let n = self.frames.len();
        if n == 0 {
            return Action::Done;
        }
        proof {
            reveal(Walker::wf);
            assert(self.frames@[n - 1] == self.frames@.last());
        }
        let len = body_at(plan, &self.frames[n - 1].path).len();
        let pos = self.frames[n - 1].pos;
        let remaining = self.frames[n - 1].remaining;
        if pos < len {
            let f = self.frames.pop().unwrap();
            let ghost fpath = f.path@;
            let ghost mid = self.frames@;
            self.frames.push(Frame { path: f.path, pos: pos + 1, remaining });
            proof {
                self.lemma_wf_after_replace(old(self), plan, n);
                assert(mid =~= old(self).frames@.drop_last());
                assert(self.frames@.drop_last() =~= mid);
            }
            Action::Entry(pos)
        } else if remaining > 1 {
            let f = self.frames.pop().unwrap();
            let ghost mid = self.frames@;
            self.frames.push(Frame { path: f.path, pos: 0, remaining: remaining - 1 });
            proof {
                self.lemma_wf_after_restart(old(self), plan, n);
                assert(mid =~= old(self).frames@.drop_last());
                assert(self.frames@.drop_last() =~= mid);
            }
            Action::NextIteration
        } else {
            self.frames.pop();
            proof {
                reveal(Walker::wf);
                assert(self.frames@ =~= old(self).frames@.drop_last());
                assert forall|k: int| 0 <= k < self.frames@.len() - 1 implies {
                    let f = #[trigger] self.frames@[k];
                    let g = self.frames@[k + 1];
                    &&& g.path@.len() == f.path@.len() + 1
                    &&& g.path@.drop_last() == f.path@
                    &&& g.path@.last().0 + 1 == f.pos
                } by {
                    assert(self.frames@[k] == old(self).frames@[k]);
                    assert(self.frames@[k + 1] == old(self).frames@[k + 1]);
                }
                assert forall|k: int| 0 <= k < self.frames@.len() implies {
                    let f = #[trigger] self.frames@[k];
                    &&& body_at_path(plan.body@, f.path@) matches Some(b) && f.pos <= b.len()
                    &&& f.remaining >= 1
                } by {
                    assert(self.frames@[k] == old(self).frames@[k]);
                }
            }
            Action::ExitBody
        }
    }

    proof fn lemma_wf_after_replace(&self, old_w: &Walker, plan: &RenderPlan, n: usize)
        requires
            old_w.wf(plan),
            n == old_w.frames@.len() > 0,
            self.frames@.len() == n,
            forall|k: int| 0 <= k < n - 1 ==> self.frames@[k] == old_w.frames@[k],
            self.frames@[n - 1].path@ == old_w.frames@[n - 1].path@,
            self.frames@[n - 1].remaining == old_w.frames@[n - 1].remaining,
            self.frames@[n - 1].pos == old_w.frames@[n - 1].pos + 1,
            old_w.frames@[n - 1].pos < body_at_path(
                plan.body@,
                old_w.frames@[n - 1].path@,
            )->Some_0.len(),
        ensures
            self.wf(plan),
    {
        reveal(Walker::wf);
        assert forall|k: int| 0 <= k < self.frames@.len() implies {
            let f = #[trigger] self.frames@[k];
            &&& body_at_path(plan.body@, f.path@) matches Some(b) && f.pos <= b.len()
            &&& f.remaining >= 1
        } by {
            let _ = old_w.frames@[k];
        }
        assert forall|k: int| 0 <= k < self.frames@.len() - 1 implies {
            let f = #[trigger] self.frames@[k];
            let g = self.frames@[k + 1];
            &&& g.path@.len() == f.path@.len() + 1
            &&& g.path@.drop_last() == f.path@
            &&& g.path@.last().0 + 1 == f.pos
        } by {
            let _ = old_w.frames@[k];
        }
        if n == 1 {
            let _ = old_w.frames@[0];
        }
    }

    proof fn lemma_wf_after_restart(&self, old_w: &Walker, plan: &RenderPlan, n: usize)
        requires
            old_w.wf(plan),
            n == old_w.frames@.len() > 0,
            self.frames@.len() == n,
            forall|k: int| 0 <= k < n - 1 ==> self.frames@[k] == old_w.frames@[k],
            self.frames@[n - 1].path@ == old_w.frames@[n - 1].path@,
            self.frames@[n - 1].remaining >= 1,
            self.frames@[n - 1].pos == 0,
        ensures
            self.wf(plan),
    {
        reveal(Walker::wf);
        assert forall|k: int| 0 <= k < self.frames@.len() implies {
            let f = #[trigger] self.frames@[k];
            &&& body_at_path(plan.body@, f.path@) matches Some(b) && f.pos <= b.len()
            &&& f.remaining >= 1
        } by {
            let _ = old_w.frames@[k];
        }
        assert forall|k: int| 0 <= k < self.frames@.len() - 1 implies {
            let f = #[trigger] self.frames@[k];
            let g = self.frames@[k + 1];
            &&& g.path@.len() == f.path@.len() + 1
            &&& g.path@.drop_last() == f.path@
            &&& g.path@.last().0 + 1 == f.pos
        } by {
            let _ = old_w.frames@[k];
        }
        if n == 1 {
            let _ = old_w.frames@[0];
        }
    }

    proof fn lemma_wf_after_push(
        &self,
        old_w: &Walker,
        plan: &RenderPlan,
        n: usize,
        e: usize,
        branch: usize,
    )
        requires
            old_w.wf(plan),
            n == old_w.frames@.len() > 0,
            self.frames@.len() == n + 1,
            self.frames@.drop_last() == old_w.frames@,
            self.frames@[n as int].path@ == old_w.frames@[n - 1].path@.push((e, branch)),
            self.frames@[n as int].pos == 0,
            self.frames@[n as int].remaining >= 1,
            e + 1 == old_w.frames@[n - 1].pos,
            sub_body(
                body_at_path(plan.body@, old_w.frames@[n - 1].path@)->Some_0,
                (e, branch),
            ) is Some,
        ensures
            self.wf(plan),
    {
        reveal(Walker::wf);
        let p = self.frames@[n as int].path@;
        assert(p.drop_last() =~= old_w.frames@[n - 1].path@);
        assert(p.last() == (e, branch));
        assert forall|k: int| 0 <= k < self.frames@.len() implies {
            let f = #[trigger] self.frames@[k];
            &&& body_at_path(plan.body@, f.path@) matches Some(b) && f.pos <= b.len()
            &&& f.remaining >= 1
        } by {
            if k < n {
                assert(self.frames@[k] == self.frames@.drop_last()[k]);
                let _ = old_w.frames@[k];
            }
        }
        assert forall|k: int| 0 <= k < self.frames@.len() - 1 implies {
            let f = #[trigger] self.frames@[k];
            let g = self.frames@[k + 1];
            &&& g.path@.len() == f.path@.len() + 1
            &&& g.path@.drop_last() == f.path@
            &&& g.path@.last().0 + 1 == f.pos
        } by {
            assert(self.frames@[k] == self.frames@.drop_last()[k]);
            let _ = old_w.frames@[k];
            if k + 1 < n {
                assert(self.frames@[k + 1] == self.frames@.drop_last()[k + 1]);
                let _ = old_w.frames@[k + 1];
            }
        }
        assert(self.frames@[0] == self.frames@.drop_last()[0]);
        let _ = old_w.frames@[0];
    }

    /// Enter branch `branch` of the entry just handed out, to be walked
    /// `times` times. Returns whether that entry has such a branch (an `If`
    /// with that many branches, or a `For` with that body); when it has not,
    /// the walk is unchanged.
    pub fn enter(&mut self, plan: &RenderPlan, branch: usize, times: usize) -> (entered: bool)
        requires
            old(self).wf(plan),
            times >= 1,
        ensures
            final(self).wf(plan),
            entered ==> pushed_branch(old(self).frames@, final(self).frames@, branch, times),
            !entered ==> final(self).frames@ == old(self).frames@,
            can_enter(plan, old(self).frames@, branch) ==> entered,
    {
        let n = self.frames.len();
        if n == 0 {
            return false;
        }
        let pos = self.frames[n - 1].pos;
        if pos == 0 {
            return false;
        }
        proof {
            reveal(Walker::wf);
            assert(self.frames@[n - 1] == self.frames@.last());
        }
        let body = body_at(plan, &self.frames[n - 1].path);
        let e = pos - 1;
        let ok = match &body[e] {
            PlanNode::If { branches, .. } => branch < branches.len(),
            PlanNode::For { empty_body, .. } => branch == 0 || (branch == 1 && empty_body.is_some()),
            _ => false,
        };
        if !ok {
            return false;
        }
        let mut path: Vec<(usize, usize)> = Vec::new();
        let parent = &self.frames[n - 1].path;
        let mut i: usize = 0;
        while i < parent.len()
            invariant
                i <= parent@.len(),
                path@ == parent@.take(i as int),
            decreases parent@.len() - i,
        {
            path.push(parent[i]);
            i = i + 1;
            proof {
                assert(path@ =~= parent@.take(i as int));
            }
        }
        proof {
            assert(parent@.take(i as int) =~= parent@);
        }
        path.push((e, branch));
        let ghost parent_path = parent@;
        self.frames.push(Frame { path, pos: 0, remaining: times });
        proof {
            assert(self.frames@.last().path@.drop_last() =~= parent_path);
            assert(self.frames@.drop_last() =~= old(self).frames@);
            self.lemma_wf_after_push(old(self), plan, n, e, branch);
        }
        true
    }

    /// Enter the branch the host selected for the `If` entry just handed
    /// out: `selected` is its index, negative when no branch is taken, in
    /// which case nothing is entered.
    pub fn enter_selected(&mut self, plan: &RenderPlan, selected: isize) -> (entered: bool)
        requires
            old(self).wf(plan),
        ensures
            final(self).wf(plan),
            entered ==> selected >= 0 && pushed_branch(
                old(self).frames@,
                final(self).frames@,
                selected as usize,
                1,
            ),
            !entered ==> final(self).frames@ == old(self).frames@,
            selected >= 0 && can_enter(plan, old(self).frames@, selected as usize) ==> entered,
    {
        if selected < 0 {
            return false;
        }
        self.enter(plan, selected as usize, 1)
    }

    /// Walk the `For` entry just handed out: its loop body `count` times when
    /// the iterable has items, else its `<c-empty>` body once when the host
    /// has a scope for it (`empty_ready`), else nothing.
    pub fn enter_loop(&mut self, plan: &RenderPlan, count: usize, empty_ready: bool) -> (c:
        LoopChoice)
        requires
            old(self).wf(plan),
        ensures
            final(self).wf(plan),
            c == LoopChoice::Loop ==> count > 0 && pushed_branch(
                old(self).frames@,
                final(self).frames@,
                0,
                count,
            ),
            c == LoopChoice::Empty ==> count == 0 && empty_ready && pushed_branch(
                old(self).frames@,
                final(self).frames@,
                1,
                1,
            ),
            c == LoopChoice::Skip ==> final(self).frames@ == old(self).frames@,
            count > 0 && can_enter(plan, old(self).frames@, 0) ==> c == LoopChoice::Loop,
            count == 0 && empty_ready && can_enter(plan, old(self).frames@, 1) ==> c
                == LoopChoice::Empty,
    {
        if count > 0 {
            if self.enter(plan, 0, count) {
                LoopChoice::Loop
            } else {
                LoopChoice::Skip
            }
        } else if empty_ready {
            if self.enter(plan, 1, 1) {
                LoopChoice::Empty
            } else {
                LoopChoice::Skip
            }
        } else {
            LoopChoice::Skip
        }
    }
}

} // verus!
