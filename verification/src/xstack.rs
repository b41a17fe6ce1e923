use crate::object::{deep_clone, seq_view, Object, ObjectView};
use vstd::prelude::*;

verus! {

/// `s` repeated `n` times, one full pass after the other.
pub open spec fn repeat_seq(s: Seq<ObjectView>, n: nat) -> Seq<ObjectView>
    decreases n,
{
    if n == 0 {
        Seq::empty()
    } else {
        s + repeat_seq(s, (n - 1) as nat)
    }
}

/// A cursor over a procedure body that yields each item once, in order.
pub struct OnceRunner {
    proc: Vec<Object>,
    pc: usize,
}

impl OnceRunner {
    /// The cursor never moves past the end of the body.
    pub closed spec fn wf(&self) -> bool {
        self.pc <= self.proc@.len()
    }

    /// The views of the whole body.
    pub closed spec fn body(&self) -> Seq<ObjectView> {
        seq_view(self.proc@)
    }

    /// The views of the items still to be yielded.
    pub closed spec fn remaining(&self) -> Seq<ObjectView> {
        self.body().skip(self.pc as int)
    }

    /// A runner at the start of the given body.
    pub fn new(proc: Vec<Object>) -> (r: Self)
        ensures
            r.wf(),
            r.body() == seq_view(proc@),
            r.remaining() == seq_view(proc@),
    {
        let r = OnceRunner { proc, pc: 0 };
        proof {
            assert(r.body().skip(0) =~= r.body());
        }
        r
    }

    /// Rewinds the cursor to the start of the body.
    pub fn reset(&mut self)
        ensures
            final(self).wf(),
            final(self).body() == old(self).body(),
            final(self).remaining() == old(self).body(),
    {
        self.pc = 0;
        proof {
            assert(self.body().skip(0) =~= self.body());
        }
    }

    /// The next item of the body, or nothing when it is exhausted.
    pub fn get_object(&mut self) -> (r: Option<Object>)
        requires
            old(self).wf(),
        ensures
            final(self).wf(),
            final(self).body() == old(self).body(),
            old(self).remaining().len() == 0 ==> r is None && final(self).remaining().len() == 0,
            old(self).remaining().len() > 0 ==> match r {
                Some(o) => o@ == old(self).remaining()[0] && final(self).remaining() == old(
                    self,
                ).remaining().skip(1),
                None => false,
            },
    {
        if self.pc < self.proc.len() {
            let o = deep_clone(&self.proc[self.pc]);
            proof {
                assert(old(self).remaining()[0] == self.body()[self.pc as int]);
            }
            self.pc = self.pc + 1;
            proof {
                assert(self.remaining() =~= old(self).remaining().skip(1));
            }
            Some(o)
        } else {
            None
        }
    }
}

/// A cursor that yields a procedure body a fixed number of full passes.
pub struct RepeatRunner {
    runner: OnceRunner,
    times: i64,
}

impl RepeatRunner {
    /// The inner cursor is well formed and the pass count never negative.
    pub closed spec fn wf(&self) -> bool {
        self.runner.wf() && self.times >= 0
    }

    /// The views of the items still to be yielded: the rest of the
    /// current pass, then the body repeated for each remaining pass.
    pub closed spec fn remaining(&self) -> Seq<ObjectView> {
        if self.times <= 0 {
            Seq::empty()
        } else {
            self.runner.remaining() + repeat_seq(self.runner.body(), (self.times - 1) as nat)
        }
    }

    /// A runner that will yield `times` full passes over the body.
    pub fn new(proc: Vec<Object>, times: i64) -> (r: Self)
        requires
            times >= 0,
        ensures
            r.wf(),
            r.remaining() == repeat_seq(seq_view(proc@), times as nat),
    {
        let ghost body = seq_view(proc@);
        let r = RepeatRunner { runner: OnceRunner::new(proc), times };
        proof {
            if times > 0 {
                assert(repeat_seq(body, times as nat) == body + repeat_seq(
                    body,
                    (times - 1) as nat,
                ));
            }
        }
        r
    }

    /// The next item, rewinding to a fresh pass when one ends.
    pub fn get_object(&mut self) -> (r: Option<Object>)
        requires
            old(self).wf(),
        ensures
            final(self).wf(),
            old(self).remaining().len() == 0 ==> r is None && final(self).remaining().len() == 0,
            old(self).remaining().len() > 0 ==> match r {
                Some(o) => o@ == old(self).remaining()[0] && final(self).remaining() == old(
                    self,
                ).remaining().skip(1),
                None => false,
            },
    {
        if self.times == 0 {
            return None;
        }
        let mut object = self.runner.get_object();
        if object.is_none() {
            self.times = self.times - 1;
            if self.times == 0 {
                proof {
                    assert(old(self).remaining() =~= Seq::<ObjectView>::empty());
                }
                return None;
            }
            self.runner.reset();
            object = self.runner.get_object();
            proof {
                let body = self.runner.body();
                let t = old(self).times as int;
                assert(old(self).remaining() =~= repeat_seq(body, (t - 1) as nat));
                assert(repeat_seq(body, (t - 1) as nat) == body + repeat_seq(
                    body,
                    (t - 2) as nat,
                ));
                if body.len() == 0 {
                    lemma_repeat_empty(body, (t - 1) as nat);
                    lemma_repeat_empty(body, (t - 2) as nat);
                    assert(old(self).remaining().len() == 0);
                    assert(self.remaining().len() == 0);
                } else {
                    assert(old(self).remaining()[0] == body[0]);
                    assert(self.remaining() =~= old(self).remaining().skip(1));
                }
            }
            object
        } else {
            proof {
                assert(old(self).remaining()[0] == old(self).runner.remaining()[0]);
                assert(self.remaining() =~= old(self).remaining().skip(1));
            }
            object
        }
    }
}

/// Repeating the empty sequence yields the empty sequence.
proof fn lemma_repeat_empty(s: Seq<ObjectView>, n: nat)
    requires
        s.len() == 0,
    ensures
        repeat_seq(s, n).len() == 0,
    decreases n,
{
    if n > 0 {
        lemma_repeat_empty(s, (n - 1) as nat);
    }
}

/// A deferred unit of work on the execution stack.
pub enum Runner {
    Once(OnceRunner),
    Repeat(RepeatRunner),
}

impl Runner {
    /// Well-formedness of the underlying cursor.
    pub open spec fn wf(&self) -> bool {
        match self {
            Runner::Once(r) => r.wf(),
            Runner::Repeat(r) => r.wf(),
        }
    }

    /// The views of the items still to be yielded.
    pub open spec fn remaining(&self) -> Seq<ObjectView> {
        match self {
            Runner::Once(r) => r.remaining(),
            Runner::Repeat(r) => r.remaining(),
        }
    }

    /// The next item of this runner.
    pub fn get_object(&mut self) -> (r: Option<Object>)
        requires
            old(self).wf(),
        ensures
            final(self).wf(),
            old(self).remaining().len() == 0 ==> r is None && final(self).remaining().len() == 0,
            old(self).remaining().len() > 0 ==> match r {
                Some(o) => o@ == old(self).remaining()[0] && final(self).remaining() == old(
                    self,
                ).remaining().skip(1),
                None => false,
            },
    {
        match self {
            Runner::Once(r) => r.get_object(),
            Runner::Repeat(r) => r.get_object(),
        }
    }
}

/// The objects still to be yielded by a stack of runners, topmost
/// (last-pushed) runner first.
pub open spec fn pending(runners: Seq<Runner>) -> Seq<ObjectView>
    decreases runners.len(),
{
    if runners.len() == 0 {
        Seq::empty()
    } else {
        runners.last().remaining() + pending(runners.drop_last())
    }
}

/// The LIFO collection of deferred runners.  The driver drains it to
/// empty between successive source tokens.
pub struct ExecStack {
    stack: Vec<Runner>,
}

impl View for ExecStack {
    type V = Seq<ObjectView>;

    closed spec fn view(&self) -> Seq<ObjectView> {
        pending(self.stack@)
    }
}

impl ExecStack {
    /// Every runner on the stack is well formed.
    pub closed spec fn wf(&self) -> bool {
        forall|i: int| 0 <= i < self.stack@.len() ==> (#[trigger] self.stack@[i]).wf()
    }

    /// An empty execution stack.
    pub fn new() -> (r: Self)
        ensures
            r.wf(),
            r@ == Seq::<ObjectView>::empty(),
    {
        ExecStack { stack: Vec::new() }
    }

    /// Whether any runner is still on the stack.  An exhausted runner
    /// that has not yet been popped still counts.
    pub fn is_runnable(&self) -> (r: bool)
        ensures
            r == (self.runner_count() > 0),
    {
        self.stack.len() > 0
    }

    /// How many runners are on the stack.
    pub closed spec fn runner_count(&self) -> nat {
        self.stack@.len()
    }

    /// Pushes a runner; its items come before everything already pending.
    pub fn push(&mut self, runner: Runner)
        requires
            old(self).wf(),
            runner.wf(),
        ensures
            final(self).wf(),
            final(self)@ == runner.remaining() + old(self)@,
            final(self).runner_count() == old(self).runner_count() + 1,
    {
        self.stack.push(runner);
        proof {
            assert(self.stack@.drop_last() =~= old(self).stack@);
        }
    }

    /// The next deferred object: the topmost runner yields, and an
    /// exhausted runner is popped so the one below resumes.
    pub fn get_object(&mut self) -> (r: Option<Object>)
        requires
            old(self).wf(),
        ensures
            final(self).wf(),
            old(self)@.len() == 0 ==> r is None && final(self)@.len() == 0,
            old(self)@.len() > 0 ==> match r {
                Some(o) => o@ == old(self)@[0] && final(self)@ == old(self)@.skip(1),
                None => false,
            },
            r is None ==> final(self).runner_count() == 0,
    {
        loop
            invariant
                self.wf(),
                pending(self.stack@) == old(self)@,
            decreases self.stack@.len(),
        {
            if self.stack.len() == 0 {
                return None;
            }
            let ghost pre = self.stack@;
            let top = self.stack.len() - 1;
            let o = vec_last_get(&mut self.stack);
            match o {
                Some(obj) => {
                    proof {
                        assert(pending(pre) == pre.last().remaining() + pending(pre.drop_last()));
                        assert(self.stack@.drop_last() =~= pre.drop_last());
                        assert(self@ =~= old(self)@.skip(1));
                    }
                    return Some(obj);
                }
                None => {
                    proof {
                        assert(pending(pre) == pre.last().remaining() + pending(pre.drop_last()));
                    }
                    self.stack.pop();
                    proof {
                        assert(self.stack@ =~= pre.drop_last());
                    }
                }
            }
        }
    }
}

/// Yields from the last runner of the vector.
fn vec_last_get(stack: &mut Vec<Runner>) -> (r: Option<Object>)
    requires
        old(stack)@.len() > 0,
        forall|i: int| 0 <= i < old(stack)@.len() ==> (#[trigger] old(stack)@[i]).wf(),
    ensures
        final(stack)@.len() == old(stack)@.len(),
        forall|i: int| 0 <= i < final(stack)@.len() ==> (#[trigger] final(stack)@[i]).wf(),
        forall|i: int|
            0 <= i < final(stack)@.len() - 1 ==> final(stack)@[i] == old(stack)@[i],
        final(stack)@.drop_last() == old(stack)@.drop_last(),
        old(stack)@.last().remaining().len() == 0 ==> r is None
            && final(stack)@.last().remaining().len() == 0,
        old(stack)@.last().remaining().len() > 0 ==> match r {
            Some(o) => o@ == old(stack)@.last().remaining()[0]
                && final(stack)@.last().remaining() == old(stack)@.last().remaining().skip(1),
            None => false,
        },
{
    let top = stack.len() - 1;
    let runner = &mut stack[top];
    let r = runner.get_object();
    proof {
        assert(final(stack)@.drop_last() =~= old(stack)@.drop_last());
    }
    r
}

} // verus!
