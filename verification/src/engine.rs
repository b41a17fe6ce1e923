use crate::dstack::{lookup, system_map, DictStack};
use crate::error::PsError;
use crate::object::{text_of, Object, ObjectMode, ObjectView, Operator};
use crate::stack::{
    add_step, clear_to_mark_step, cond_if_step, cond_ifelse_step, copy_step, count_to_mark_step,
    def_step, div_step, dup_step, eq_step, exch_step, exec_step, gt_step, index_step,
    make_array_step, mod_step, mul_step, ne_step, pop_step, popn, pstack_lines, repeat_step,
    roll_step, sub_step, Stack,
};
use crate::xstack::{ExecStack, OnceRunner, Runner};
use vstd::prelude::*;

verus! {

/// The whole machine as mathematics: the operand stack, the dictionary
/// layers bottom-first, the objects still pending on the execution
/// stack, and the output lines so far.
pub struct MachineView {
    pub ostack: Seq<ObjectView>,
    pub dicts: Seq<Map<Seq<char>, ObjectView>>,
    pub pending: Seq<ObjectView>,
    pub out: Seq<Seq<char>>,
}

/// A step that only touches the operand stack, lifted to the machine.
pub open spec fn lift_stack(
    st: (Result<(), PsError>, Seq<ObjectView>),
    m: MachineView,
) -> (Result<(), PsError>, MachineView) {
    (st.0, MachineView { ostack: st.1, ..m })
}

/// A step that touches the operand stack and the execution stack.
pub open spec fn lift_control(
    st: (Result<(), PsError>, Seq<ObjectView>, Seq<ObjectView>),
    m: MachineView,
) -> (Result<(), PsError>, MachineView) {
    (st.0, MachineView { ostack: st.1, pending: st.2, ..m })
}

/// `load`: the literal name on top replaced by what it is bound to.
pub open spec fn load_step(m: MachineView) -> (Result<(), PsError>, MachineView) {
    if m.ostack.len() < 1 {
        (Err(PsError::UnderflowError), m)
    } else {
        match m.ostack.last() {
            ObjectView::Name(ObjectMode::Literal, n) => match lookup(m.dicts, n) {
                Some(v) => (
                    Ok(()),
                    MachineView { ostack: popn(m.ostack, 1).push(v), ..m },
                ),
                None => (
                    Err(PsError::UndefinedName),
                    MachineView { ostack: popn(m.ostack, 1), ..m },
                ),
            },
            _ => (Err(PsError::TypeError), MachineView { ostack: popn(m.ostack, 1), ..m }),
        }
    }
}

/// `=`: the top operand printed in canonical form on a line of its own.
pub open spec fn pop_and_print_step(m: MachineView) -> (Result<(), PsError>, MachineView) {
    if m.ostack.len() < 1 {
        (Err(PsError::UnderflowError), m)
    } else {
        (
            Ok(()),
            MachineView {
                ostack: popn(m.ostack, 1),
                out: m.out.push(text_of(m.ostack.last())),
                ..m
            },
        )
    }
}

/// What each built-in operator does to the machine.
pub open spec fn op_step(op: Operator, m: MachineView) -> (Result<(), PsError>, MachineView) {
    match op {
        Operator::Add => lift_stack(add_step(m.ostack), m),
        Operator::Sub => lift_stack(sub_step(m.ostack), m),
        Operator::Mul => lift_stack(mul_step(m.ostack), m),
        Operator::Div => lift_stack(div_step(m.ostack), m),
        Operator::Mod => lift_stack(mod_step(m.ostack), m),
        Operator::Gt => lift_stack(gt_step(m.ostack), m),
        Operator::Eq => lift_stack(eq_step(m.ostack), m),
        Operator::Ne => lift_stack(ne_step(m.ostack), m),
        Operator::Dup => lift_stack(dup_step(m.ostack), m),
        Operator::Pop => lift_stack(pop_step(m.ostack), m),
        Operator::Exch => lift_stack(exch_step(m.ostack), m),
        Operator::Copy => lift_stack(copy_step(m.ostack), m),
        Operator::Index => lift_stack(index_step(m.ostack), m),
        Operator::Roll => lift_stack(roll_step(m.ostack), m),
        Operator::Clear => (Ok(()), MachineView { ostack: Seq::empty(), ..m }),
        Operator::ClearToMark => lift_stack(clear_to_mark_step(m.ostack), m),
        Operator::CountToMark => lift_stack(count_to_mark_step(m.ostack), m),
        Operator::EndArray => lift_stack(make_array_step(m.ostack, ObjectMode::Literal), m),
        Operator::Def => {
            let st = def_step(m.ostack, m.dicts);
            (st.0, MachineView { ostack: st.1, dicts: st.2, ..m })
        },
        Operator::Load => load_step(m),
        Operator::Exec => lift_control(exec_step(m.ostack, m.pending), m),
        Operator::If => lift_control(cond_if_step(m.ostack, m.pending), m),
        Operator::IfElse => lift_control(cond_ifelse_step(m.ostack, m.pending), m),
        Operator::Repeat => lift_control(repeat_step(m.ostack, m.pending), m),
        Operator::PopAndPrint => pop_and_print_step(m),
        Operator::Pstack => (
            Ok(()),
            MachineView { out: m.out + pstack_lines(m.ostack), ..m },
        ),
    }
}

/// What evaluating one object does to the machine: executable names bind
/// through the dictionary stack, operators run, and everything else is
/// pushed on the operand stack.
pub open spec fn eval_step(o: ObjectView, m: MachineView) -> (Result<(), PsError>, MachineView) {
    match o {
        ObjectView::Name(ObjectMode::Executable, n) => match lookup(m.dicts, n) {
            None => (Err(PsError::UndefinedName), m),
            Some(b) => match b {
                ObjectView::Array(ObjectMode::Executable, items) => (
                    Ok(()),
                    MachineView { pending: items + m.pending, ..m },
                ),
                ObjectView::Operator(ObjectMode::Executable, op) => op_step(op, m),
                other => (Ok(()), MachineView { pending: seq![other] + m.pending, ..m }),
            },
        },
        ObjectView::Operator(ObjectMode::Executable, op) => op_step(op, m),
        other => (Ok(()), MachineView { ostack: m.ostack.push(other), ..m }),
    }
}

/// The outcome of draining the deferred work, step-indexed: each
/// evaluated object costs one unit of budget.
pub enum Drained {
    /// Nothing was pending any more; the unused budget comes back.
    Done(MachineView),
    /// A step failed and evaluation stopped with the state as it stood.
    Failed(PsError, MachineView),
    /// The budget ran out first.
    Out,
}

/// Draining as mathematics: the first pending object is evaluated, then
/// the rest, until nothing is pending, a step fails, or the budget runs
/// out.  The machine is deterministic: the budget only decides how far
/// the trace is followed.
pub open spec fn drain_run(m: MachineView, fuel: nat) -> (Drained, nat)
    decreases fuel,
{
    if m.pending.len() == 0 {
        (Drained::Done(m), fuel)
    } else if fuel == 0 {
        (Drained::Out, 0nat)
    } else {
        let o = m.pending[0];
        let m1 = MachineView { pending: m.pending.skip(1), ..m };
        let st = eval_step(o, m1);
        match st.0 {
            Ok(()) => drain_run(st.1, (fuel - 1) as nat),
            Err(e) => (Drained::Failed(e, st.1), 0nat),
        }
    }
}

/// The evaluation engine: one operand stack, one dictionary stack, one
/// execution stack, and the output buffer its printing operators fill.
pub struct Engine {
    exec_stack: ExecStack,
    dict_stack: DictStack,
    main_stack: Stack,
    output: Vec<String>,
}

impl View for Engine {
    type V = MachineView;

    closed spec fn view(&self) -> MachineView {
        MachineView {
            ostack: self.main_stack@,
            dicts: self.dict_stack@,
            pending: self.exec_stack@,
            out: self.output.deep_view(),
        }
    }
}

impl Engine {
    /// The shape an engine keeps: a well-formed dictionary stack (the
    /// system dictionary at the bottom) and well-formed runners.
    pub closed spec fn wf(&self) -> bool {
        self.dict_stack.wf() && self.exec_stack.wf()
    }

    /// The dictionary-stack shape, stated on the view.
    pub open spec fn dicts_wf(m: MachineView) -> bool {
        m.dicts.len() >= 2 && m.dicts[0] == system_map()
    }

    /// A fresh engine: empty stacks, the two standard dictionary layers,
    /// no output.
    pub fn new() -> (r: Self)
        ensures
            r.wf(),
            Self::dicts_wf(r@),
            r@.ostack == Seq::<ObjectView>::empty(),
            r@.dicts == seq![system_map(), Map::<Seq<char>, ObjectView>::empty()],
            r@.pending == Seq::<ObjectView>::empty(),
            r@.out == Seq::<Seq<char>>::empty(),
    {
        let r = Engine {
            exec_stack: ExecStack::new(),
            dict_stack: DictStack::new(),
            main_stack: Stack::new(),
            output: Vec::new(),
        };
        proof {
            assert(r@.dicts =~= seq![system_map(), Map::<Seq<char>, ObjectView>::empty()]);
            assert(r@.out =~= Seq::<Seq<char>>::empty());
        }
        r
    }

    /// How many operands are on the operand stack.
    pub fn get_stack_size(&self) -> (n: usize)
        ensures
            n == self@.ostack.len(),
    {
        self.main_stack.len()
    }

    /// A reference to the operand at position `i` (0 is the bottom).
    pub fn get_stack_object(&self, i: usize) -> (r: &Object)
        requires
            i < self@.ostack.len(),
        ensures
            r@ == self@.ostack[i as int],
    {
        self.main_stack.get(i)
    }

    /// Pushes an object on the operand stack.
    pub fn push(&mut self, object: Object)
        requires
            old(self).wf(),
        ensures
            final(self).wf(),
            final(self)@ == (MachineView { ostack: old(self)@.ostack.push(object@), ..old(self)@ }),
    {
        self.main_stack.push(object);
    }

    /// Looks a name up through the dictionary stack.
    pub fn get_object_by_name(&self, name: &str) -> (r: Option<Object>)
        ensures
            match r {
                Some(o) => lookup(self@.dicts, name@) == Some(o@),
                None => lookup(self@.dicts, name@) is None,
            },
    {
        self.dict_stack.get(name)
    }

    /// Takes the collected output lines, leaving the buffer empty.
    pub fn take_output(&mut self) -> (r: Vec<String>)
        requires
            old(self).wf(),
        ensures
            final(self).wf(),
            r.deep_view() == old(self)@.out,
            final(self)@ == (MachineView { out: Seq::<Seq<char>>::empty(), ..old(self)@ }),
    {
        let mut taken: Vec<String> = Vec::new();
        core::mem::swap(&mut taken, &mut self.output);
        proof {
            assert(self@.out =~= Seq::<Seq<char>>::empty());
        }
        taken
    }

    /// Runs one built-in operator (see [`op_step`]).
    pub fn run_operator(&mut self, op: Operator) -> (r: Result<(), PsError>)
        requires
            old(self).wf(),
        ensures
            final(self).wf(),
            r == op_step(op, old(self)@).0,
            final(self)@ == op_step(op, old(self)@).1,
    {
        let r = match op {
            Operator::Add => self.main_stack.add(),
            Operator::Sub => self.main_stack.sub(),
            Operator::Mul => self.main_stack.mul(),
            Operator::Div => self.main_stack.div(),
            Operator::Mod => self.main_stack.modulo(),
            Operator::Gt => self.main_stack.gt(),
            Operator::Eq => self.main_stack.eq(),
            Operator::Ne => self.main_stack.ne(),
            Operator::Dup => self.main_stack.dup(),
            Operator::Pop => self.main_stack.pop(),
            Operator::Exch => self.main_stack.exch(),
            Operator::Copy => self.main_stack.copy(),
            Operator::Index => self.main_stack.index(),
            Operator::Roll => self.main_stack.roll(),
            Operator::Clear => self.main_stack.clear(),
            Operator::ClearToMark => self.main_stack.clear_to_mark(),
            Operator::CountToMark => self.main_stack.count_to_mark(),
            Operator::EndArray => self.main_stack.make_array(),
            Operator::Def => self.main_stack.def(&mut self.dict_stack),
            Operator::Load => self.load(),
            Operator::Exec => self.main_stack.exec(&mut self.exec_stack),
            Operator::If => self.main_stack.cond_if(&mut self.exec_stack),
            Operator::IfElse => self.main_stack.cond_ifelse(&mut self.exec_stack),
            Operator::Repeat => self.main_stack.repeat(&mut self.exec_stack),
            Operator::PopAndPrint => self.main_stack.pop_and_print(&mut self.output),
            Operator::Pstack => self.main_stack.print_stack(&mut self.output),
        };
        proof {
            let st = op_step(op, old(self)@);
            assert(self@ == st.1);
            assert(r == st.0);
        }
        r
    }

    /// `load` (see [`load_step`]).
    pub fn load(&mut self) -> (r: Result<(), PsError>)
        requires
            old(self).wf(),
        ensures
            final(self).wf(),
            (r, final(self)@) == load_step(old(self)@),
    {
        let n = self.main_stack.len();
        if n == 0 {
            return Err(PsError::UnderflowError);
        }
        let top_is_litname = matches!(self.main_stack.get(n - 1), Object::Name(
            ObjectMode::Literal,
            _,
        ));
        if !top_is_litname {
            let _ = self.main_stack.pop();
            return Err(PsError::TypeError);
        }
        let found: Option<Object> = match self.main_stack.get(n - 1) {
            Object::Name(_, name) => self.dict_stack.get(name.as_str()),
            _ => None,
        };
        let _ = self.main_stack.pop();
        match found {
            Some(object) => {
                self.main_stack.push(object);
                Ok(())
            }
            None => Err(PsError::UndefinedName),
        }
    }

    /// Evaluates one object (see [`eval_step`]).
    pub fn process_object(&mut self, object: Object) -> (r: Result<(), PsError>)
        requires
            old(self).wf(),
        ensures
            final(self).wf(),
            (r, final(self)@) == eval_step(object@, old(self)@),
    {
        match object {
            Object::Name(ObjectMode::Executable, name) => {
                match self.dict_stack.get(name.as_str()) {
                    Some(obj) => match obj {
                        Object::Array(ObjectMode::Executable, proc) => {
                            let ghost pv = proc@;
                            proof {
                                crate::object::lemma_array_view(ObjectMode::Executable, proc);
                            }
                            self.exec_stack.push(Runner::Once(OnceRunner::new(proc)));
                            Ok(())
                        }
                        Object::Operator(ObjectMode::Executable, op) => self.run_operator(op),
                        other => {
                            let ghost ov = other@;
                            let mut single: Vec<Object> = Vec::new();
                            single.push(other);
                            proof {
                                assert(crate::object::seq_view(single@) =~= seq![ov]);
                            }
                            self.exec_stack.push(Runner::Once(OnceRunner::new(single)));
                            Ok(())
                        }
                    },
                    None => Err(PsError::UndefinedName),
                }
            }
            Object::Operator(ObjectMode::Executable, op) => self.run_operator(op),
            other => {
                self.main_stack.push(other);
                Ok(())
            }
        }
    }

    /// Drains the execution stack: the topmost runner yields objects and
    /// each is evaluated in turn until nothing is pending or a step
    /// fails.  A step budget, far beyond anything a program can use up,
    /// keeps every run finite.
    pub fn process_execution_stack(&mut self) -> (r: Result<(), PsError>)
        requires
            old(self).wf(),
        ensures
            final(self).wf(),
            old(self)@.out.is_prefix_of(final(self)@.out),
            match r {
                Ok(()) => final(self)@.pending == Seq::<ObjectView>::empty() && exists|fuel: nat|
                    drain_run(old(self)@, fuel) == (Drained::Done(final(self)@), 0nat),
                Err(e) => e == PsError::LimitError || exists|fuel: nat|
                    drain_run(old(self)@, fuel) == (Drained::Failed(e, final(self)@), 0nat),
            },
            r == Err::<(), PsError>(PsError::LimitError) ==> forall|f: nat|
                f < u64::MAX as nat ==> (#[trigger] drain_run(old(self)@, f)).0 is Out,
    {
        let mut fuel: u64 = u64::MAX;
        let ghost mut used: nat = 0nat;
        proof {
            assert(self@.out.subrange(0, self@.out.len() as int) =~= self@.out);
        }
        while fuel > 0
            invariant
                self.wf(),
                old(self)@.out.is_prefix_of(self@.out),
                used + fuel == u64::MAX as nat,
                forall|f: nat| drain_run(old(self)@, (used + f) as nat) == drain_run(self@, f),
                forall|f: nat| f < used ==> (#[trigger] drain_run(old(self)@, f)).0 is Out,
            decreases fuel,
        {
            fuel = fuel - 1;
            let ghost mid = self@;
            match self.exec_stack.get_object() {
                Some(object) => {
                    let ghost got = self@;
                    let ghost ov = object@;
                    proof {
                        assert(mid.pending.len() > 0);
                        assert(got == (MachineView { pending: mid.pending.skip(1), ..mid }));
                    }
                    match self.process_object(object) {
                        Ok(()) => {
                            proof {
                                lemma_eval_step_extends_out(ov, got);
                                lemma_prefix_trans(old(self)@.out, got.out, self@.out);
                                assert forall|f: nat|
                                    drain_run(old(self)@, (used + 1 + f) as nat) == drain_run(
                                        self@,
                                        f,
                                    ) by {
                                    assert(drain_run(old(self)@, (used + (1 + f)) as nat)
                                        == drain_run(mid, (1 + f) as nat));
                                    assert(drain_run(mid, (1 + f) as nat) == drain_run(self@, f));
                                }
                                assert(drain_run(old(self)@, (used + 0) as nat) == drain_run(
                                    mid,
                                    0nat,
                                ));
                                assert(drain_run(mid, 0nat).0 is Out);
                                assert forall|f: nat| f < used + 1 implies (#[trigger] drain_run(
                                    old(self)@,
                                    f,
                                )).0 is Out by {
                                    if f == used {
                                        assert(drain_run(old(self)@, f) == drain_run(mid, 0nat));
                                    }
                                }
                                used = (used + 1) as nat;
                            }
                        },
                        Err(e) => {
                            proof {
                                lemma_eval_step_extends_out(ov, got);
                                lemma_prefix_trans(old(self)@.out, got.out, self@.out);
                                lemma_eval_step_no_limit(ov, got);
                                assert(drain_run(old(self)@, (used + 1) as nat) == drain_run(
                                    mid,
                                    1nat,
                                ));
                                assert(drain_run(mid, 1nat) == (Drained::Failed(e, self@), 0nat));
                            }
                            return Err(e);
                        }
                    }
                }
                None => {
                    proof {
                        assert(self@.pending =~= mid.pending);
                        assert(self@ == mid);
                        assert(drain_run(mid, 0nat) == (Drained::Done(mid), 0nat));
                        assert(drain_run(old(self)@, (used + 0) as nat) == drain_run(mid, 0nat));
                    }
                    return Ok(());
                }
            }
        }
        proof {
            assert(used == u64::MAX as nat);
        }
        Err(PsError::LimitError)
    }
}

/// A well-formed engine keeps the two standard layers with the system
/// dictionary, immutable after initialization, at the bottom.
pub proof fn lemma_wf_dicts(e: &Engine)
    requires
        e.wf(),
    ensures
        Engine::dicts_wf(e@),
{
}

/// Prefixes chain: what starts `b` starts anything `b` starts.
pub proof fn lemma_prefix_trans(a: Seq<Seq<char>>, b: Seq<Seq<char>>, c: Seq<Seq<char>>)
    requires
        a.is_prefix_of(b),
        b.is_prefix_of(c),
    ensures
        a.is_prefix_of(c),
{
    assert(c.subrange(0, a.len() as int) =~= a);
}

/// No operator ever rewrites or drops an output line: each one leaves
/// the lines already printed as a prefix of the lines afterwards.
pub proof fn lemma_op_step_extends_out(op: Operator, m: MachineView)
    ensures
        m.out.is_prefix_of(op_step(op, m).1.out),
{
    assert(m.out.subrange(0, m.out.len() as int) =~= m.out);
    match op {
        Operator::PopAndPrint => {
            if m.ostack.len() >= 1 {
                assert((m.out.push(text_of(m.ostack.last()))).subrange(
                    0,
                    m.out.len() as int,
                ) =~= m.out);
            }
        }
        Operator::Pstack => {
            assert((m.out + pstack_lines(m.ostack)).subrange(0, m.out.len() as int) =~= m.out);
        }
        Operator::Add => {}
        Operator::Sub => {}
        Operator::Mul => {}
        Operator::Div => {}
        Operator::Mod => {}
        Operator::Gt => {}
        Operator::Eq => {}
        Operator::Ne => {}
        Operator::Dup => {}
        Operator::Pop => {}
        Operator::Exch => {}
        Operator::Copy => {}
        Operator::Index => {}
        Operator::Roll => {}
        Operator::Clear => {}
        Operator::ClearToMark => {}
        Operator::CountToMark => {}
        Operator::EndArray => {}
        Operator::Def => {}
        Operator::Load => {}
        Operator::Exec => {}
        Operator::If => {}
        Operator::IfElse => {}
        Operator::Repeat => {}
    }
}

/// Evaluating any object only ever appends to the output.
pub proof fn lemma_eval_step_extends_out(o: ObjectView, m: MachineView)
    ensures
        m.out.is_prefix_of(eval_step(o, m).1.out),
{
    assert(m.out.subrange(0, m.out.len() as int) =~= m.out);
    match o {
        ObjectView::Name(ObjectMode::Executable, n) => {
            match lookup(m.dicts, n) {
                None => {}
                Some(b) => match b {
                    ObjectView::Operator(ObjectMode::Executable, op) => {
                        lemma_op_step_extends_out(op, m);
                    }
                    _ => {}
                },
            }
        }
        ObjectView::Operator(ObjectMode::Executable, op) => {
            lemma_op_step_extends_out(op, m);
        }
        _ => {}
    }
}


/// The budget error belongs to the scheduler alone: no operator step
/// ever produces it.
pub proof fn lemma_op_step_no_limit(op: Operator, m: MachineView)
    ensures
        op_step(op, m).0 != Err::<(), PsError>(PsError::LimitError),
{
    match op {
        Operator::Add => {}
        Operator::Sub => {}
        Operator::Mul => {}
        Operator::Div => {}
        Operator::Mod => {}
        Operator::Gt => {}
        Operator::Eq => {}
        Operator::Ne => {}
        Operator::Dup => {}
        Operator::Pop => {}
        Operator::Exch => {}
        Operator::Copy => {}
        Operator::Index => {}
        Operator::Roll => {}
        Operator::Clear => {}
        Operator::ClearToMark => {}
        Operator::CountToMark => {}
        Operator::EndArray => {}
        Operator::Def => {}
        Operator::Load => {}
        Operator::Exec => {}
        Operator::If => {}
        Operator::IfElse => {}
        Operator::Repeat => {}
        Operator::PopAndPrint => {}
        Operator::Pstack => {}
    }
}

/// Evaluating an object never produces the budget error either.
pub proof fn lemma_eval_step_no_limit(o: ObjectView, m: MachineView)
    ensures
        eval_step(o, m).0 != Err::<(), PsError>(PsError::LimitError),
{
    match o {
        ObjectView::Name(ObjectMode::Executable, n) => {
            match lookup(m.dicts, n) {
                None => {}
                Some(b) => match b {
                    ObjectView::Operator(ObjectMode::Executable, op) => {
                        lemma_op_step_no_limit(op, m);
                    }
                    _ => {}
                },
            }
        }
        ObjectView::Operator(ObjectMode::Executable, op) => {
            lemma_op_step_no_limit(op, m);
        }
        _ => {}
    }
}

/// A drain that finishes in exactly `u` steps runs out of any smaller
/// budget first.
pub proof fn lemma_drain_done_out(m: MachineView, m1: MachineView, u: nat, g: nat)
    requires
        drain_run(m, u) == (Drained::Done(m1), 0nat),
        g < u,
    ensures
        drain_run(m, g).0 is Out,
    decreases u,
{
    if m.pending.len() == 0 {
    } else {
        let o = m.pending[0];
        let mm = MachineView { pending: m.pending.skip(1), ..m };
        let st = eval_step(o, mm);
        match st.0 {
            Ok(()) => {
                if g > 0 {
                    lemma_drain_done_out(st.1, m1, (u - 1) as nat, (g - 1) as nat);
                }
            },
            Err(_e) => {},
        }
    }
}

} // verus!
