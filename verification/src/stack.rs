use crate::dstack::DictStack;
use crate::error::PsError;
use crate::object::{
    deep_clone, lemma_array_view, obj_view, seq_view, text_of, to_text, Object, ObjectMode,
    ObjectView,
};
use crate::xstack::{ExecStack, OnceRunner, RepeatRunner, Runner};
use vstd::prelude::*;

verus! {

broadcast use crate::object::lemma_seq_view_index, crate::object::lemma_seq_view_len;

/// The outcome of one operator on the operand stack: the reported result
/// and the stack contents after the step.
pub type StackStep = (Result<(), PsError>, Seq<ObjectView>);

/// Whether a mathematical integer fits the machine integer range.
pub open spec fn in_i64(v: int) -> bool {
    i64::MIN <= v <= i64::MAX
}

/// The stack after the operator has consumed its (up to) `k` operands.
/// Operands are taken one at a time, so fewer than `k` leaves it empty.
pub open spec fn popn(s: Seq<ObjectView>, k: int) -> Seq<ObjectView> {
    if s.len() >= k {
        s.take(s.len() - k)
    } else {
        s.take(0)
    }
}

/// Division truncated toward zero.
pub open spec fn trunc_div(x: int, d: int) -> int
    recommends
        d != 0,
{
    if x == 0 {
        0
    } else if x > 0 && d > 0 {
        x / d
    } else if x < 0 && d < 0 {
        (x * -1) / (d * -1)
    } else if x < 0 {
        ((x * -1) / d) * -1
    } else {
        (x / (d * -1)) * -1
    }
}

/// Remainder of truncated division; its sign follows the dividend.
pub open spec fn trunc_rem(x: int, d: int) -> int
    recommends
        d != 0,
{
    if x == 0 {
        0
    } else if x > 0 && d > 0 {
        x % d
    } else if x < 0 && d < 0 {
        ((x * -1) % (d * -1)) * -1
    } else if x < 0 {
        ((x * -1) % d) * -1
    } else {
        x % (d * -1)
    }
}

/// `add`: both operands integers, their sum pushed.
pub open spec fn add_step(s: Seq<ObjectView>) -> StackStep {
    if s.len() < 2 {
        (Err(PsError::UnderflowError), popn(s, 2))
    } else {
        match (s[s.len() - 1], s[s.len() - 2]) {
            (ObjectView::Integer(a), ObjectView::Integer(b)) => if in_i64(b + a) {
                (Ok(()), popn(s, 2).push(ObjectView::Integer(b + a)))
            } else {
                (Err(PsError::ArithmeticError), popn(s, 2))
            },
            _ => (Err(PsError::TypeError), popn(s, 2)),
        }
    }
}

/// `sub`: the top operand subtracted from the one below it.
pub open spec fn sub_step(s: Seq<ObjectView>) -> StackStep {
    if s.len() < 2 {
        (Err(PsError::UnderflowError), popn(s, 2))
    } else {
        match (s[s.len() - 1], s[s.len() - 2]) {
            (ObjectView::Integer(a), ObjectView::Integer(b)) => if in_i64(b - a) {
                (Ok(()), popn(s, 2).push(ObjectView::Integer(b - a)))
            } else {
                (Err(PsError::ArithmeticError), popn(s, 2))
            },
            _ => (Err(PsError::TypeError), popn(s, 2)),
        }
    }
}

/// `mul`: both operands integers, their product pushed.
pub open spec fn mul_step(s: Seq<ObjectView>) -> StackStep {
    if s.len() < 2 {
        (Err(PsError::UnderflowError), popn(s, 2))
    } else {
        match (s[s.len() - 1], s[s.len() - 2]) {
            (ObjectView::Integer(a), ObjectView::Integer(b)) => if in_i64(b * a) {
                (Ok(()), popn(s, 2).push(ObjectView::Integer(b * a)))
            } else {
                (Err(PsError::ArithmeticError), popn(s, 2))
            },
            _ => (Err(PsError::TypeError), popn(s, 2)),
        }
    }
}

/// `div`: truncated division of the lower operand by the top one;
/// dividing by zero or overflowing the machine range fails.
pub open spec fn div_step(s: Seq<ObjectView>) -> StackStep {
    if s.len() < 2 {
        (Err(PsError::UnderflowError), popn(s, 2))
    } else {
        match (s[s.len() - 1], s[s.len() - 2]) {
            (ObjectView::Integer(a), ObjectView::Integer(b)) => if a == 0 || !in_i64(
                trunc_div(b, a),
            ) {
                (Err(PsError::ArithmeticError), popn(s, 2))
            } else {
                (Ok(()), popn(s, 2).push(ObjectView::Integer(trunc_div(b, a))))
            },
            _ => (Err(PsError::TypeError), popn(s, 2)),
        }
    }
}

/// `mod`: remainder with the sign of the dividend; a zero modulus or the
/// one overflowing division pair fails.
pub open spec fn mod_step(s: Seq<ObjectView>) -> StackStep {
    if s.len() < 2 {
        (Err(PsError::UnderflowError), popn(s, 2))
    } else {
        match (s[s.len() - 1], s[s.len() - 2]) {
            (ObjectView::Integer(a), ObjectView::Integer(b)) => if a == 0 || (b == i64::MIN
                && a == -1) {
                (Err(PsError::ArithmeticError), popn(s, 2))
            } else {
                (Ok(()), popn(s, 2).push(ObjectView::Integer(trunc_rem(b, a))))
            },
            _ => (Err(PsError::TypeError), popn(s, 2)),
        }
    }
}

/// `gt`: strictly-greater on two integers, or on two booleans under
/// `false < true`.
pub open spec fn gt_step(s: Seq<ObjectView>) -> StackStep {
    if s.len() < 2 {
        (Err(PsError::UnderflowError), popn(s, 2))
    } else {
        match (s[s.len() - 1], s[s.len() - 2]) {
            (ObjectView::Integer(a), ObjectView::Integer(b)) => (
                Ok(()),
                popn(s, 2).push(ObjectView::Bool(b > a)),
            ),
            (ObjectView::Bool(a), ObjectView::Bool(b)) => (
                Ok(()),
                popn(s, 2).push(ObjectView::Bool(b && !a)),
            ),
            _ => (Err(PsError::TypeError), popn(s, 2)),
        }
    }
}

/// `eq`: equality on two integers or two booleans.
pub open spec fn eq_step(s: Seq<ObjectView>) -> StackStep {
    if s.len() < 2 {
        (Err(PsError::UnderflowError), popn(s, 2))
    } else {
        match (s[s.len() - 1], s[s.len() - 2]) {
            (ObjectView::Integer(a), ObjectView::Integer(b)) => (
                Ok(()),
                popn(s, 2).push(ObjectView::Bool(b == a)),
            ),
            (ObjectView::Bool(a), ObjectView::Bool(b)) => (
                Ok(()),
                popn(s, 2).push(ObjectView::Bool(b == a)),
            ),
            _ => (Err(PsError::TypeError), popn(s, 2)),
        }
    }
}

/// `ne`: inequality on two integers or two booleans.
pub open spec fn ne_step(s: Seq<ObjectView>) -> StackStep {
    if s.len() < 2 {
        (Err(PsError::UnderflowError), popn(s, 2))
    } else {
        match (s[s.len() - 1], s[s.len() - 2]) {
            (ObjectView::Integer(a), ObjectView::Integer(b)) => (
                Ok(()),
                popn(s, 2).push(ObjectView::Bool(b != a)),
            ),
            (ObjectView::Bool(a), ObjectView::Bool(b)) => (
                Ok(()),
                popn(s, 2).push(ObjectView::Bool(b != a)),
            ),
            _ => (Err(PsError::TypeError), popn(s, 2)),
        }
    }
}

/// `dup`: the top operand duplicated.
pub open spec fn dup_step(s: Seq<ObjectView>) -> StackStep {
    if s.len() < 1 {
        (Err(PsError::UnderflowError), s)
    } else {
        (Ok(()), s.push(s.last()))
    }
}

/// `pop`: the top operand discarded.
pub open spec fn pop_step(s: Seq<ObjectView>) -> StackStep {
    if s.len() < 1 {
        (Err(PsError::UnderflowError), s)
    } else {
        (Ok(()), popn(s, 1))
    }
}

/// `exch`: the top two operands swapped.
pub open spec fn exch_step(s: Seq<ObjectView>) -> StackStep {
    if s.len() < 2 {
        (Err(PsError::UnderflowError), popn(s, 2))
    } else {
        (Ok(()), popn(s, 2).push(s[s.len() - 1]).push(s[s.len() - 2]))
    }
}

/// `copy`: the top count popped, then that many topmost operands
/// duplicated in order.
pub open spec fn copy_step(s: Seq<ObjectView>) -> StackStep {
    if s.len() < 1 {
        (Err(PsError::UnderflowError), s)
    } else {
        match s[s.len() - 1] {
            ObjectView::Integer(n) => {
                let rest = popn(s, 1);
                if n < 0 {
                    (Err(PsError::RangeError), rest)
                } else if rest.len() < n {
                    (Err(PsError::RangeError), rest)
                } else {
                    (Ok(()), rest + rest.subrange(rest.len() - n, rest.len() as int))
                }
            },
            _ => (Err(PsError::TypeError), popn(s, 1)),
        }
    }
}

/// `index`: the top count popped, then a copy of the operand that many
/// places below the new top pushed.
pub open spec fn index_step(s: Seq<ObjectView>) -> StackStep {
    if s.len() < 1 {
        (Err(PsError::UnderflowError), s)
    } else {
        match s[s.len() - 1] {
            ObjectView::Integer(n) => {
                let rest = popn(s, 1);
                if n < 0 {
                    (Err(PsError::RangeError), rest)
                } else if rest.len() <= n {
                    (Err(PsError::RangeError), rest)
                } else {
                    (Ok(()), rest.push(rest[rest.len() - 1 - n]))
                }
            },
            _ => (Err(PsError::TypeError), popn(s, 1)),
        }
    }
}

/// A window rotated so that its last `m` elements come first.
pub open spec fn rotate_right(w: Seq<ObjectView>, m: int) -> Seq<ObjectView>
    recommends
        0 <= m <= w.len(),
{
    w.skip(w.len() - m) + w.take(w.len() - m)
}

/// `roll`: the top two operands are the shift `j` and the window size
/// `n`; the top `n` of the remaining operands rotate by `j` places,
/// deeper items moving toward the top for positive `j`.
pub open spec fn roll_step(s: Seq<ObjectView>) -> StackStep {
    if s.len() < 2 {
        (Err(PsError::UnderflowError), popn(s, 2))
    } else {
        match (s[s.len() - 1], s[s.len() - 2]) {
            (ObjectView::Integer(j), ObjectView::Integer(n)) => {
                let rest = popn(s, 2);
                if n == 0 || n == 1 {
                    (Ok(()), rest)
                } else if n < 0 {
                    (Err(PsError::RangeError), rest)
                } else if rest.len() < n {
                    (Err(PsError::RangeError), rest)
                } else {
                    (
                        Ok(()),
                        rest.take(rest.len() - n) + rotate_right(
                            rest.skip(rest.len() - n),
                            j % n,
                        ),
                    )
                }
            },
            _ => (Err(PsError::TypeError), popn(s, 2)),
        }
    }
}

/// The position of the topmost mark, if any.
pub open spec fn mark_index(s: Seq<ObjectView>) -> Option<int>
    decreases s.len(),
{
    if s.len() == 0 {
        None
    } else if s.last() is Mark {
        Some(s.len() - 1)
    } else {
        mark_index(s.drop_last())
    }
}

/// `cleartomark`: everything down to and including the topmost mark
/// popped; with no mark the whole stack is consumed by the search.
pub open spec fn clear_to_mark_step(s: Seq<ObjectView>) -> StackStep {
    match mark_index(s) {
        Some(i) => (Ok(()), s.take(i)),
        None => (Err(PsError::MarkNotFound), Seq::empty()),
    }
}

/// `counttomark`: the number of operands above the topmost mark pushed;
/// the mark stays in place.
pub open spec fn count_to_mark_step(s: Seq<ObjectView>) -> StackStep {
    match mark_index(s) {
        Some(i) => if s.len() - 1 - i > i64::MAX {
            (Err(PsError::RangeError), s)
        } else {
            (Ok(()), s.push(ObjectView::Integer(s.len() - 1 - i)))
        },
        None => (Err(PsError::MarkNotFound), s),
    }
}

/// Popping down to the topmost mark and bundling the popped operands, in
/// their original order, into one array of the given mode.
pub open spec fn make_array_step(s: Seq<ObjectView>, mode: ObjectMode) -> StackStep {
    match mark_index(s) {
        Some(i) => (
            Ok(()),
            s.take(i).push(ObjectView::Array(mode, s.subrange(i + 1, s.len() as int))),
        ),
        None => (Err(PsError::MarkNotFound), Seq::empty()),
    }
}

/// `def`: the top operand bound under the literal name below it, in the
/// topmost dictionary layer.
pub open spec fn def_step(
    s: Seq<ObjectView>,
    d: Seq<Map<Seq<char>, ObjectView>>,
) -> (Result<(), PsError>, Seq<ObjectView>, Seq<Map<Seq<char>, ObjectView>>) {
    if s.len() < 2 {
        (Err(PsError::UnderflowError), popn(s, 2), d)
    } else {
        match s[s.len() - 2] {
            ObjectView::Name(ObjectMode::Literal, n) => (
                Ok(()),
                popn(s, 2),
                d.update(d.len() - 1, d.last().insert(n, s[s.len() - 1])),
            ),
            _ => (Err(PsError::TypeError), popn(s, 2), d),
        }
    }
}

/// `exec`: an executable array's items are queued before everything
/// already deferred; any other operand is queued by itself, so its own
/// evaluation rule fires on the next drain.
pub open spec fn exec_step(s: Seq<ObjectView>, x: Seq<ObjectView>) -> (
    Result<(), PsError>,
    Seq<ObjectView>,
    Seq<ObjectView>,
) {
    if s.len() < 1 {
        (Err(PsError::UnderflowError), s, x)
    } else {
        match s[s.len() - 1] {
            ObjectView::Array(ObjectMode::Executable, items) => (Ok(()), popn(s, 1), items + x),
            other => (Ok(()), popn(s, 1), seq![other] + x),
        }
    }
}

/// `if`: with a true condition below an executable array, the array's
/// items are queued; with a false one nothing happens.
pub open spec fn cond_if_step(s: Seq<ObjectView>, x: Seq<ObjectView>) -> (
    Result<(), PsError>,
    Seq<ObjectView>,
    Seq<ObjectView>,
) {
    if s.len() < 2 {
        (Err(PsError::UnderflowError), popn(s, 2), x)
    } else {
        match (s[s.len() - 1], s[s.len() - 2]) {
            (ObjectView::Array(ObjectMode::Executable, items), ObjectView::Bool(b)) => (
                Ok(()),
                popn(s, 2),
                if b {
                    items + x
                } else {
                    x
                },
            ),
            _ => (Err(PsError::TypeError), popn(s, 2), x),
        }
    }
}

/// `ifelse`: the condition selects one of the two executable arrays
/// above it, and the selected one's items are queued.
pub open spec fn cond_ifelse_step(s: Seq<ObjectView>, x: Seq<ObjectView>) -> (
    Result<(), PsError>,
    Seq<ObjectView>,
    Seq<ObjectView>,
) {
    if s.len() < 3 {
        (Err(PsError::UnderflowError), popn(s, 3), x)
    } else {
        match (s[s.len() - 1], s[s.len() - 2], s[s.len() - 3]) {
            (
                ObjectView::Array(ObjectMode::Executable, pelse),
                ObjectView::Array(ObjectMode::Executable, pif),
                ObjectView::Bool(b),
            ) => (
                Ok(()),
                popn(s, 3),
                if b {
                    pif + x
                } else {
                    pelse + x
                },
            ),
            _ => (Err(PsError::TypeError), popn(s, 3), x),
        }
    }
}

/// `repeat`: a non-negative count below an executable array queues that
/// many full passes over the array's items; a zero count is a no-op.
/// A negative count is classified as a range failure, as the error
/// design asks, rather than silently accepted.
pub open spec fn repeat_step(s: Seq<ObjectView>, x: Seq<ObjectView>) -> (
    Result<(), PsError>,
    Seq<ObjectView>,
    Seq<ObjectView>,
) {
    if s.len() < 2 {
        (Err(PsError::UnderflowError), popn(s, 2), x)
    } else {
        match (s[s.len() - 1], s[s.len() - 2]) {
            (ObjectView::Array(ObjectMode::Executable, items), ObjectView::Integer(n)) => {
                if n < 0 {
                    (Err(PsError::RangeError), popn(s, 2), x)
                } else if n == 0 {
                    (Ok(()), popn(s, 2), x)
                } else {
                    (Ok(()), popn(s, 2), crate::xstack::repeat_seq(items, n as nat) + x)
                }
            },
            _ => (Err(PsError::TypeError), popn(s, 2), x),
        }
    }
}

/// The lines `pstack` prints: every operand from the top down, each in
/// its canonical form with a trailing space.
pub open spec fn pstack_lines(s: Seq<ObjectView>) -> Seq<Seq<char>> {
    Seq::new(s.len(), |i: int| text_of(s[s.len() - 1 - i]) + " "@)
}

/// The operand stack: the bottom is the front of the view, the top is
/// its last element.
pub struct Stack {
    items: Vec<Object>,
}

impl View for Stack {
    type V = Seq<ObjectView>;

    closed spec fn view(&self) -> Seq<ObjectView> {
        seq_view(self.items@)
    }
}

impl Stack {
    /// An empty operand stack.
    pub fn new() -> (r: Self)
        ensures
            r@ == Seq::<ObjectView>::empty(),
    {
        let r = Stack { items: Vec::new() };
        proof {
            assert(r@ =~= Seq::<ObjectView>::empty());
        }
        r
    }

    /// How many operands are on the stack.
    pub fn len(&self) -> (n: usize)
        ensures
            n == self@.len(),
    {
        self.items.len()
    }

    /// A reference to the operand at position `i` (0 is the bottom).
    pub fn get(&self, i: usize) -> (r: &Object)
        requires
            i < self@.len(),
        ensures
            r@ == self@[i as int],
    {
        &self.items[i]
    }

    /// Pushes an operand on top.
    pub fn push(&mut self, item: Object)
        ensures
            final(self)@ == old(self)@.push(item@),
    {
        self.items.push(item);
        proof {
            assert(self@ =~= old(self)@.push(item@));
        }
    }

    /// `add` (see [`add_step`]).
    pub fn add(&mut self) -> (r: Result<(), PsError>)
        ensures
            (r, final(self)@) == add_step(old(self)@),
    {
        let ghost pre = self@;
        match (self.items.pop(), self.items.pop()) {
            (Some(Object::Integer(i1)), Some(Object::Integer(i2))) => {
                proof {
                    assert(self@ =~= popn(pre, 2));
                }
                match i2.checked_add(i1) {
                    Some(v) => {
                        self.items.push(Object::Integer(v));
                        proof {
                            assert(self@ =~= popn(pre, 2).push(ObjectView::Integer(
                                i2 as int + i1 as int,
                            )));
                        }
                        Ok(())
                    }
                    None => Err(PsError::ArithmeticError),
                }
            }
            (None, _) | (_, None) => {
                proof {
                    assert(self@ =~= popn(pre, 2));
                }
                Err(PsError::UnderflowError)
            }
            (Some(_), Some(_)) => {
                proof {
                    assert(self@ =~= popn(pre, 2));
                }
                Err(PsError::TypeError)
            }
        }
    }

    /// `sub` (see [`sub_step`]).
    pub fn sub(&mut self) -> (r: Result<(), PsError>)
        ensures
            (r, final(self)@) == sub_step(old(self)@),
    {
        let ghost pre = self@;
        match (self.items.pop(), self.items.pop()) {
            (Some(Object::Integer(i1)), Some(Object::Integer(i2))) => {
                proof {
                    assert(self@ =~= popn(pre, 2));
                }
                match i2.checked_sub(i1) {
                    Some(v) => {
                        self.items.push(Object::Integer(v));
                        proof {
                            assert(self@ =~= popn(pre, 2).push(ObjectView::Integer(
                                i2 as int - i1 as int,
                            )));
                        }
                        Ok(())
                    }
                    None => Err(PsError::ArithmeticError),
                }
            }
            (None, _) | (_, None) => {
                proof {
                    assert(self@ =~= popn(pre, 2));
                }
                Err(PsError::UnderflowError)
            }
            (Some(_), Some(_)) => {
                proof {
                    assert(self@ =~= popn(pre, 2));
                }
                Err(PsError::TypeError)
            }
        }
    }

    /// `mul` (see [`mul_step`]).
    pub fn mul(&mut self) -> (r: Result<(), PsError>)
        ensures
            (r, final(self)@) == mul_step(old(self)@),
    {
        let ghost pre = self@;
        match (self.items.pop(), self.items.pop()) {
            (Some(Object::Integer(i1)), Some(Object::Integer(i2))) => {
                proof {
                    assert(self@ =~= popn(pre, 2));
                }
                match i2.checked_mul(i1) {
                    Some(v) => {
                        self.items.push(Object::Integer(v));
                        proof {
                            assert(self@ =~= popn(pre, 2).push(ObjectView::Integer(
                                i2 as int * i1 as int,
                            )));
                        }
                        Ok(())
                    }
                    None => Err(PsError::ArithmeticError),
                }
            }
            (None, _) | (_, None) => {
                proof {
                    assert(self@ =~= popn(pre, 2));
                }
                Err(PsError::UnderflowError)
            }
            (Some(_), Some(_)) => {
                proof {
                    assert(self@ =~= popn(pre, 2));
                }
                Err(PsError::TypeError)
            }
        }
    }

    /// `div` (see [`div_step`]).
    pub fn div(&mut self) -> (r: Result<(), PsError>)
        ensures
            (r, final(self)@) == div_step(old(self)@),
    {
        let ghost pre = self@;
        match (self.items.pop(), self.items.pop()) {
            (Some(Object::Integer(i1)), Some(Object::Integer(i2))) => {
                proof {
                    assert(self@ =~= popn(pre, 2));
                }
                match i2.checked_div(i1) {
                    Some(v) => {
                        self.items.push(Object::Integer(v));
                        proof {
                            assert(self@ =~= popn(pre, 2).push(ObjectView::Integer(
                                trunc_div(i2 as int, i1 as int),
                            )));
                        }
                        Ok(())
                    }
                    None => Err(PsError::ArithmeticError),
                }
            }
            (None, _) | (_, None) => {
                proof {
                    assert(self@ =~= popn(pre, 2));
                }
                Err(PsError::UnderflowError)
            }
            (Some(_), Some(_)) => {
                proof {
                    assert(self@ =~= popn(pre, 2));
                }
                Err(PsError::TypeError)
            }
        }
    }

    /// `mod` (see [`mod_step`]).
    pub fn modulo(&mut self) -> (r: Result<(), PsError>)
        ensures
            (r, final(self)@) == mod_step(old(self)@),
    {
        let ghost pre = self@;
        match (self.items.pop(), self.items.pop()) {
            (Some(Object::Integer(i1)), Some(Object::Integer(i2))) => {
                proof {
                    assert(self@ =~= popn(pre, 2));
                }
                match i2.checked_rem(i1) {
                    Some(v) => {
                        self.items.push(Object::Integer(v));
                        proof {
                            assert(self@ =~= popn(pre, 2).push(ObjectView::Integer(
                                trunc_rem(i2 as int, i1 as int),
                            )));
                        }
                        Ok(())
                    }
                    None => Err(PsError::ArithmeticError),
                }
            }
            (None, _) | (_, None) => {
                proof {
                    assert(self@ =~= popn(pre, 2));
                }
                Err(PsError::UnderflowError)
            }
            (Some(_), Some(_)) => {
                proof {
                    assert(self@ =~= popn(pre, 2));
                }
                Err(PsError::TypeError)
            }
        }
    }

    /// `gt` (see [`gt_step`]).
    pub fn gt(&mut self) -> (r: Result<(), PsError>)
        ensures
            (r, final(self)@) == gt_step(old(self)@),
    {
        let ghost pre = self@;
        match (self.items.pop(), self.items.pop()) {
            (Some(Object::Integer(i1)), Some(Object::Integer(i2))) => {
                self.items.push(Object::Bool(i2 > i1));
                proof {
                    assert(self@ =~= popn(pre, 2).push(ObjectView::Bool(i2 > i1)));
                }
                Ok(())
            }
            (Some(Object::Bool(b1)), Some(Object::Bool(b2))) => {
                self.items.push(Object::Bool(b2 && !b1));
                proof {
                    assert(self@ =~= popn(pre, 2).push(ObjectView::Bool(b2 && !b1)));
                }
                Ok(())
            }
            (None, _) | (_, None) => {
                proof {
                    assert(self@ =~= popn(pre, 2));
                }
                Err(PsError::UnderflowError)
            }
            (Some(_), Some(_)) => {
                proof {
                    assert(self@ =~= popn(pre, 2));
                }
                Err(PsError::TypeError)
            }
        }
    }

    /// `eq` (see [`eq_step`]).
    pub fn eq(&mut self) -> (r: Result<(), PsError>)
        ensures
            (r, final(self)@) == eq_step(old(self)@),
    {
        let ghost pre = self@;
        match (self.items.pop(), self.items.pop()) {
            (Some(Object::Integer(i1)), Some(Object::Integer(i2))) => {
                self.items.push(Object::Bool(i2 == i1));
                proof {
                    assert(self@ =~= popn(pre, 2).push(ObjectView::Bool(i2 == i1)));
                }
                Ok(())
            }
            (Some(Object::Bool(b1)), Some(Object::Bool(b2))) => {
                self.items.push(Object::Bool(b2 == b1));
                proof {
                    assert(self@ =~= popn(pre, 2).push(ObjectView::Bool(b2 == b1)));
                }
                Ok(())
            }
            (None, _) | (_, None) => {
                proof {
                    assert(self@ =~= popn(pre, 2));
                }
                Err(PsError::UnderflowError)
            }
            (Some(_), Some(_)) => {
                proof {
                    assert(self@ =~= popn(pre, 2));
                }
                Err(PsError::TypeError)
            }
        }
    }

    /// `ne` (see [`ne_step`]).
    pub fn ne(&mut self) -> (r: Result<(), PsError>)
        ensures
            (r, final(self)@) == ne_step(old(self)@),
    {
        let ghost pre = self@;
        match (self.items.pop(), self.items.pop()) {
            (Some(Object::Integer(i1)), Some(Object::Integer(i2))) => {
                self.items.push(Object::Bool(i2 != i1));
                proof {
                    assert(self@ =~= popn(pre, 2).push(ObjectView::Bool(i2 != i1)));
                }
                Ok(())
            }
            (Some(Object::Bool(b1)), Some(Object::Bool(b2))) => {
                self.items.push(Object::Bool(b2 != b1));
                proof {
                    assert(self@ =~= popn(pre, 2).push(ObjectView::Bool(b2 != b1)));
                }
                Ok(())
            }
            (None, _) | (_, None) => {
                proof {
                    assert(self@ =~= popn(pre, 2));
                }
                Err(PsError::UnderflowError)
            }
            (Some(_), Some(_)) => {
                proof {
                    assert(self@ =~= popn(pre, 2));
                }
                Err(PsError::TypeError)
            }
        }
    }

    /// `dup` (see [`dup_step`]).
    pub fn dup(&mut self) -> (r: Result<(), PsError>)
        ensures
            (r, final(self)@) == dup_step(old(self)@),
    {
        let ghost pre = self@;
        match self.items.pop() {
            Some(i) => {
                let c = deep_clone(&i);
                self.items.push(i);
                self.items.push(c);
                proof {
                    assert(self@ =~= pre.push(pre.last()));
                }
                Ok(())
            }
            None => Err(PsError::UnderflowError),
        }
    }

    /// `pop` (see [`pop_step`]).
    pub fn pop(&mut self) -> (r: Result<(), PsError>)
        ensures
            (r, final(self)@) == pop_step(old(self)@),
    {
        let ghost pre = self@;
        match self.items.pop() {
            Some(_) => {
                proof {
                    assert(self@ =~= popn(pre, 1));
                }
                Ok(())
            }
            None => Err(PsError::UnderflowError),
        }
    }

    /// `exch` (see [`exch_step`]).
    pub fn exch(&mut self) -> (r: Result<(), PsError>)
        ensures
            (r, final(self)@) == exch_step(old(self)@),
    {
        let ghost pre = self@;
        match (self.items.pop(), self.items.pop()) {
            (Some(i1), Some(i2)) => {
                self.items.push(i1);
                self.items.push(i2);
                proof {
                    assert(self@ =~= popn(pre, 2).push(pre[pre.len() - 1]).push(
                        pre[pre.len() - 2],
                    ));
                }
                Ok(())
            }
            (None, _) | (_, None) => {
                proof {
                    assert(self@ =~= popn(pre, 2));
                }
                Err(PsError::UnderflowError)
            }
        }
    }

    /// `clear`: every operand discarded.
    pub fn clear(&mut self) -> (r: Result<(), PsError>)
        ensures
            r == Ok::<(), PsError>(()),
            final(self)@ == Seq::<ObjectView>::empty(),
    {
        self.items.clear();
        proof {
            assert(self@ =~= Seq::<ObjectView>::empty());
        }
        Ok(())
    }

    /// `copy` (see [`copy_step`]).
    pub fn copy(&mut self) -> (r: Result<(), PsError>)
        ensures
            (r, final(self)@) == copy_step(old(self)@),
    {
        let ghost pre = self@;
        match self.items.pop() {
            Some(Object::Integer(n)) => {
                let ghost rest = popn(pre, 1);
                proof {
                    assert(self@ =~= rest);
                }
                if n < 0 {
                    return Err(PsError::RangeError);
                }
                let len = self.items.len();
                if (len as u64) < (n as u64) {
                    return Err(PsError::RangeError);
                }
                let nn = n as usize;
                let base = len - nn;
                let mut k: usize = 0;
                proof {
                    assert(self@ =~= rest + rest.subrange(base as int, base as int));
                }
                while k < nn
                    invariant
                        nn <= len,
                        base == len - nn,
                        k <= nn,
                        rest.len() == len as int,
                        self.items@.len() == len + k,
                        self@ == rest + rest.subrange(base as int, base + k),
                    decreases nn - k,
                {
                    let e = deep_clone(&self.items[base + k]);
                    let ghost ev = e@;
                    let ghost prev = self@;
                    proof {
                        assert((rest + rest.subrange(base as int, base + k))[base + k]
                            == rest[base + k]);
                        assert(ev == rest[base + k]);
                    }
                    self.items.push(e);
                    proof {
                        assert(self@ =~= prev.push(ev));
                        assert(prev.push(ev) =~= rest + rest.subrange(base as int, base + k + 1));
                        assert(self@ == rest + rest.subrange(base as int, base + k + 1));
                    }
                    k = k + 1;
                }
                proof {
                    assert(rest.subrange(base as int, len as int) =~= rest.subrange(
                        rest.len() - n,
                        rest.len() as int,
                    ));
                }
                Ok(())
            }
            Some(_) => {
                proof {
                    assert(self@ =~= popn(pre, 1));
                }
                Err(PsError::TypeError)
            }
            None => Err(PsError::UnderflowError),
        }
    }

    /// `index` (see [`index_step`]).
    pub fn index(&mut self) -> (r: Result<(), PsError>)
        ensures
            (r, final(self)@) == index_step(old(self)@),
    {
        let ghost pre = self@;
        match self.items.pop() {
            Some(Object::Integer(n)) => {
                let ghost rest = popn(pre, 1);
                proof {
                    assert(self@ =~= rest);
                }
                if n < 0 {
                    return Err(PsError::RangeError);
                }
                let len = self.items.len();
                if (len as u64) <= (n as u64) {
                    return Err(PsError::RangeError);
                }
                let nn = n as usize;
                let e = deep_clone(&self.items[len - 1 - nn]);
                self.items.push(e);
                proof {
                    assert(self@ =~= rest.push(rest[rest.len() - 1 - n]));
                }
                Ok(())
            }
            Some(_) => {
                proof {
                    assert(self@ =~= popn(pre, 1));
                }
                Err(PsError::TypeError)
            }
            None => Err(PsError::UnderflowError),
        }
    }

    /// `roll` (see [`roll_step`]).
    pub fn roll(&mut self) -> (r: Result<(), PsError>)
        ensures
            (r, final(self)@) == roll_step(old(self)@),
    {
        let ghost pre = self@;
        match (self.items.pop(), self.items.pop()) {
            (Some(Object::Integer(j)), Some(Object::Integer(n))) => {
                let ghost rest = popn(pre, 2);
                proof {
                    assert(self@ =~= rest);
                }
                if n == 0 || n == 1 {
                    return Ok(());
                }
                if n < 0 {
                    return Err(PsError::RangeError);
                }
                let len = self.items.len();
                if (len as u64) < (n as u64) {
                    return Err(PsError::RangeError);
                }
                let nn = n as usize;
                let base = len - nn;
                let ghost w = rest.skip(base as int);
                let mr = match j.checked_rem(n) {
                    Some(v) => v,
                    None => 0,
                };
                let m: usize = if mr < 0 {
                    (mr + n) as usize
                } else {
                    mr as usize
                };
                proof {
                    lemma_trunc_rem_mod(j as int, n as int);
                    assert(m as int == (j as int) % (n as int));
                }
                let ghost rot = rotate_right(w, m as int);
                let mut rotated: Vec<Object> = Vec::new();
                let mut i: usize = 0;
                while i < nn
                    invariant
                        nn <= len,
                        2 <= nn,
                        base == len - nn,
                        m < nn,
                        i <= nn,
                        self@ == rest,
                        self.items@.len() == len as int,
                        rest.len() == len as int,
                        w == rest.skip(base as int),
                        rot == rotate_right(w, m as int),
                        rotated@.len() == i as int,
                        forall|t: int| 0 <= t < i ==> (#[trigger] rotated@[t])@ == rot[t],
                    decreases nn - i,
                {
                    let src = if i < m {
                        base + (nn - m) + i
                    } else {
                        base + (i - m)
                    };
                    let e = deep_clone(&self.items[src]);
                    proof {
                        assert(w.len() == nn as int);
                        if i < m {
                            assert(rot[i as int] == w[nn - m + i]);
                            assert(w[nn - m + i] == rest[base + (nn - m) + i]);
                        } else {
                            assert(rot[i as int] == w[i - m]);
                            assert(w[i - m] == rest[base + (i - m)]);
                        }
                        assert(e@ == rest[src as int]);
                    }
                    rotated.push(e);
                    i = i + 1;
                }
                self.items.truncate(base);
                proof {
                    assert(self@ =~= rest.take(base as int));
                    assert(self@ =~= rest.take(base as int) + rot.take(0));
                }
                let mut c: usize = 0;
                while c < nn
                    invariant
                        nn <= len,
                        base == len - nn,
                        c <= nn,
                        rest.len() == len as int,
                        rot.len() == nn as int,
                        self.items@.len() == base + c,
                        rotated@.len() == nn as int,
                        forall|t: int| 0 <= t < nn ==> (#[trigger] rotated@[t])@ == rot[t],
                        self@ == rest.take(base as int) + rot.take(c as int),
                    decreases nn - c,
                {
                    let e = deep_clone(&rotated[c]);
                    let ghost ev = e@;
                    let ghost prev = self@;
                    proof {
                        assert(ev == rot[c as int]);
                    }
                    self.items.push(e);
                    proof {
                        assert(self@ =~= prev.push(ev));
                        assert(prev.push(ev) =~= rest.take(base as int) + rot.take(c + 1));
                        assert(self@ == rest.take(base as int) + rot.take(c + 1));
                    }
                    c = c + 1;
                }
                proof {
                    assert(rot.take(nn as int) =~= rot);
                    assert(rest.take(base as int) =~= rest.take(rest.len() - n));
                }
                Ok(())
            }
            (None, _) | (_, None) => {
                proof {
                    assert(self@ =~= popn(pre, 2));
                }
                Err(PsError::UnderflowError)
            }
            (Some(_), Some(_)) => {
                proof {
                    assert(self@ =~= popn(pre, 2));
                }
                Err(PsError::TypeError)
            }
        }
    }

    /// `cleartomark` (see [`clear_to_mark_step`]).
    pub fn clear_to_mark(&mut self) -> (r: Result<(), PsError>)
        ensures
            (r, final(self)@) == clear_to_mark_step(old(self)@),
    {
        let ghost pre = self@;
        proof {
            assert(pre.take(pre.len() as int) =~= pre);
        }
        loop
            invariant
                pre == old(self)@,
                self@.len() <= pre.len(),
                mark_index(pre) == mark_index(self@),
                self@ == pre.take(self@.len() as int),
            decreases self@.len(),
        {
            let ghost before = self@;
            match self.items.pop() {
                Some(Object::Mark) => {
                    proof {
                        assert(before.len() > 0);
                        assert(before.last() is Mark);
                        assert(mark_index(before) == Some(before.len() - 1));
                        assert(self@.len() == before.len() - 1);
                        assert(before == pre.take(before.len() as int));
                        assert(self@ =~= before.drop_last());
                        assert(pre.take(before.len() as int).drop_last() =~= pre.take(
                            before.len() - 1,
                        ));
                        assert(self@ == pre.take(before.len() - 1));
                    }
                    return Ok(());
                }
                Some(_) => {
                    proof {
                        assert(before.len() > 0);
                        assert(!(before.last() is Mark));
                        assert(mark_index(before) == mark_index(before.drop_last()));
                        assert(before == pre.take(before.len() as int));
                        assert(self@ =~= before.drop_last());
                        assert(pre.take(before.len() as int).drop_last() =~= pre.take(
                            before.len() - 1,
                        ));
                        assert(self@ == pre.take(self@.len() as int));
                    }
                }
                None => {
                    proof {
                        assert(self@ =~= Seq::<ObjectView>::empty());
                    }
                    return Err(PsError::MarkNotFound);
                }
            }
        }
    }

    /// `counttomark` (see [`count_to_mark_step`]).
    pub fn count_to_mark(&mut self) -> (r: Result<(), PsError>)
        ensures
            (r, final(self)@) == count_to_mark_step(old(self)@),
    {
        let ghost pre = self@;
        let len = self.items.len();
        let mut k: usize = 0;
        proof {
            assert(pre.take(len as int) =~= pre);
        }
        while k < len
            invariant
                pre == old(self)@,
                len == self@.len(),
                self@ == pre,
                k <= len,
                mark_index(pre) == mark_index(pre.take(len - k)),
            decreases len - k,
        {
            let ghost seen = pre.take(len - k);
            let idx = len - 1 - k;
            let hit = matches!(&self.items[idx], Object::Mark);
            if hit {
                proof {
                    assert(seen.last() == pre[len - 1 - k]);
                    assert(mark_index(seen) == Some(len - k - 1));
                }
                if (k as u64) > (i64::MAX as u64) {
                    return Err(PsError::RangeError);
                }
                self.items.push(Object::Integer(k as i64));
                proof {
                    assert(self@ =~= pre.push(ObjectView::Integer(k as int)));
                }
                return Ok(());
            }
            proof {
                assert(seen.last() == pre[len - 1 - k]);
                assert(mark_index(seen) == mark_index(seen.drop_last()));
                assert(seen.drop_last() =~= pre.take(len - (k + 1)));
            }
            k = k + 1;
        }
        proof {
            assert(pre.take(0) =~= Seq::<ObjectView>::empty());
        }
        Err(PsError::MarkNotFound)
    }

    /// `]` and `mark`-bundling (see [`make_array_step`]): a literal array.
    pub fn make_array(&mut self) -> (r: Result<(), PsError>)
        ensures
            (r, final(self)@) == make_array_step(old(self)@, ObjectMode::Literal),
    {
        self.bundle_to_mark(ObjectMode::Literal)
    }

    /// The same bundling as an executable array (see [`make_array_step`]).
    pub fn make_proc(&mut self) -> (r: Result<(), PsError>)
        ensures
            (r, final(self)@) == make_array_step(old(self)@, ObjectMode::Executable),
    {
        self.bundle_to_mark(ObjectMode::Executable)
    }

    /// Pops to the topmost mark and pushes the popped run as one array.
    fn bundle_to_mark(&mut self, mode: ObjectMode) -> (r: Result<(), PsError>)
        ensures
            (r, final(self)@) == make_array_step(old(self)@, mode),
    {
        let ghost pre = self@;
        let mut arr: Vec<Object> = Vec::new();
        proof {
            assert(pre.take(pre.len() as int) =~= pre);
            assert(seq_view(arr@) =~= pre.subrange(pre.len() as int, pre.len() as int));
        }
        loop
            invariant
                pre == old(self)@,
                self@.len() <= pre.len(),
                mark_index(pre) == mark_index(self@),
                self@ == pre.take(self@.len() as int),
                seq_view(arr@) == pre.subrange(self@.len() as int, pre.len() as int),
            decreases self@.len(),
        {
            let ghost before = self@;
            match self.items.pop() {
                Some(Object::Mark) => {
                    proof {
                        assert(before.len() > 0);
                        assert(before.last() is Mark);
                        assert(mark_index(before) == Some(before.len() - 1));
                        assert(before == pre.take(before.len() as int));
                        assert(self@ =~= before.drop_last());
                        assert(pre.take(before.len() as int).drop_last() =~= pre.take(
                            before.len() - 1,
                        ));
                        assert(self@ == pre.take(before.len() - 1));
                        lemma_array_view(mode, arr);
                    }
                    self.items.push(Object::Array(mode, arr));
                    proof {
                        assert(self@ =~= pre.take(before.len() - 1).push(
                            ObjectView::Array(
                                mode,
                                pre.subrange(before.len() as int, pre.len() as int),
                            ),
                        ));
                    }
                    return Ok(());
                }
                Some(o) => {
                    let ghost ov = o@;
                    let ghost arr0 = seq_view(arr@);
                    arr.insert(0, o);
                    proof {
                        assert(before.len() > 0);
                        assert(!(before.last() is Mark));
                        assert(mark_index(before) == mark_index(before.drop_last()));
                        assert(before == pre.take(before.len() as int));
                        assert(self@ =~= before.drop_last());
                        assert(pre.take(before.len() as int).drop_last() =~= pre.take(
                            before.len() - 1,
                        ));
                        assert(self@ == pre.take(self@.len() as int));
                        assert(pre.take(before.len() as int)[before.len() - 1] == pre[before.len()
                            - 1]);
                        assert(ov == pre[before.len() - 1]);
                        assert(seq_view(arr@) =~= seq![ov] + arr0);
                        assert(seq![pre[before.len() - 1]] + pre.subrange(
                            before.len() as int,
                            pre.len() as int,
                        ) =~= pre.subrange(before.len() - 1, pre.len() as int));
                        assert(seq_view(arr@) == pre.subrange(
                            self@.len() as int,
                            pre.len() as int,
                        ));
                    }
                }
                None => {
                    proof {
                        assert(self@ =~= Seq::<ObjectView>::empty());
                    }
                    return Err(PsError::MarkNotFound);
                }
            }
        }
    }

    /// `=`: the top operand popped and its canonical form appended to the
    /// output, one line.
    pub fn pop_and_print(&mut self, out: &mut Vec<String>) -> (r: Result<(), PsError>)
        ensures
            old(self)@.len() == 0 ==> r == Err::<(), PsError>(PsError::UnderflowError)
                && final(self)@ == old(self)@ && final(out)@ == old(out)@,
            old(self)@.len() > 0 ==> r == Ok::<(), PsError>(()) && final(self)@ == popn(old(self)@, 1)
                && final(out).deep_view() == old(out).deep_view().push(
                text_of(old(self)@.last()),
            ),
    {
        let ghost pre = self@;
        match self.items.pop() {
            Some(o) => {
                let line = to_text(&o);
                out.push(line);
                proof {
                    assert(self@ =~= popn(pre, 1));
                    assert(out.deep_view() =~= old(out).deep_view().push(text_of(pre.last())));
                }
                Ok(())
            }
            None => Err(PsError::UnderflowError),
        }
    }

    /// `pstack`: every operand, from the top down, appended to the output
    /// as its own line; the stack itself is untouched.
    pub fn print_stack(&self, out: &mut Vec<String>) -> (r: Result<(), PsError>)
        ensures
            r == Ok::<(), PsError>(()),
            final(out).deep_view() == old(out).deep_view() + pstack_lines(self@),
    {
        let len = self.items.len();
        let mut k: usize = 0;
        proof {
            assert(out.deep_view() =~= old(out).deep_view() + pstack_lines(self@).take(0));
        }
        while k < len
            invariant
                len == self@.len(),
                k <= len,
                out.deep_view() == old(out).deep_view() + pstack_lines(self@).take(k as int),
            decreases len - k,
        {
            let mut line = to_text(&self.items[len - 1 - k]);
            line.append(" ");
            let ghost lv = line@;
            let ghost prevout = out.deep_view();
            proof {
                assert(self@[len - 1 - k] == obj_view(self.items@[len - 1 - k]));
                assert(lv == pstack_lines(self@)[k as int]);
            }
            out.push(line);
            proof {
                assert(out.deep_view() =~= prevout.push(lv));
                assert(prevout.push(lv) =~= old(out).deep_view() + pstack_lines(self@).take(
                    k + 1,
                ));
                assert(out.deep_view() == old(out).deep_view() + pstack_lines(self@).take(
                    k + 1,
                ));
            }
            k = k + 1;
        }
        proof {
            assert(pstack_lines(self@).take(len as int) =~= pstack_lines(self@));
        }
        Ok(())
    }

    /// `def` (see [`def_step`]): binds in the topmost dictionary layer.
    pub fn def(&mut self, dict_stack: &mut DictStack) -> (r: Result<(), PsError>)
        requires
            old(dict_stack).wf(),
        ensures
            final(dict_stack).wf(),
            (r, final(self)@, final(dict_stack)@) == def_step(old(self)@, old(dict_stack)@),
    {
        let ghost pre = self@;
        match (self.items.pop(), self.items.pop()) {
            (Some(o), Some(Object::Name(ObjectMode::Literal, n))) => {
                proof {
                    assert(self@ =~= popn(pre, 2));
                }
                dict_stack.def(n, o);
                Ok(())
            }
            (None, _) | (_, None) => {
                proof {
                    assert(self@ =~= popn(pre, 2));
                }
                Err(PsError::UnderflowError)
            }
            (Some(_), Some(_)) => {
                proof {
                    assert(self@ =~= popn(pre, 2));
                }
                Err(PsError::TypeError)
            }
        }
    }

    /// `exec` (see [`exec_step`]).
    pub fn exec(&mut self, execution_stack: &mut ExecStack) -> (r: Result<(), PsError>)
        requires
            old(execution_stack).wf(),
        ensures
            final(execution_stack).wf(),
            (r, final(self)@, final(execution_stack)@) == exec_step(
                old(self)@,
                old(execution_stack)@,
            ),
    {
        let ghost pre = self@;
        match self.items.pop() {
            Some(Object::Array(ObjectMode::Executable, p)) => {
                let ghost pv = p@;
                proof {
                    assert(self@ =~= popn(pre, 1));
                    lemma_array_view(ObjectMode::Executable, p);
                }
                execution_stack.push(Runner::Once(OnceRunner::new(p)));
                Ok(())
            }
            Some(o) => {
                let ghost ov = o@;
                proof {
                    assert(self@ =~= popn(pre, 1));
                }
                let mut single: Vec<Object> = Vec::new();
                single.push(o);
                proof {
                    assert(seq_view(single@) =~= seq![ov]);
                }
                execution_stack.push(Runner::Once(OnceRunner::new(single)));
                Ok(())
            }
            None => Err(PsError::UnderflowError),
        }
    }

    /// `if` (see [`cond_if_step`]).
    pub fn cond_if(&mut self, execution_stack: &mut ExecStack) -> (r: Result<(), PsError>)
        requires
            old(execution_stack).wf(),
        ensures
            final(execution_stack).wf(),
            (r, final(self)@, final(execution_stack)@) == cond_if_step(
                old(self)@,
                old(execution_stack)@,
            ),
    {
        let ghost pre = self@;
        match (self.items.pop(), self.items.pop()) {
            (Some(Object::Array(ObjectMode::Executable, p)), Some(Object::Bool(b))) => {
                proof {
                    assert(self@ =~= popn(pre, 2));
                    lemma_array_view(ObjectMode::Executable, p);
                }
                if b {
                    execution_stack.push(Runner::Once(OnceRunner::new(p)));
                }
                Ok(())
            }
            (None, _) | (_, None) => {
                proof {
                    assert(self@ =~= popn(pre, 2));
                }
                Err(PsError::UnderflowError)
            }
            (Some(_), Some(_)) => {
                proof {
                    assert(self@ =~= popn(pre, 2));
                }
                Err(PsError::TypeError)
            }
        }
    }

    /// `ifelse` (see [`cond_ifelse_step`]).
    pub fn cond_ifelse(&mut self, execution_stack: &mut ExecStack) -> (r: Result<(), PsError>)
        requires
            old(execution_stack).wf(),
        ensures
            final(execution_stack).wf(),
            (r, final(self)@, final(execution_stack)@) == cond_ifelse_step(
                old(self)@,
                old(execution_stack)@,
            ),
    {
        let ghost pre = self@;
        match (self.items.pop(), self.items.pop(), self.items.pop()) {
            (
                Some(Object::Array(ObjectMode::Executable, pelse)),
                Some(Object::Array(ObjectMode::Executable, pif)),
                Some(Object::Bool(b)),
            ) => {
                proof {
                    assert(self@ =~= popn(pre, 3));
                    lemma_array_view(ObjectMode::Executable, pelse);
                    lemma_array_view(ObjectMode::Executable, pif);
                }
                if b {
                    execution_stack.push(Runner::Once(OnceRunner::new(pif)));
                } else {
                    execution_stack.push(Runner::Once(OnceRunner::new(pelse)));
                }
                Ok(())
            }
            (None, _, _) | (_, None, _) | (_, _, None) => {
                proof {
                    assert(self@ =~= popn(pre, 3));
                }
                Err(PsError::UnderflowError)
            }
            (Some(_), Some(_), Some(_)) => {
                proof {
                    assert(self@ =~= popn(pre, 3));
                }
                Err(PsError::TypeError)
            }
        }
    }

    /// `repeat` (see [`repeat_step`]).
    pub fn repeat(&mut self, execution_stack: &mut ExecStack) -> (r: Result<(), PsError>)
        requires
            old(execution_stack).wf(),
        ensures
            final(execution_stack).wf(),
            (r, final(self)@, final(execution_stack)@) == repeat_step(
                old(self)@,
                old(execution_stack)@,
            ),
    {
        let ghost pre = self@;
        match (self.items.pop(), self.items.pop()) {
            (Some(Object::Array(ObjectMode::Executable, p)), Some(Object::Integer(times))) => {
                proof {
                    assert(self@ =~= popn(pre, 2));
                    lemma_array_view(ObjectMode::Executable, p);
                }
                if times < 0 {
                    Err(PsError::RangeError)
                } else if times == 0 {
                    Ok(())
                } else {
                    execution_stack.push(Runner::Repeat(RepeatRunner::new(p, times)));
                    Ok(())
                }
            }
            (None, _) | (_, None) => {
                proof {
                    assert(self@ =~= popn(pre, 2));
                }
                Err(PsError::UnderflowError)
            }
            (Some(_), Some(_)) => {
                proof {
                    assert(self@ =~= popn(pre, 2));
                }
                Err(PsError::TypeError)
            }
        }
    }
}

/// The remainder after truncated division, shifted into `[0, n)`, is the
/// mathematical modulus.
proof fn lemma_trunc_rem_mod(j: int, n: int)
    requires
        n > 0,
    ensures
        0 <= j % n < n,
        trunc_rem(j, n) < 0 ==> j % n == trunc_rem(j, n) + n,
        trunc_rem(j, n) >= 0 ==> j % n == trunc_rem(j, n),
{
    vstd::arithmetic::div_mod::lemma_mod_bound(j, n);
    if j > 0 {
        assert(trunc_rem(j, n) == j % n);
    } else if j == 0 {
        vstd::arithmetic::div_mod::lemma_small_mod(0, n as nat);
    } else {
        let a = j * -1;
        vstd::arithmetic::div_mod::lemma_fundamental_div_mod(a, n);
        let q = a / n;
        let r = a % n;
        vstd::arithmetic::div_mod::lemma_mod_bound(a, n);
        assert(j == n * (q * -1) + (r * -1)) by (nonlinear_arith)
            requires
                a == n * q + r,
                a == j * -1,
        ;
        vstd::arithmetic::div_mod::lemma_mod_multiples_vanish(q * -1, r * -1, n);
        if r == 0 {
            vstd::arithmetic::div_mod::lemma_small_mod(0, n as nat);
            assert(trunc_rem(j, n) == 0);
        } else {
            vstd::arithmetic::div_mod::lemma_mod_multiples_vanish(1, r * -1, n);
            vstd::arithmetic::div_mod::lemma_small_mod((n - r) as nat, n as nat);
            assert(j % n == n - r);
            assert(trunc_rem(j, n) == r * -1);
        }
    }
}

/// An element of a rotated window, by index: rotating right by `m`
/// moves the element at `(i - m) mod n` to position `i`.
proof fn lemma_rotate_index(w: Seq<ObjectView>, m: int, i: int)
    requires
        w.len() >= 1,
        0 <= m <= w.len(),
        0 <= i < w.len(),
    ensures
        0 <= (i - m) % (w.len() as int) < w.len(),
        rotate_right(w, m)[i] == w[(i - m) % (w.len() as int)],
{
    let n = w.len() as int;
    vstd::arithmetic::div_mod::lemma_mod_bound(i - m, n);
    vstd::arithmetic::div_mod::lemma_mod_multiples_vanish(1, i - m, n);
    if i < m {
        vstd::arithmetic::div_mod::lemma_small_mod((i - m + n) as nat, n as nat);
        assert(rotate_right(w, m)[i] == w[n - m + i]);
    } else {
        vstd::arithmetic::div_mod::lemma_small_mod((i - m) as nat, n as nat);
        assert(rotate_right(w, m)[i] == w[i - m]);
    }
}

/// Two rotations compose by adding their amounts modulo the window size.
proof fn lemma_rotate_compose(w: Seq<ObjectView>, m1: int, m2: int)
    requires
        w.len() >= 1,
        0 <= m1 < w.len(),
        0 <= m2 < w.len(),
    ensures
        rotate_right(rotate_right(w, m1), m2) == rotate_right(w, (m1 + m2) % (w.len() as int)),
{
    let n = w.len() as int;
    vstd::arithmetic::div_mod::lemma_mod_bound(m1 + m2, n);
    assert forall|i: int| 0 <= i < n implies rotate_right(rotate_right(w, m1), m2)[i]
        == rotate_right(w, (m1 + m2) % n)[i] by {
        lemma_rotate_index(w, m1, i);
        lemma_rotate_index(rotate_right(w, m1), m2, i);
        lemma_rotate_index(w, (m1 + m2) % n, i);
        lemma_rotate_index(w, m1, (i - m2) % n);
        vstd::arithmetic::div_mod::lemma_small_mod(m1 as nat, n as nat);
        vstd::arithmetic::div_mod::lemma_sub_mod_noop(i - m2, m1, n);
        vstd::arithmetic::div_mod::lemma_sub_mod_noop_right(i, m1 + m2, n);
        assert(((i - m2) % n - m1) % n == (i - m2 - m1) % n);
        assert((i - (m1 + m2) % n) % n == (i - (m1 + m2)) % n);
    }
    assert(rotate_right(rotate_right(w, m1), m2) =~= rotate_right(w, (m1 + m2) % n));
}

/// `roll` is a group action on the rolled window: rolling the same `n`
/// topmost operands by `j1` and then by `j2` leaves exactly what one
/// roll by `j1 + j2` leaves, whatever the shifts are.
pub proof fn lemma_roll_group_action(s: Seq<ObjectView>, n: int, j1: int, j2: int)
    requires
        0 <= n <= s.len(),
    ensures
        ({
            let once = roll_step(s.push(ObjectView::Integer(n)).push(ObjectView::Integer(j1)));
            let twice = roll_step(
                once.1.push(ObjectView::Integer(n)).push(ObjectView::Integer(j2)),
            );
            let combined = roll_step(
                s.push(ObjectView::Integer(n)).push(ObjectView::Integer(j1 + j2)),
            );
            once.0 == Ok::<(), PsError>(()) && twice.0 == Ok::<(), PsError>(()) && combined.0
                == Ok::<(), PsError>(()) && twice.1 == combined.1
        }),
{
    let s1 = s.push(ObjectView::Integer(n)).push(ObjectView::Integer(j1));
    assert(popn(s1, 2) =~= s);
    let once = roll_step(s1);
    if n == 0 || n == 1 {
        assert(once.1 == s);
        let s2 = s.push(ObjectView::Integer(n)).push(ObjectView::Integer(j2));
        assert(popn(s2, 2) =~= s);
        let s12 = s.push(ObjectView::Integer(n)).push(ObjectView::Integer(j1 + j2));
        assert(popn(s12, 2) =~= s);
    } else {
        let len = s.len() as int;
        let base = len - n;
        let w = s.skip(base);
        vstd::arithmetic::div_mod::lemma_mod_bound(j1, n);
        vstd::arithmetic::div_mod::lemma_mod_bound(j2, n);
        vstd::arithmetic::div_mod::lemma_mod_bound(j1 + j2, n);
        let r1 = s.take(base) + rotate_right(w, j1 % n);
        assert(once.1 == r1);
        let s2 = r1.push(ObjectView::Integer(n)).push(ObjectView::Integer(j2));
        assert(popn(s2, 2) =~= r1);
        assert(r1.len() == len);
        assert(r1.take(base) =~= s.take(base));
        assert(r1.skip(base) =~= rotate_right(w, j1 % n));
        let twice = roll_step(s2);
        assert(twice.0 == Ok::<(), PsError>(()));
        assert(twice.1 == r1.take(base) + rotate_right(r1.skip(base), j2 % n));
        let s12 = s.push(ObjectView::Integer(n)).push(ObjectView::Integer(j1 + j2));
        assert(popn(s12, 2) =~= s);
        let combined = roll_step(s12);
        assert(combined.1 == s.take(base) + rotate_right(w, (j1 + j2) % n));
        lemma_rotate_compose(w, j1 % n, j2 % n);
        vstd::arithmetic::div_mod::lemma_add_mod_noop(j1, j2, n);
        assert(rotate_right(rotate_right(w, j1 % n), j2 % n) == rotate_right(w, (j1 + j2) % n));
    }
}

} // verus!
