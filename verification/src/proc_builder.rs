use crate::object::{lemma_array_view, seq_view, Object, ObjectMode, ObjectView};
use vstd::prelude::*;

verus! {

/// The nested procedure builder: a stack of partially captured bodies.
/// A non-zero depth means the driver is capturing, not executing.
pub struct ProcBuilder {
    stack: Vec<Vec<Object>>,
}

impl View for ProcBuilder {
    type V = Seq<Seq<ObjectView>>;

    closed spec fn view(&self) -> Seq<Seq<ObjectView>> {
        Seq::new(self.stack@.len(), |i: int| seq_view(self.stack@[i]@))
    }
}

/// One captured object appended to the innermost open body.
pub open spec fn builder_push(b: Seq<Seq<ObjectView>>, o: ObjectView) -> Seq<Seq<ObjectView>>
    recommends
        b.len() > 0,
{
    b.update(b.len() - 1, b.last().push(o))
}

/// A whole sequence of objects captured one after the other.
pub open spec fn builder_push_all(b: Seq<Seq<ObjectView>>, items: Seq<ObjectView>) -> Seq<
    Seq<ObjectView>,
>
    decreases items.len(),
{
    if items.len() == 0 {
        b
    } else {
        builder_push_all(builder_push(b, items[0]), items.skip(1))
    }
}

/// Capture is faithful: opening a body and pushing any sequence of
/// objects accumulates exactly that sequence, in order, in the new
/// innermost body, and touches nothing underneath.  Together with the
/// contract of [`ProcBuilder::close`] this says that the tokens enclosed
/// in a brace pair come back as one executable array holding exactly the
/// objects they were captured as.
pub proof fn lemma_procedure_capture(b: Seq<Seq<ObjectView>>, items: Seq<ObjectView>)
    ensures
        builder_push_all(b.push(Seq::empty()), items) == b.push(items),
    decreases items.len(),
{
    lemma_push_all_general(b, Seq::empty(), items);
    assert(Seq::empty() + items =~= items);
}

/// Pushing `items` onto an open body holding `pfx` leaves `pfx + items`.
proof fn lemma_push_all_general(b: Seq<Seq<ObjectView>>, pfx: Seq<ObjectView>, items: Seq<
    ObjectView,
>)
    ensures
        builder_push_all(b.push(pfx), items) == b.push(pfx + items),
    decreases items.len(),
{
    if items.len() == 0 {
        assert(pfx + items =~= pfx);
    } else {
        let b1 = builder_push(b.push(pfx), items[0]);
        assert(b1 =~= b.push(pfx.push(items[0])));
        lemma_push_all_general(b, pfx.push(items[0]), items.skip(1));
        assert(pfx.push(items[0]) + items.skip(1) =~= pfx + items);
    }
}

impl ProcBuilder {
    /// A closed builder: no capture in progress.
    pub fn new() -> (r: Self)
        ensures
            r@ == Seq::<Seq<ObjectView>>::empty(),
    {
        let r = ProcBuilder { stack: Vec::new() };
        proof {
            assert(r@ =~= Seq::<Seq<ObjectView>>::empty());
        }
        r
    }

    /// Whether a procedure body is being captured.
    pub fn is_open(&self) -> (r: bool)
        ensures
            r == (self@.len() > 0),
    {
        self.stack.len() > 0
    }

    /// Starts a new, deeper body: depth increases by one.
    pub fn open(&mut self)
        ensures
            final(self)@ == old(self)@.push(Seq::<ObjectView>::empty()),
    {
        let fresh: Vec<Object> = Vec::new();
        self.stack.push(fresh);
        proof {
            assert(self@ =~~= old(self)@.push(Seq::<ObjectView>::empty()));
        }
    }

    /// Appends one captured object to the innermost body.
    pub fn push(&mut self, object: Object)
        requires
            old(self)@.len() > 0,
        ensures
            final(self)@ == builder_push(old(self)@, object@),
    {
        let ghost ov = object@;
        let last = self.stack.len() - 1;
        self.stack[last].push(object);
        proof {
            assert(seq_view(self.stack@[last as int]@) =~= old(self)@.last().push(ov));
            assert(self@ =~= builder_push(old(self)@, ov));
        }
    }

    /// Ends the innermost body, wrapping it as an executable array.  At
    /// depth one the array is handed out; deeper, it is captured by the
    /// body underneath and nothing is handed out.
    pub fn close(&mut self) -> (r: Option<Object>)
        requires
            old(self)@.len() > 0,
        ensures
            old(self)@.len() == 1 ==> match r {
                Some(o) => o@ == ObjectView::Array(ObjectMode::Executable, old(self)@.last())
                    && final(self)@ == Seq::<Seq<ObjectView>>::empty(),
                None => false,
            },
            old(self)@.len() > 1 ==> r is None && final(self)@ == builder_push(
                old(self)@.drop_last(),
                ObjectView::Array(ObjectMode::Executable, old(self)@.last()),
            ),
    {
        let body = self.stack.pop().unwrap();
        let ghost bv = seq_view(body@);
        proof {
            lemma_array_view(ObjectMode::Executable, body);
            assert(self@ =~= old(self)@.drop_last());
        }
        let object = Object::Array(ObjectMode::Executable, body);
        if self.stack.len() == 0 {
            Some(object)
        } else {
            let last = self.stack.len() - 1;
            let ghost mid = self@;
            self.stack[last].push(object);
            proof {
                assert(seq_view(self.stack@[last as int]@) =~= mid.last().push(
                    ObjectView::Array(ObjectMode::Executable, bv),
                ));
                assert(self@ =~= builder_push(
                    old(self)@.drop_last(),
                    ObjectView::Array(ObjectMode::Executable, bv),
                ));
            }
            None
        }
    }
}

} // verus!
