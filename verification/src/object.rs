use crate::decimal::{i64_chars, int_text};
use crate::text::chars_to_string;
use vstd::prelude::*;
use vstd::string::{StringExecFns, StrSliceExecFns};

verus! {

broadcast use vstd::std_specs::vec::axiom_vec_index_decreases;

/// Whether a container or reference is pushed (literal) or invoked
/// (executable) when it is encountered during execution.
#[derive(Debug, Clone, Copy, PartialEq, Eq, Structural)]
pub enum ObjectMode {
    Literal,
    Executable,
}

/// The closed set of built-in operators.
#[derive(Debug, Clone, Copy, PartialEq, Eq, Structural)]
pub enum Operator {
    Add,
    Load,
    Clear,
    Copy,
    Index,
    Def,
    Div,
    Exec,
    PopAndPrint,
    Dup,
    Eq,
    Ne,
    Exch,
    Gt,
    If,
    IfElse,
    Mod,
    Mul,
    Pop,
    Repeat,
    Roll,
    Sub,
    EndArray,
    Pstack,
    ClearToMark,
    CountToMark,
}

/// The tagged value universe of the language.
///
/// A real literal carries its source text: real arithmetic is not part of
/// the evaluation rules, so a real is only ever stored and printed.
#[derive(Debug)]
pub enum Object {
    Integer(i64),
    Real(String),
    Bool(bool),
    Mark,
    Array(ObjectMode, Vec<Object>),
    Name(ObjectMode, String),
    Operator(ObjectMode, Operator),
    String(ObjectMode, String),
    File(ObjectMode, String),
}

/// The mathematical shape of an [`Object`]: strings become character
/// sequences and arrays become sequences of shapes.  All contracts speak
/// about objects through this view.
pub enum ObjectView {
    Integer(int),
    Real(Seq<char>),
    Bool(bool),
    Mark,
    Array(ObjectMode, Seq<ObjectView>),
    Name(ObjectMode, Seq<char>),
    Operator(ObjectMode, Operator),
    String(ObjectMode, Seq<char>),
    File(ObjectMode, Seq<char>),
}

/// The view of one object.
pub open spec fn obj_view(o: Object) -> ObjectView
    decreases o, 0int,
{
    match o {
        Object::Integer(i) => ObjectView::Integer(i as int),
        Object::Real(t) => ObjectView::Real(t@),
        Object::Bool(b) => ObjectView::Bool(b),
        Object::Mark => ObjectView::Mark,
        Object::Array(m, items) => ObjectView::Array(m, views_from(items, 0)),
        Object::Name(m, n) => ObjectView::Name(m, n@),
        Object::Operator(m, op) => ObjectView::Operator(m, op),
        Object::String(m, t) => ObjectView::String(m, t@),
        Object::File(m, n) => ObjectView::File(m, n@),
    }
}

/// The views of the elements of `items` from position `i` on.
pub open spec fn views_from(items: Vec<Object>, i: int) -> Seq<ObjectView>
    decreases items, items@.len() - i,
{
    if 0 <= i < items@.len() {
        seq![obj_view(items@[i])] + views_from(items, i + 1)
    } else {
        seq![]
    }
}

/// The views of a sequence of objects, elementwise.
pub open spec fn seq_view(s: Seq<Object>) -> Seq<ObjectView> {
    Seq::new(s.len(), |i: int| obj_view(s[i]))
}

/// An element of the elementwise view is the element's view.
pub broadcast proof fn lemma_seq_view_index(s: Seq<Object>, i: int)
    requires
        0 <= i < s.len(),
    ensures
        #[trigger] seq_view(s)[i] == obj_view(s[i]),
{
}

/// The elementwise view keeps the length.
pub broadcast proof fn lemma_seq_view_len(s: Seq<Object>)
    ensures
        #[trigger] seq_view(s).len() == s.len(),
{
}

/// `views_from` from position `i` is the elementwise view of the suffix.
pub proof fn lemma_views_from(items: Vec<Object>, i: int)
    requires
        0 <= i <= items@.len(),
    ensures
        views_from(items, i) == seq_view(items@).subrange(i, items@.len() as int),
    decreases items@.len() - i,
{
    if i < items@.len() {
        lemma_views_from(items, i + 1);
    }
    assert(views_from(items, i) =~= seq_view(items@).subrange(i, items@.len() as int));
}

/// The view of an array object is the elementwise view of its items.
pub proof fn lemma_array_view(m: ObjectMode, items: Vec<Object>)
    ensures
        obj_view(Object::Array(m, items)) == ObjectView::Array(m, seq_view(items@)),
{
    lemma_views_from(items, 0);
    assert(seq_view(items@).subrange(0, items@.len() as int) =~= seq_view(items@));
}

impl View for Object {
    type V = ObjectView;

    open spec fn view(&self) -> ObjectView {
        obj_view(*self)
    }
}

/// A structural copy of an object, equal to the original under the view.
pub fn deep_clone(o: &Object) -> (r: Object)
    ensures
        r@ == o@,
    decreases *o,
{
    match o {
        Object::Integer(i) => Object::Integer(*i),
        Object::Real(t) => Object::Real(t.clone()),
        Object::Bool(b) => Object::Bool(*b),
        Object::Mark => Object::Mark,
        Object::Array(m, items) => {
            let mut v: Vec<Object> = Vec::new();
            let mut i: usize = 0;
            while i < items.len()
                invariant
                    *o == Object::Array(*m, *items),
                    i <= items@.len(),
                    v@.len() == i as int,
                    forall|j: int| 0 <= j < i ==> v@[j]@ == items@[j]@,
                decreases items@.len() - i,
            {
                proof {
                    assert(o->Array_1 == *items);
                    assert(decreases_to!(*o => o->Array_1));
                    assert(decreases_to!(*items => items@[i as int]));
                }
                let e = deep_clone(&items[i]);
                v.push(e);
                i += 1;
            }
            proof {
                lemma_array_view(*m, v);
                lemma_array_view(*m, *items);
                assert(seq_view(v@) =~= seq_view(items@));
            }
            Object::Array(*m, v)
        }
        Object::Name(m, n) => Object::Name(*m, n.clone()),
        Object::Operator(m, op) => Object::Operator(*m, *op),
        Object::String(m, t) => Object::String(*m, t.clone()),
        Object::File(m, n) => Object::File(*m, n.clone()),
    }
}

/// The bracketed glyph of an operator.
pub open spec fn op_text(op: Operator) -> Seq<char> {
    match op {
        Operator::Add => "--add--"@,
        Operator::Load => "--load--"@,
        Operator::Clear => "--clear--"@,
        Operator::Copy => "--copy--"@,
        Operator::Index => "--index--"@,
        Operator::Def => "--def--"@,
        Operator::Div => "--div--"@,
        Operator::Exec => "--exec--"@,
        Operator::PopAndPrint => "--=--"@,
        Operator::Dup => "--dup--"@,
        Operator::Eq => "--eq--"@,
        Operator::Ne => "--ne--"@,
        Operator::Exch => "--exch--"@,
        Operator::Gt => "--gt--"@,
        Operator::If => "--if--"@,
        Operator::IfElse => "--ifElse--"@,
        Operator::Mod => "--mod--"@,
        Operator::Mul => "--mul--"@,
        Operator::Pop => "--pop--"@,
        Operator::Repeat => "--repeat--"@,
        Operator::Roll => "--roll--"@,
        Operator::Sub => "--sub--"@,
        Operator::EndArray => "--]--"@,
        Operator::Pstack => "--pstack--"@,
        Operator::ClearToMark => "--cleartomark--"@,
        Operator::CountToMark => "--counttomark--"@,
    }
}

/// The canonical, seed-free textual representation used by the printing
/// operators: tagged forms for scalars and names, a bracketed
/// comma-separated list for arrays, the glyph for operators.
pub open spec fn text_of(v: ObjectView) -> Seq<char>
    decreases v, 0int,
{
    match v {
        ObjectView::Integer(i) => "Integer("@ + int_text(i) + ")"@,
        ObjectView::Real(t) => "Real("@ + t + ")"@,
        ObjectView::Bool(b) => "Bool("@ + (if b {
            "true"@
        } else {
            "false"@
        }) + ")"@,
        ObjectView::Mark => "Mark"@,
        ObjectView::Array(_m, items) => "["@ + texts_from(items, 0),
        ObjectView::Name(_m, n) => "Name("@ + n + ")"@,
        ObjectView::Operator(_m, op) => op_text(op),
        ObjectView::String(_m, t) => t,
        ObjectView::File(_m, n) => "File("@ + n + ")"@,
    }
}

/// The renderings of the elements from position `i` on, each followed by a
/// comma, closed by a bracket.
pub open spec fn texts_from(items: Seq<ObjectView>, i: int) -> Seq<char>
    decreases items, items.len() - i,
{
    if 0 <= i < items.len() {
        text_of(items[i]) + ","@ + texts_from(items, i + 1)
    } else {
        "]"@
    }
}

/// The glyph of an operator as a string.
fn op_to_text(op: Operator) -> (r: String)
    ensures
        r@ == op_text(op),
{
    match op {
        Operator::Add => String::from_str("--add--"),
        Operator::Load => String::from_str("--load--"),
        Operator::Clear => String::from_str("--clear--"),
        Operator::Copy => String::from_str("--copy--"),
        Operator::Index => String::from_str("--index--"),
        Operator::Def => String::from_str("--def--"),
        Operator::Div => String::from_str("--div--"),
        Operator::Exec => String::from_str("--exec--"),
        Operator::PopAndPrint => String::from_str("--=--"),
        Operator::Dup => String::from_str("--dup--"),
        Operator::Eq => String::from_str("--eq--"),
        Operator::Ne => String::from_str("--ne--"),
        Operator::Exch => String::from_str("--exch--"),
        Operator::Gt => String::from_str("--gt--"),
        Operator::If => String::from_str("--if--"),
        Operator::IfElse => String::from_str("--ifElse--"),
        Operator::Mod => String::from_str("--mod--"),
        Operator::Mul => String::from_str("--mul--"),
        Operator::Pop => String::from_str("--pop--"),
        Operator::Repeat => String::from_str("--repeat--"),
        Operator::Roll => String::from_str("--roll--"),
        Operator::Sub => String::from_str("--sub--"),
        Operator::EndArray => String::from_str("--]--"),
        Operator::Pstack => String::from_str("--pstack--"),
        Operator::ClearToMark => String::from_str("--cleartomark--"),
        Operator::CountToMark => String::from_str("--counttomark--"),
    }
}

/// Renders an object in its canonical textual representation.
pub fn to_text(o: &Object) -> (r: String)
    ensures
        r@ == text_of(o@),
    decreases *o,
{
    match o {
        Object::Integer(i) => {
            let mut s = String::from_str("Integer(");
            let digits = chars_to_string(&i64_chars(*i));
            s.append(digits.as_str());
            s.append(")");
            s
        }
        Object::Real(t) => {
            let mut s = String::from_str("Real(");
            s.append(t.as_str());
            s.append(")");
            s
        }
        Object::Bool(b) => {
            let mut s = String::from_str("Bool(");
            if *b {
                s.append("true");
            } else {
                s.append("false");
            }
            s.append(")");
            s
        }
        Object::Mark => String::from_str("Mark"),
        Object::Array(m, items) => {
            let ghost iv = seq_view(items@);
            proof {
                lemma_array_view(*m, *items);
            }
            let mut s = String::from_str("[");
            let mut i: usize = 0;
            while i < items.len()
                invariant
                    *o == Object::Array(*m, *items),
                    i <= items@.len(),
                    iv == seq_view(items@),
                    iv.len() == items@.len(),
                    text_of(obj_view(Object::Array(*m, *items))) == s@ + texts_from(iv, i as int),
                decreases items@.len() - i,
            {
                proof {
                    lemma_views_from(*items, 0);
                    assert(iv[i as int] == items@[i as int]@);
                    assert(decreases_to!(Object::Array(*m, *items) => *items));
                    assert(decreases_to!(*items => items@[i as int]));
                }
                let t = to_text(&items[i]);
                s.append(t.as_str());
                s.append(",");
                i += 1;
            }
            s.append("]");
            s
        }
        Object::Name(m, n) => {
            let mut s = String::from_str("Name(");
            s.append(n.as_str());
            s.append(")");
            s
        }
        Object::Operator(_m, op) => op_to_text(*op),
        Object::String(_m, t) => {
            let mut s = String::new();
            s.append(t.as_str());
            s
        }
        Object::File(m, n) => {
            let mut s = String::from_str("File(");
            s.append(n.as_str());
            s.append(")");
            s
        }
    }
}

} // verus!
