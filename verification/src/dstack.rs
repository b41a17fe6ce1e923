use crate::object::{deep_clone, Object, ObjectMode, ObjectView, Operator};
use crate::text::str_eq;
use vstd::prelude::*;
use vstd::string::StringExecFns;

verus! {

/// One dictionary layer: a name-to-object association where a later
/// entry for the same name hides an earlier one.
pub type Dict = Vec<(String, Object)>;

/// The mapping described by one layer's entries.
pub open spec fn entries_map(s: Seq<(String, Object)>) -> Map<Seq<char>, ObjectView>
    decreases s.len(),
{
    if s.len() == 0 {
        Map::empty()
    } else {
        entries_map(s.drop_last()).insert(s.last().0@, s.last().1@)
    }
}

/// Top-to-bottom search through the layers: the topmost (last) layer that
/// binds the name wins.
pub open spec fn lookup(layers: Seq<Map<Seq<char>, ObjectView>>, name: Seq<char>) -> Option<
    ObjectView,
>
    decreases layers.len(),
{
    if layers.len() == 0 {
        None
    } else if layers.last().contains_key(name) {
        Some(layers.last()[name])
    } else {
        lookup(layers.drop_last(), name)
    }
}

/// An executable operator object, as every system binding is.
pub open spec fn op_binding(op: Operator) -> ObjectView {
    ObjectView::Operator(ObjectMode::Executable, op)
}

/// The system dictionary: every operator name bound to its executable
/// operator object.
pub open spec fn system_map() -> Map<Seq<char>, ObjectView> {
    Map::empty().insert("]"@, op_binding(Operator::EndArray)).insert(
        "="@,
        op_binding(Operator::PopAndPrint),
    ).insert("add"@, op_binding(Operator::Add)).insert("clear"@, op_binding(Operator::Clear)).insert(
        "cleartomark"@,
        op_binding(Operator::ClearToMark),
    ).insert("copy"@, op_binding(Operator::Copy)).insert(
        "counttomark"@,
        op_binding(Operator::CountToMark),
    ).insert("def"@, op_binding(Operator::Def)).insert("div"@, op_binding(Operator::Div)).insert(
        "dup"@,
        op_binding(Operator::Dup),
    ).insert("eq"@, op_binding(Operator::Eq)).insert("exch"@, op_binding(Operator::Exch)).insert(
        "exec"@,
        op_binding(Operator::Exec),
    ).insert("gt"@, op_binding(Operator::Gt)).insert("ifelse"@, op_binding(Operator::IfElse)).insert(
        "if"@,
        op_binding(Operator::If),
    ).insert("index"@, op_binding(Operator::Index)).insert(
        "load"@,
        op_binding(Operator::Load),
    ).insert("mod"@, op_binding(Operator::Mod)).insert("mul"@, op_binding(Operator::Mul)).insert(
        "ne"@,
        op_binding(Operator::Ne),
    ).insert("pop"@, op_binding(Operator::Pop)).insert(
        "pstack"@,
        op_binding(Operator::Pstack),
    ).insert("repeat"@, op_binding(Operator::Repeat)).insert(
        "roll"@,
        op_binding(Operator::Roll),
    ).insert("sub"@, op_binding(Operator::Sub))
}

/// The layered dictionary stack.  The bottom layer is the immutable
/// system dictionary; the layer above it is the user dictionary, the
/// target of every insertion.
pub struct DictStack {
    stack: Vec<Dict>,
}

impl View for DictStack {
    type V = Seq<Map<Seq<char>, ObjectView>>;

    closed spec fn view(&self) -> Seq<Map<Seq<char>, ObjectView>> {
        Seq::new(self.stack@.len(), |i: int| entries_map(self.stack@[i]@))
    }
}

/// Appends one operator binding to a layer under construction.
fn bind(d: &mut Dict, name: &str, op: Operator)
    ensures
        entries_map(final(d)@) == entries_map(old(d)@).insert(name@, op_binding(op)),
{
    let entry = (String::from_str(name), Object::Operator(ObjectMode::Executable, op));
    d.push(entry);
    proof {
        assert(d@.drop_last() =~= old(d)@);
        assert(d@.last().1@ == op_binding(op));
    }
}

/// Builds the system dictionary layer.
fn build_systemdict() -> (r: Dict)
    ensures
        entries_map(r@) == system_map(),
{
    let mut d: Dict = Vec::new();
    proof {
        assert(entries_map(d@) =~= Map::<Seq<char>, ObjectView>::empty());
    }
    bind(&mut d, "]", Operator::EndArray);
    bind(&mut d, "=", Operator::PopAndPrint);
    bind(&mut d, "add", Operator::Add);
    bind(&mut d, "clear", Operator::Clear);
    bind(&mut d, "cleartomark", Operator::ClearToMark);
    bind(&mut d, "copy", Operator::Copy);
    bind(&mut d, "counttomark", Operator::CountToMark);
    bind(&mut d, "def", Operator::Def);
    bind(&mut d, "div", Operator::Div);
    bind(&mut d, "dup", Operator::Dup);
    bind(&mut d, "eq", Operator::Eq);
    bind(&mut d, "exch", Operator::Exch);
    bind(&mut d, "exec", Operator::Exec);
    bind(&mut d, "gt", Operator::Gt);
    bind(&mut d, "ifelse", Operator::IfElse);
    bind(&mut d, "if", Operator::If);
    bind(&mut d, "index", Operator::Index);
    bind(&mut d, "load", Operator::Load);
    bind(&mut d, "mod", Operator::Mod);
    bind(&mut d, "mul", Operator::Mul);
    bind(&mut d, "ne", Operator::Ne);
    bind(&mut d, "pop", Operator::Pop);
    bind(&mut d, "pstack", Operator::Pstack);
    bind(&mut d, "repeat", Operator::Repeat);
    bind(&mut d, "roll", Operator::Roll);
    bind(&mut d, "sub", Operator::Sub);
    d
}

impl DictStack {
    /// The shape every dictionary stack keeps: at least the system layer
    /// and the user layer, with the system dictionary at the bottom.
    pub open spec fn wf(&self) -> bool {
        &&& self@.len() >= 2
        &&& self@[0] == system_map()
    }

    /// A fresh dictionary stack: the system dictionary below an empty
    /// user dictionary.
    pub fn new() -> (r: Self)
        ensures
            r.wf(),
            r@.len() == 2,
            r@[0] == system_map(),
            r@[1] == Map::<Seq<char>, ObjectView>::empty(),
    {
        let mut stack: Vec<Dict> = Vec::new();
        stack.push(build_systemdict());
        let user: Dict = Vec::new();
        stack.push(user);
        let r = DictStack { stack };
        proof {
            assert(entries_map(Seq::<(String, Object)>::empty()) =~= Map::<
                Seq<char>,
                ObjectView,
            >::empty());
        }
        r
    }

    /// Inserts a binding into the topmost (user-level) layer.  Lower
    /// layers, the system dictionary among them, are untouched.
    pub fn def(&mut self, key: String, val: Object)
        requires
            old(self).wf(),
        ensures
            final(self).wf(),
            final(self)@.len() == old(self)@.len(),
            final(self)@ == old(self)@.update(
                old(self)@.len() - 1,
                old(self)@.last().insert(key@, val@),
            ),
    {
        let ghost oldv = self@;
        let last = self.stack.len() - 1;
        let entry = (key, val);
        let ghost k = entry.0@;
        let ghost v = entry.1@;
        self.stack[last].push(entry);
        proof {
            assert(self.stack@[last as int]@.drop_last() =~= old(self).stack@[last as int]@);
            assert(self@ =~= oldv.update(oldv.len() - 1, oldv.last().insert(k, v)));
        }
    }

    /// Looks a name up, topmost layer first; the first hit wins.
    pub fn get(&self, key: &str) -> (r: Option<Object>)
        ensures
            match r {
                Some(o) => lookup(self@, key@) == Some(o@),
                None => lookup(self@, key@) is None,
            },
    {
        let mut i = self.stack.len();
        proof {
            assert(self@.subrange(0, self.stack@.len() as int) =~= self@);
        }
        while i > 0
            invariant
                i <= self.stack@.len(),
                lookup(self@, key@) == lookup(self@.subrange(0, i as int), key@),
            decreases i,
        {
            i = i - 1;
            let layer = &self.stack[i];
            let mut j = layer.len();
            while j > 0
                invariant
                    i < self.stack@.len(),
                    j <= layer@.len(),
                    layer@ == self.stack@[i as int]@,
                    lookup(self@, key@) == lookup(self@.subrange(0, i + 1), key@),
                    forall|jj: int| j <= jj < layer@.len() ==> layer@[jj].0@ != key@,
                decreases j,
            {
                j = j - 1;
                if str_eq(layer[j].0.as_str(), key) {
                    let o = deep_clone(&layer[j].1);
                    proof {
                        lemma_entries_map_found(layer@, key@, j as int);
                        assert(self@[i as int] == entries_map(layer@));
                        let pre = self@.subrange(0, i + 1);
                        assert(pre.last() == self@[i as int]);
                        assert(lookup(pre, key@) == Some(entries_map(layer@)[key@]));
                    }
                    return Some(o);
                }
            }
            proof {
                lemma_entries_map_absent(layer@, key@);
                assert(self@[i as int] == entries_map(layer@));
                lemma_lookup_layer_miss(self@, key@, i as int);
            }
        }
        proof {
            assert(self@.subrange(0, 0) =~= Seq::<Map<Seq<char>, ObjectView>>::empty());
        }
        None
    }
}

/// A layer with no entry for the name denotes a map without it.
proof fn lemma_entries_map_absent(s: Seq<(String, Object)>, k: Seq<char>)
    requires
        forall|j: int| 0 <= j < s.len() ==> s[j].0@ != k,
    ensures
        !entries_map(s).contains_key(k),
    decreases s.len(),
{
    if s.len() > 0 {
        lemma_entries_map_absent(s.drop_last(), k);
    }
}

/// The last entry for a name gives the layer's value for it.
proof fn lemma_entries_map_found(s: Seq<(String, Object)>, k: Seq<char>, j: int)
    requires
        0 <= j < s.len(),
        s[j].0@ == k,
        forall|jj: int| j < jj < s.len() ==> s[jj].0@ != k,
    ensures
        entries_map(s).contains_key(k),
        entries_map(s)[k] == s[j].1@,
    decreases s.len(),
{
    if j < s.len() - 1 {
        lemma_entries_map_found(s.drop_last(), k, j);
    }
}

/// A layer without the name passes the search down.
proof fn lemma_lookup_layer_miss(layers: Seq<Map<Seq<char>, ObjectView>>, k: Seq<char>, i: int)
    requires
        0 <= i < layers.len(),
        !layers[i].contains_key(k),
        lookup(layers, k) == lookup(layers.subrange(0, i + 1), k),
    ensures
        lookup(layers, k) == lookup(layers.subrange(0, i), k),
{
    assert(layers.subrange(0, i + 1).drop_last() =~= layers.subrange(0, i));
    assert(layers.subrange(0, i + 1).last() == layers[i]);
}

/// The dictionary stack after a user-level binding of `key` to `val`.
pub open spec fn with_user_binding(
    layers: Seq<Map<Seq<char>, ObjectView>>,
    key: Seq<char>,
    val: ObjectView,
) -> Seq<Map<Seq<char>, ObjectView>>
    recommends
        layers.len() >= 1,
{
    layers.update(layers.len() - 1, layers.last().insert(key, val))
}

/// A `def` in the topmost (user) dictionary hides but does not
/// overwrite a same-named binding below it: the name now resolves to
/// the new object, every other name resolves as before, the system
/// layer at the bottom is untouched, and removing the binding again
/// restores every resolution (when the name was not already bound in
/// the user layer).
pub proof fn lemma_name_shadowing(
    layers: Seq<Map<Seq<char>, ObjectView>>,
    key: Seq<char>,
    val: ObjectView,
)
    requires
        layers.len() >= 1,
    ensures
        lookup(with_user_binding(layers, key, val), key) == Some(val),
        forall|n: Seq<char>|
            n != key ==> #[trigger] lookup(with_user_binding(layers, key, val), n) == lookup(
                layers,
                n,
            ),
        forall|i: int|
            0 <= i < layers.len() - 1 ==> #[trigger] with_user_binding(layers, key, val)[i]
                == layers[i],
        !layers.last().contains_key(key) ==> forall|n: Seq<char>|
            #[trigger] lookup(
                with_user_binding(layers, key, val).update(
                    layers.len() - 1,
                    with_user_binding(layers, key, val).last().remove(key),
                ),
                n,
            ) == lookup(layers, n),
{
    let shadowed = with_user_binding(layers, key, val);
    assert(shadowed.last() == layers.last().insert(key, val));
    assert(shadowed.drop_last() =~= layers.drop_last());
    assert forall|n: Seq<char>| n != key implies #[trigger] lookup(shadowed, n) == lookup(
        layers,
        n,
    ) by {
        if !layers.last().contains_key(n) {
            assert(lookup(shadowed, n) == lookup(shadowed.drop_last(), n));
        }
    }
    if !layers.last().contains_key(key) {
        let restored = shadowed.update(layers.len() - 1, shadowed.last().remove(key));
        assert(shadowed.last().remove(key) =~= layers.last());
        assert(restored =~= layers);
    }
}

} // verus!
