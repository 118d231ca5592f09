//! The inferred data shape and the functions that reconstruct it.
//!
//! A shape is a JSON-like skeleton: objects with string keys, arrays
//! represented by at most one representative element, and the empty-string
//! leaf standing for "scalar or opaque value, shape unknown".

use vstd::prelude::*;

verus! {

broadcast use
    vstd::seq::axiom_seq_index_decreases,
    vstd::seq::axiom_seq_subrange_decreases,
    vstd::std_specs::vec::axiom_vec_decreases_to_view,
;

use crate::names::{join_dot, str_eq};
use crate::table::{key_idx, lemma_key_idx, map_has, map_find, map_lookup, map_val};
use vstd::string::StringExecFns;

/// The inferred shape of one value.
#[derive(Debug, PartialEq, Eq)]
pub enum Shape {
    /// A scalar or opaque value: rendered as the empty string.
    Leaf,
    /// An object with the given fields, in insertion order.
    Object(Vec<(String, Shape)>),
    /// An array, represented by at most one representative element.
    Array(Vec<Shape>),
}

/// The mathematical counterpart of [`Shape`].
pub enum ShapeModel {
    Leaf,
    Object(Seq<(Seq<char>, ShapeModel)>),
    Array(Seq<ShapeModel>),
}

/// The model of a shape value.
pub open spec fn shape_view(s: Shape) -> ShapeModel
    decreases s,
{
    match s {
        Shape::Leaf => ShapeModel::Leaf,
        Shape::Object(fields) => ShapeModel::Object(fields_view(fields@)),
        Shape::Array(items) => ShapeModel::Array(items_view(items@)),
    }
}

/// The models of an object's fields.
pub open spec fn fields_view(fs: Seq<(String, Shape)>) -> Seq<(Seq<char>, ShapeModel)>
    decreases fs,
{
    if fs.len() == 0 {
        Seq::empty()
    } else {
        fields_view(fs.drop_last()).push((fs.last().0@, shape_view(fs.last().1)))
    }
}

/// The models of an array's elements.
pub open spec fn items_view(xs: Seq<Shape>) -> Seq<ShapeModel>
    decreases xs,
{
    if xs.len() == 0 {
        Seq::empty()
    } else {
        items_view(xs.drop_last()).push(shape_view(xs.last()))
    }
}

/// `items_view` is the element-wise model of the element list.
pub proof fn lemma_items_view(xs: Seq<Shape>)
    ensures
        items_view(xs).len() == xs.len(),
        forall|i: int| 0 <= i < xs.len() ==> items_view(xs)[i] == shape_view(xs[i]),
    decreases xs.len(),
{
    if xs.len() > 0 {
        lemma_items_view(xs.drop_last());
    }
}

impl View for Shape {
    type V = ShapeModel;

    open spec fn view(&self) -> ShapeModel {
        shape_view(*self)
    }
}

/// The read-only tracker state the shape builder consumes.
pub struct TemplateData {
    pub internal_vars: Vec<String>,
    pub external_vars: Vec<String>,
    pub loop_vars: Vec<(String, String)>,
    pub object_attrs: Vec<(String, Vec<String>)>,
    pub object_aliases: Vec<(String, String)>,
}

/// The mathematical counterpart of [`TemplateData`].
#[verifier::ext_equal]
pub struct DataModel {
    pub internals: Seq<Seq<char>>,
    pub externals: Seq<Seq<char>>,
    pub loops: Seq<(Seq<char>, Seq<char>)>,
    pub attrs: Seq<(Seq<char>, Seq<Seq<char>>)>,
    pub aliases: Seq<(Seq<char>, Seq<char>)>,
}

impl View for TemplateData {
    type V = DataModel;

    open spec fn view(&self) -> DataModel {
        DataModel {
            internals: self.internal_vars.deep_view(),
            externals: self.external_vars.deep_view(),
            loops: self.loop_vars.deep_view(),
            attrs: self.object_attrs.deep_view(),
            aliases: self.object_aliases.deep_view(),
        }
    }
}

/// Index of the first entry of `m` whose value is `v`, or `-1`.
pub open spec fn val_idx(m: Seq<(Seq<char>, Seq<char>)>, v: Seq<char>) -> int
    decreases m.len(),
{
    if m.len() == 0 {
        -1
    } else if m[0].1 == v {
        0
    } else {
        let r = val_idx(m.drop_first(), v);
        if r < 0 {
            -1
        } else {
            r + 1
        }
    }
}

pub proof fn lemma_val_idx(m: Seq<(Seq<char>, Seq<char>)>, v: Seq<char>)
    ensures
        -1 <= val_idx(m, v) < m.len(),
        val_idx(m, v) == -1 ==> forall|i: int| 0 <= i < m.len() ==> m[i].1 != v,
        val_idx(m, v) >= 0 ==> m[val_idx(m, v)].1 == v,
        val_idx(m, v) >= 0 ==> forall|i: int| 0 <= i < val_idx(m, v) ==> m[i].1 != v,
    decreases m.len(),
{
    if m.len() == 0 {
    } else if m[0].1 == v {
    } else {
        let t = m.drop_first();
        lemma_val_idx(t, v);
        let r = val_idx(t, v);
        if r < 0 {
            assert forall|i: int| 0 <= i < m.len() implies m[i].1 != v by {
                if i > 0 {
                    assert(t[i - 1] == m[i]);
                    assert(t[i - 1].1 != v);
                }
            }
        } else {
            assert(m[r + 1] == t[r]);
            assert forall|i: int| 0 <= i < r + 1 implies m[i].1 != v by {
                if i > 0 {
                    assert(t[i - 1] == m[i]);
                    assert(t[i - 1].1 != v);
                }
            }
        }
    }
}

/// The values of an alias table.
pub open spec fn alias_vals(m: Seq<(Seq<char>, Seq<char>)>) -> Seq<Seq<char>> {
    m.map_values(|p: (Seq<char>, Seq<char>)| p.1)
}

/// Follows alias links from `cur` until none is left or a link would revisit
/// an already-visited name; `visited` holds the names reached so far.
pub open spec fn resolve_from(
    m: Seq<(Seq<char>, Seq<char>)>,
    cur: Seq<char>,
    visited: Seq<Seq<char>>,
) -> Seq<char>
    decreases m.len() - visited.len(),
        when visited.no_duplicates() && (forall|i: int|
            0 <= i < visited.len() ==> alias_vals(m).contains(visited[i]))
{
    if map_has(m, cur) {
        let nxt = map_val(m, cur);
        if visited.contains(nxt) {
            cur
        } else {
            proof {
                lemma_key_idx(m, cur);
                let vs = alias_vals(m);
                assert(vs[key_idx(m, cur)] == nxt);
                assert(vs.contains(nxt));
                let v2 = visited.push(nxt);
                assert(v2.no_duplicates());
                assert(forall|i: int| 0 <= i < v2.len() ==> vs.contains(v2[i]));
                v2.unique_seq_to_set();
                vs.lemma_cardinality_of_set();
                assert(v2.to_set().subset_of(vs.to_set()));
                vstd::set_lib::lemma_len_subset(v2.to_set(), vs.to_set());
            }
            resolve_from(m, nxt, visited.push(nxt))
        }
    } else {
        cur
    }
}

/// Full alias resolution of a name.
pub open spec fn resolve_spec(m: Seq<(Seq<char>, Seq<char>)>, v: Seq<char>) -> Seq<char> {
    resolve_from(m, v, Seq::empty())
}

/// Whether `v` is the iterable of some loop variable, either directly or
/// after resolving the iterable through the alias table.
pub open spec fn is_iterated(d: DataModel, v: Seq<char>) -> bool {
    ||| val_idx(d.loops, v) >= 0
    ||| exists|i: int|
        0 <= i < d.loops.len() && resolve_spec(d.aliases, d.loops[i].1) == v
}

/// Recursively resolves aliases until reaching a non-aliased name; chains
/// that close a cycle stop at the last name reached before repeating one.
#[verifier::loop_isolation(false)]
pub fn resolve_alias_chain(var: &str, aliases: &Vec<(String, String)>) -> (r: String)
    ensures
        r@ == resolve_spec(aliases.deep_view(), var@),
{
    let ghost m = aliases.deep_view();
    let mut current = String::from_str(var);
    let mut visited: Vec<String> = Vec::new();
    proof {
        assert(visited.deep_view() =~= Seq::<Seq<char>>::empty());
    }
    loop
        invariant
            visited.deep_view().no_duplicates(),
            forall|i: int|
                0 <= i < visited.deep_view().len() ==> alias_vals(m).contains(
                    visited.deep_view()[i],
                ),
            visited.len() <= m.len(),
            resolve_spec(m, var@) == resolve_from(m, current@, visited.deep_view()),
        decreases m.len() - visited.len(),
    {
        let ghost vd = visited.deep_view();
        let next = match map_lookup(aliases, current.as_str()) {
            Some(n) => n.clone(),
            None => {
                return current;
            },
        };
        let seen = crate::table::contains_str(&visited, next.as_str());
        proof {
            crate::table::lemma_str_index(vd, next@);
            if crate::table::str_has(vd, next@) {
                assert(vd[crate::table::str_index(vd, next@)] == next@);
                assert(vd.contains(next@));
            } else {
                assert(forall|i: int| 0 <= i < vd.len() ==> vd[i] != next@);
                assert(!vd.contains(next@));
            }
        }
        if seen {
            return current;
        }
        proof {
            lemma_key_idx(m, current@);
            let vs = alias_vals(m);
            assert(vs[key_idx(m, current@)] == next@);
            assert(vs.contains(next@));
            let v2 = vd.push(next@);
            assert(v2.no_duplicates());
            v2.unique_seq_to_set();
            vs.lemma_cardinality_of_set();
            assert(forall|i: int| 0 <= i < v2.len() ==> vs.contains(v2[i]));
            assert(v2.to_set().subset_of(vs.to_set()));
            vstd::set_lib::lemma_len_subset(v2.to_set(), vs.to_set());
        }
        visited.push(next.clone());
        proof {
            assert(visited.deep_view() =~= vd.push(next@));
        }
        current = next;
    }
}

/// Returns `var` itself when it (or an alias chain ending at it) is
/// iterated by some loop, and `None` otherwise.
#[verifier::loop_isolation(false)]
pub fn find_iterated_var(var: &str, data: &TemplateData) -> (r: Option<String>)
    ensures
        match r {
            Some(s) => is_iterated(data@, var@) && s@ == var@,
            None => !is_iterated(data@, var@),
        },
{
    let ghost d = data@;
    let n = data.loop_vars.len();
    let mut i: usize = 0;
    while i < n
        invariant
            i <= n,
            n == d.loops.len(),
            forall|j: int| 0 <= j < i ==> d.loops[j].1 != var@,
        decreases n - i,
    {
        assert(d.loops[i as int] == data.loop_vars@[i as int].deep_view());
        if str_eq(data.loop_vars[i].1.as_str(), var) {
            proof {
                lemma_val_idx(d.loops, var@);
            }
            return Some(String::from_str(var));
        }
        i = i + 1;
    }
    proof {
        lemma_val_idx(d.loops, var@);
        if val_idx(d.loops, var@) >= 0 {
            assert(d.loops[val_idx(d.loops, var@)].1 != var@);
        }
    }
    let mut i: usize = 0;
    while i < n
        invariant
            i <= n,
            n == d.loops.len(),
            val_idx(d.loops, var@) == -1,
            forall|j: int| 0 <= j < i ==> resolve_spec(d.aliases, d.loops[j].1) != var@,
        decreases n - i,
    {
        assert(d.loops[i as int] == data.loop_vars@[i as int].deep_view());
        let resolved_iterable = resolve_alias_chain(
            data.loop_vars[i].1.as_str(),
            &data.object_aliases,
        );
        if str_eq(resolved_iterable.as_str(), var) {
            return Some(resolved_iterable);
        }
        i = i + 1;
    }
    None
}

/// The name of the first loop variable whose iterable is exactly `path`.
#[verifier::loop_isolation(false)]
pub fn find_corresponding_loop_var<'a>(path: &str, data: &'a TemplateData) -> (r: Option<
    &'a String,
>)
    ensures
        match r {
            Some(s) => val_idx(data@.loops, path@) >= 0 && s@ == data@.loops[val_idx(
                data@.loops,
                path@,
            )].0,
            None => val_idx(data@.loops, path@) == -1,
        },
{
    proof {
        lemma_val_idx(data@.loops, path@);
    }
    let ghost d = data@;
    let n = data.loop_vars.len();
    let mut i: usize = 0;
    while i < n
        invariant
            i <= n,
            n == d.loops.len(),
            forall|j: int| 0 <= j < i ==> d.loops[j].1 != path@,
        decreases n - i,
    {
        assert(d.loops[i as int] == data.loop_vars@[i as int].deep_view());
        if str_eq(data.loop_vars[i].1.as_str(), path) {
            proof {
                if val_idx(d.loops, path@) == -1 {
                    assert(d.loops[i as int].1 != path@);
                }
                if val_idx(d.loops, path@) > i {
                    assert(d.loops[i as int].1 != path@);
                }
                if 0 <= val_idx(d.loops, path@) < i {
                    assert(d.loops[val_idx(d.loops, path@)].1 != path@);
                }
            }
            return Some(&data.loop_vars[i].0);
        }
        i = i + 1;
    }
    proof {
        if val_idx(d.loops, path@) >= 0 {
            assert(d.loops[val_idx(d.loops, path@)].1 != path@);
        }
    }
    None
}

/// The attribute segment that is always array-shaped, whether or not any
/// loop iterates over it. This fixed rule mirrors how tool-call message
/// fields are conventionally laid out; widen it here if more such
/// segments turn up.
pub open spec fn array_forced_word() -> Seq<char> {
    seq!['t', 'o', 'o', 'l', '_', 'c', 'a', 'l', 'l', 's']
}

/// Whether `attr` is the segment that [`array_forced_word`] forces to
/// array shape.
pub fn is_array_forced(attr: &str) -> (r: bool)
    ensures
        r == (attr@ == array_forced_word()),
{
    let w = "tool_calls";
    proof {
        reveal_strlit("tool_calls");
        assert(w@ =~= array_forced_word());
    }
    str_eq(attr, w)
}

/// How many attribute-table keys are strictly longer than `len`: the
/// termination measure of the shape recursion, which only ever steps from
/// a key to a strictly longer nested key.
pub open spec fn count_longer(a: Seq<(Seq<char>, Seq<Seq<char>>)>, len: nat) -> nat
    decreases a.len(),
{
    if a.len() == 0 {
        0
    } else {
        (if a[0].0.len() > len {
            1nat
        } else {
            0nat
        }) + count_longer(a.drop_first(), len)
    }
}

pub proof fn lemma_count_longer_mono(a: Seq<(Seq<char>, Seq<Seq<char>>)>, l1: nat, l2: nat)
    requires
        l1 <= l2,
    ensures
        count_longer(a, l2) <= count_longer(a, l1),
    decreases a.len(),
{
    if a.len() > 0 {
        lemma_count_longer_mono(a.drop_first(), l1, l2);
    }
}

pub proof fn lemma_count_longer_strict(a: Seq<(Seq<char>, Seq<Seq<char>>)>, l: nat, k: Seq<char>)
    requires
        map_has(a, k),
        k.len() > l,
    ensures
        count_longer(a, k.len()) < count_longer(a, l),
    decreases a.len(),
{
    if a[0].0 == k {
        lemma_count_longer_mono(a.drop_first(), l, k.len());
    } else {
        lemma_count_longer_strict(a.drop_first(), l, k);
    }
}

/// The shape of the field `a` of the object at path `key`: a nested
/// object (array-wrapped when iterated or forced) when the nested path has
/// recorded attributes, and the leaf placeholder otherwise.
pub open spec fn field_shape(d: DataModel, key: Seq<char>, a: Seq<char>) -> ShapeModel
    decreases count_longer(d.attrs, key.len()), 0nat,
{
    let nested = key + seq!['.'] + a;
    if map_has(d.attrs, nested) {
        proof {
            lemma_count_longer_strict(d.attrs, key.len(), nested);
        }
        let sub = ShapeModel::Object(shape_fields(d, nested, map_val(d.attrs, nested)));
        if val_idx(d.loops, nested) >= 0 || a == array_forced_word() {
            ShapeModel::Array(seq![sub])
        } else {
            sub
        }
    } else {
        ShapeModel::Leaf
    }
}

/// The fields of the object at path `key`, one per attribute segment.
pub open spec fn shape_fields(
    d: DataModel,
    key: Seq<char>,
    attrs: Seq<Seq<char>>,
) -> Seq<(Seq<char>, ShapeModel)>
    decreases count_longer(d.attrs, key.len()), attrs.len(),
{
    if attrs.len() == 0 {
        Seq::empty()
    } else {
        seq![(attrs[0], field_shape(d, key, attrs[0]))] + shape_fields(d, key, attrs.drop_first())
    }
}

pub proof fn lemma_shape_fields_append(
    d: DataModel,
    key: Seq<char>,
    a1: Seq<Seq<char>>,
    a2: Seq<Seq<char>>,
)
    ensures
        shape_fields(d, key, a1 + a2) == shape_fields(d, key, a1) + shape_fields(d, key, a2),
    decreases a1.len(),
{
    if a1.len() == 0 {
        assert(a1 + a2 =~~= a2);
        assert(shape_fields(d, key, a1) + shape_fields(d, key, a2) =~= shape_fields(d, key, a2));
    } else {
        assert((a1 + a2)[0] == a1[0]);
        assert((a1 + a2).drop_first() =~~= a1.drop_first() + a2);
        lemma_shape_fields_append(d, key, a1.drop_first(), a2);
        assert(seq![(a1[0], field_shape(d, key, a1[0]))] + (shape_fields(d, key, a1.drop_first())
            + shape_fields(d, key, a2)) =~= (seq![(a1[0], field_shape(d, key, a1[0]))]
            + shape_fields(d, key, a1.drop_first())) + shape_fields(d, key, a2));
    }
}

pub proof fn lemma_shape_fields_single(d: DataModel, key: Seq<char>, a: Seq<char>)
    ensures
        shape_fields(d, key, seq![a]) == seq![(a, field_shape(d, key, a))],
{
    reveal_with_fuel(shape_fields, 2);
    assert(seq![a].drop_first() =~~= Seq::<Seq<char>>::empty());
    assert(shape_fields(d, key, seq![a]) =~= seq![(a, field_shape(d, key, a))]);
}

/// The whole object shape recorded for `key`: its fields when any are
/// recorded, and the empty object otherwise.
pub open spec fn object_shape(d: DataModel, key: Seq<char>) -> ShapeModel {
    if map_has(d.attrs, key) {
        ShapeModel::Object(shape_fields(d, key, map_val(d.attrs, key)))
    } else {
        ShapeModel::Object(Seq::empty())
    }
}

/// The top-level shape entry for the external name `var`: its alias
/// resolution decides which object's attributes apply, and loop evidence
/// decides whether the result is array-wrapped.
pub open spec fn top_entry(d: DataModel, var: Seq<char>) -> ShapeModel {
    let resolved = resolve_spec(d.aliases, var);
    if is_iterated(d, resolved) {
        if map_has(d.attrs, resolved) {
            ShapeModel::Array(seq![object_shape(d, resolved)])
        } else {
            ShapeModel::Array(Seq::empty())
        }
    } else {
        if map_has(d.attrs, resolved) {
            object_shape(d, resolved)
        } else {
            ShapeModel::Leaf
        }
    }
}

/// One shape entry per external name, keyed by the name actually referenced.
pub open spec fn shape_entries(d: DataModel, vars: Seq<Seq<char>>) -> Seq<(Seq<char>, ShapeModel)>
    decreases vars.len(),
{
    if vars.len() == 0 {
        Seq::empty()
    } else {
        seq![(vars[0], top_entry(d, vars[0]))] + shape_entries(d, vars.drop_first())
    }
}

pub proof fn lemma_shape_entries_append(d: DataModel, v1: Seq<Seq<char>>, v2: Seq<Seq<char>>)
    ensures
        shape_entries(d, v1 + v2) == shape_entries(d, v1) + shape_entries(d, v2),
    decreases v1.len(),
{
    if v1.len() == 0 {
        assert(v1 + v2 =~~= v2);
        assert(shape_entries(d, v1) + shape_entries(d, v2) =~= shape_entries(d, v2));
    } else {
        assert((v1 + v2)[0] == v1[0]);
        assert((v1 + v2).drop_first() =~~= v1.drop_first() + v2);
        lemma_shape_entries_append(d, v1.drop_first(), v2);
        assert(seq![(v1[0], top_entry(d, v1[0]))] + (shape_entries(d, v1.drop_first())
            + shape_entries(d, v2)) =~= (seq![(v1[0], top_entry(d, v1[0]))] + shape_entries(
            d,
            v1.drop_first(),
        )) + shape_entries(d, v2));
    }
}

pub proof fn lemma_shape_entries_single(d: DataModel, var: Seq<char>)
    ensures
        shape_entries(d, seq![var]) == seq![(var, top_entry(d, var))],
{
    reveal_with_fuel(shape_entries, 2);
    assert(seq![var].drop_first() =~~= Seq::<Seq<char>>::empty());
    assert(shape_entries(d, seq![var]) =~= seq![(var, top_entry(d, var))]);
}

/// The complete shape: one entry per external variable.
pub open spec fn build_shape(d: DataModel) -> ShapeModel {
    ShapeModel::Object(shape_entries(d, d.externals))
}

/// Builds the object shape recorded for `obj_key` from its attribute
/// entries, recursing into nested paths that have attributes of their own.
#[verifier::loop_isolation(false)]
pub fn build_object_from_attrs(obj_key: &str, data: &TemplateData) -> (r: Shape)
    ensures
        r@ == object_shape(data@, obj_key@),
    decreases count_longer(data@.attrs, obj_key@.len()),
{
    let ghost d = data@;
    proof {
        lemma_key_idx(d.attrs, obj_key@);
    }
    let attrs_vec = match map_lookup(&data.object_attrs, obj_key) {
        Some(v) => v,
        None => {
            let r = Shape::Object(Vec::new());
            proof {
                assert(r@ =~~= object_shape(d, obj_key@));
            }
            return r;
        },
    };
    let ghost ams = map_val(d.attrs, obj_key@);
    let n = attrs_vec.len();
    let mut fields: Vec<(String, Shape)> = Vec::new();
    proof {
        assert(fields_view(fields@) =~= shape_fields(d, obj_key@, ams.take(0)));
    }
    let mut i: usize = 0;
    while i < n
        invariant
            i <= n,
            n == ams.len(),
            attrs_vec.deep_view() == ams,
            fields_view(fields@) == shape_fields(d, obj_key@, ams.take(i as int)),
        decreases n - i,
    {
        assert(ams[i as int] == attrs_vec@[i as int]@);
        let ghost a = ams[i as int];
        let nested = join_dot(obj_key, attrs_vec[i].as_str());
        let looped = match find_corresponding_loop_var(nested.as_str(), data) {
            Some(_) => true,
            None => false,
        };
        let forced = is_array_forced(attrs_vec[i].as_str());
        proof {
            lemma_key_idx(d.attrs, nested@);
        }
        let has_nested = match map_find(&data.object_attrs, nested.as_str()) {
            Some(_) => true,
            None => false,
        };
        let value: Shape;
        if has_nested {
            proof {
                lemma_count_longer_strict(d.attrs, obj_key@.len(), nested@);
            }
            let sub = build_object_from_attrs(nested.as_str(), data);
            let ghost subm = sub@;
            if looped || forced {
                let mut arr: Vec<Shape> = Vec::new();
                arr.push(sub);
                proof {
                    lemma_items_view(arr@);
                    assert(items_view(arr@) =~= seq![subm]);
                }
                value = Shape::Array(arr);
            } else {
                value = sub;
            }
        } else {
            value = Shape::Leaf;
        }
        proof {
            lemma_val_idx(d.loops, nested@);
            assert(value@ == field_shape(d, obj_key@, a));
        }
        let ghost old_fields = fields@;
        let owned = attrs_vec[i].clone();
        fields.push((owned, value));
        proof {
            assert(fields@.drop_last() =~= old_fields);
            assert(fields_view(fields@) == fields_view(old_fields).push((a, value@)));
            assert(ams.take(i + 1) =~~= ams.take(i as int) + seq![a]);
            lemma_shape_fields_append(d, obj_key@, ams.take(i as int), seq![a]);
            lemma_shape_fields_single(d, obj_key@, a);
            assert(fields_view(fields@) =~= shape_fields(d, obj_key@, ams.take(i + 1)));
        }
        i = i + 1;
    }
    proof {
        assert(ams.take(n as int) =~~= ams);
    }
    let r = Shape::Object(fields);
    proof {
        assert(r@ =~~= object_shape(d, obj_key@));
    }
    r
}

/// Builds the nested shape object: one top-level entry per external
/// variable, resolved through aliases and loop indirection.
#[verifier::loop_isolation(false)]
pub fn build_nested_object(data: &TemplateData) -> (r: Shape)
    ensures
        r@ == build_shape(data@),
{
    let ghost d = data@;
    let n = data.external_vars.len();
    let mut fields: Vec<(String, Shape)> = Vec::new();
    proof {
        assert(fields_view(fields@) =~= shape_entries(d, d.externals.take(0)));
    }
    let mut i: usize = 0;
    while i < n
        invariant
            i <= n,
            n == d.externals.len(),
            fields_view(fields@) == shape_entries(d, d.externals.take(i as int)),
        decreases n - i,
    {
        assert(d.externals[i as int] == data.external_vars@[i as int]@);
        let ghost var = d.externals[i as int];
        let resolved_var = resolve_alias_chain(data.external_vars[i].as_str(), &data.object_aliases);
        proof {
            lemma_key_idx(d.attrs, resolved_var@);
        }
        let value: Shape;
        match find_iterated_var(resolved_var.as_str(), data) {
            Some(iterated) => {
                let has_attrs = match map_find(&data.object_attrs, iterated.as_str()) {
                    Some(_) => true,
                    None => false,
                };
                if has_attrs {
                    let item_obj = build_object_from_attrs(iterated.as_str(), data);
                    let ghost subm = item_obj@;
                    let mut arr: Vec<Shape> = Vec::new();
                    arr.push(item_obj);
                    proof {
                        lemma_items_view(arr@);
                        assert(items_view(arr@) =~= seq![subm]);
                    }
                    value = Shape::Array(arr);
                } else {
                    let arr: Vec<Shape> = Vec::new();
                    proof {
                        lemma_items_view(arr@);
                        assert(items_view(arr@) =~= Seq::<ShapeModel>::empty());
                    }
                    value = Shape::Array(arr);
                }
            },
            None => {
                let has_attrs = match map_find(&data.object_attrs, resolved_var.as_str()) {
                    Some(_) => true,
                    None => false,
                };
                if has_attrs {
                    value = build_object_from_attrs(resolved_var.as_str(), data);
                } else {
                    value = Shape::Leaf;
                }
            },
        }
        proof {
            assert(value@ == top_entry(d, var));
        }
        let ghost old_fields = fields@;
        let owned = data.external_vars[i].clone();
        fields.push((owned, value));
        proof {
            assert(fields@.drop_last() =~= old_fields);
            assert(fields_view(fields@) == fields_view(old_fields).push((var, value@)));
            assert(d.externals.take(i + 1) =~~= d.externals.take(i as int) + seq![var]);
            lemma_shape_entries_append(d, d.externals.take(i as int), seq![var]);
            lemma_shape_entries_single(d, var);
            assert(fields_view(fields@) =~= shape_entries(d, d.externals.take(i + 1)));
        }
        i = i + 1;
    }
    proof {
        assert(d.externals.take(n as int) =~~= d.externals);
    }
    let r = Shape::Object(fields);
    proof {
        assert(r@ =~~= build_shape(d));
    }
    r
}

} // verus!
