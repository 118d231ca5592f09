//! Small association tables over string names.
//!
//! The tracker's sets and maps are plain vectors in first-insertion order:
//! a set is a `Vec<String>` without duplicates, a map is a `Vec<(String, V)>`
//! looked up by its first matching key. The spec functions below are the
//! mathematical counterparts the contracts speak of.

use vstd::prelude::*;

verus! {

use crate::names::str_eq;
use vstd::string::StringExecFns;

/// Index of the first occurrence of `x` in `s`, or `-1`.
pub open spec fn str_index(s: Seq<Seq<char>>, x: Seq<char>) -> int
    decreases s.len(),
{
    if s.len() == 0 {
        -1
    } else if s[0] == x {
        0
    } else {
        let r = str_index(s.drop_first(), x);
        if r < 0 {
            -1
        } else {
            r + 1
        }
    }
}

/// Whether `x` occurs in `s`.
pub open spec fn str_has(s: Seq<Seq<char>>, x: Seq<char>) -> bool {
    str_index(s, x) >= 0
}

/// `s` with `x` appended, unless already present.
pub open spec fn add_if_absent(s: Seq<Seq<char>>, x: Seq<char>) -> Seq<Seq<char>> {
    if str_has(s, x) {
        s
    } else {
        s.push(x)
    }
}

pub proof fn lemma_str_index(s: Seq<Seq<char>>, x: Seq<char>)
    ensures
        -1 <= str_index(s, x) < s.len(),
        str_index(s, x) == -1 ==> forall|i: int| 0 <= i < s.len() ==> s[i] != x,
        str_index(s, x) >= 0 ==> s[str_index(s, x)] == x,
        str_index(s, x) >= 0 ==> forall|i: int| 0 <= i < str_index(s, x) ==> s[i] != x,
    decreases s.len(),
{
    if s.len() == 0 {
    } else if s[0] == x {
    } else {
        let t = s.drop_first();
        lemma_str_index(t, x);
        let r = str_index(t, x);
        if r < 0 {
            assert forall|i: int| 0 <= i < s.len() implies s[i] != x by {
                if i > 0 {
                    assert(t[i - 1] == s[i]);
                    assert(t[i - 1] != x);
                }
            }
        } else {
            assert(s[r + 1] == t[r]);
            assert forall|i: int| 0 <= i < r + 1 implies s[i] != x by {
                if i > 0 {
                    assert(t[i - 1] == s[i]);
                    assert(t[i - 1] != x);
                }
            }
        }
    }
}

/// Index of the first entry of `m` whose key is `k`, or `-1`.
pub open spec fn key_idx<V>(m: Seq<(Seq<char>, V)>, k: Seq<char>) -> int
    decreases m.len(),
{
    if m.len() == 0 {
        -1
    } else if m[0].0 == k {
        0
    } else {
        let r = key_idx(m.drop_first(), k);
        if r < 0 {
            -1
        } else {
            r + 1
        }
    }
}

/// Whether `m` holds an entry keyed by `k`.
pub open spec fn map_has<V>(m: Seq<(Seq<char>, V)>, k: Seq<char>) -> bool {
    key_idx(m, k) >= 0
}

/// The value of the first entry of `m` keyed by `k` (meaningful when present).
pub open spec fn map_val<V>(m: Seq<(Seq<char>, V)>, k: Seq<char>) -> V {
    m[key_idx(m, k)].1
}

/// `m` with the entry for `k` replaced by `(k, v)` (moved to the end),
/// or appended when `k` was absent.
pub open spec fn map_put<V>(m: Seq<(Seq<char>, V)>, k: Seq<char>, v: V) -> Seq<(Seq<char>, V)> {
    if map_has(m, k) {
        m.remove(key_idx(m, k)).push((k, v))
    } else {
        m.push((k, v))
    }
}

/// The attribute table with `x` added to the segment set of `k`:
/// the entry is extended in place, or appended when `k` was absent.
pub open spec fn attr_insert(
    a: Seq<(Seq<char>, Seq<Seq<char>>)>,
    k: Seq<char>,
    x: Seq<char>,
) -> Seq<(Seq<char>, Seq<Seq<char>>)> {
    let i = key_idx(a, k);
    if i < 0 {
        a.push((k, seq![x]))
    } else {
        a.update(i, (k, add_if_absent(a[i].1, x)))
    }
}

pub proof fn lemma_key_idx<V>(m: Seq<(Seq<char>, V)>, k: Seq<char>)
    ensures
        -1 <= key_idx(m, k) < m.len(),
        key_idx(m, k) == -1 ==> forall|i: int| 0 <= i < m.len() ==> m[i].0 != k,
        key_idx(m, k) >= 0 ==> m[key_idx(m, k)].0 == k,
        key_idx(m, k) >= 0 ==> forall|i: int| 0 <= i < key_idx(m, k) ==> m[i].0 != k,
    decreases m.len(),
{
    if m.len() == 0 {
    } else if m[0].0 == k {
    } else {
        let t = m.drop_first();
        lemma_key_idx(t, k);
        let r = key_idx(t, k);
        if r < 0 {
            assert forall|i: int| 0 <= i < m.len() implies m[i].0 != k by {
                if i > 0 {
                    assert(t[i - 1] == m[i]);
                    assert(t[i - 1].0 != k);
                }
            }
        } else {
            assert(m[r + 1] == t[r]);
            assert forall|i: int| 0 <= i < r + 1 implies m[i].0 != k by {
                if i > 0 {
                    assert(t[i - 1] == m[i]);
                    assert(t[i - 1].0 != k);
                }
            }
        }
    }
}

/// Position of the first occurrence of `x` in `v`, if any.
#[verifier::loop_isolation(false)]
pub fn find_str(v: &Vec<String>, x: &str) -> (r: Option<usize>)
    ensures
        match r {
            Some(i) => str_index(v.deep_view(), x@) == i as int,
            None => str_index(v.deep_view(), x@) == -1,
        },
{
    proof {
        lemma_str_index(v.deep_view(), x@);
    }
    let ghost s = v.deep_view();
    let n = v.len();
    let mut i: usize = 0;
    while i < n
        invariant
            i <= n,
            n == s.len(),
            forall|j: int| 0 <= j < i ==> s[j] != x@,
        decreases n - i,
    {
        assert(s[i as int] == v@[i as int]@);
        if str_eq(v[i].as_str(), x) {
            proof {
                if str_index(s, x@) == -1 {
                    assert(s[i as int] != x@);
                }
                if str_index(s, x@) > i {
                    assert(s[i as int] != x@);
                }
                if 0 <= str_index(s, x@) < i {
                    assert(s[str_index(s, x@)] != x@);
                }
            }
            return Some(i);
        }
        i = i + 1;
    }
    proof {
        if str_index(s, x@) >= 0 {
            assert(s[str_index(s, x@)] != x@);
        }
    }
    None
}

/// Whether `x` occurs in `v`.
pub fn contains_str(v: &Vec<String>, x: &str) -> (r: bool)
    ensures
        r == str_has(v.deep_view(), x@),
{
    match find_str(v, x) {
        Some(_) => true,
        None => false,
    }
}

/// Appends `x` unless already present.
pub fn set_add(v: &mut Vec<String>, x: &str)
    ensures
        final(v).deep_view() == add_if_absent(old(v).deep_view(), x@),
{
    let present = contains_str(v, x);
    if !present {
        v.push(String::from_str(x));
        proof {
            assert(v.deep_view() =~= old(v).deep_view().push(x@));
        }
    }
}

/// Position of the first entry of `v` keyed by `k`, if any.
#[verifier::loop_isolation(false)]
pub fn map_find<V: DeepView>(v: &Vec<(String, V)>, k: &str) -> (r: Option<usize>)
    ensures
        match r {
            Some(i) => key_idx(v.deep_view(), k@) == i as int,
            None => key_idx(v.deep_view(), k@) == -1,
        },
{
    proof {
        lemma_key_idx(v.deep_view(), k@);
    }
    let ghost s = v.deep_view();
    let n = v.len();
    let mut i: usize = 0;
    while i < n
        invariant
            i <= n,
            n == s.len(),
            forall|j: int| 0 <= j < i ==> s[j].0 != k@,
        decreases n - i,
    {
        assert(s[i as int] == v@[i as int].deep_view());
        assert(s[i as int].0 == v@[i as int].0@);
        if str_eq(v[i].0.as_str(), k) {
            proof {
                if key_idx(s, k@) == -1 {
                    assert(s[i as int].0 != k@);
                }
                if key_idx(s, k@) > i {
                    assert(s[i as int].0 != k@);
                }
                if 0 <= key_idx(s, k@) < i {
                    assert(s[key_idx(s, k@)].0 != k@);
                }
            }
            return Some(i);
        }
        i = i + 1;
    }
    proof {
        if key_idx(s, k@) >= 0 {
            assert(s[key_idx(s, k@)].0 != k@);
        }
    }
    None
}

/// A reference to the value stored under `k`, if any.
pub fn map_lookup<'a, V: DeepView>(v: &'a Vec<(String, V)>, k: &str) -> (r: Option<&'a V>)
    ensures
        match r {
            Some(x) => map_has(v.deep_view(), k@) && x.deep_view() == map_val(v.deep_view(), k@),
            None => !map_has(v.deep_view(), k@),
        },
{
    proof {
        lemma_key_idx(v.deep_view(), k@);
    }
    match map_find(v, k) {
        Some(i) => {
            assert(i < v.len());
            assert(v.deep_view()[i as int] == v@[i as int].deep_view());
            Some(&v[i].1)
        },
        None => None,
    }
}

/// Adds the segment `x` to the attribute set recorded for `k`.
pub fn attrs_add(v: &mut Vec<(String, Vec<String>)>, k: &str, x: &str)
    ensures
        final(v).deep_view() == attr_insert(old(v).deep_view(), k@, x@),
{
    let ghost s = old(v).deep_view();
    proof {
        lemma_key_idx(s, k@);
    }
    match map_find(v, k) {
        Some(i) => {
            assert(i < v.len());
            assert(s[i as int] == v@[i as int].deep_view());
            let mut entry = v.remove(i);
            set_add(&mut entry.1, x);
            v.insert(i, entry);
            proof {
                assert(v.deep_view() =~~= s.update(i as int, (k@, add_if_absent(s[i as int].1, x@))));
            }
        },
        None => {
            v.push((String::from_str(k), vec![String::from_str(x)]));
            proof {
                assert(v.deep_view() =~~= s.push((k@, seq![x@])));
            }
        },
    }
}

/// Stores `(k, val)`, replacing (and moving to the end) any earlier entry for `k`.
pub fn map_store<V: DeepView>(v: &mut Vec<(String, V)>, k: &str, val: V)
    ensures
        final(v).deep_view() == map_put(old(v).deep_view(), k@, val.deep_view()),
{
    let ghost s = old(v).deep_view();
    proof {
        lemma_key_idx(s, k@);
    }
    match map_find(v, k) {
        Some(i) => {
            assert(i < v.len());
            let _ = v.remove(i);
            proof {
                assert(v.deep_view() =~= s.remove(i as int));
            }
            v.push((String::from_str(k), val));
            proof {
                assert(v.deep_view() =~= s.remove(i as int).push((k@, val.deep_view())));
            }
        },
        None => {
            v.push((String::from_str(k), val));
            proof {
                assert(v.deep_view() =~= s.push((k@, val.deep_view())));
            }
        },
    }
}

/// Membership in a set vector after appending one element.
pub proof fn lemma_str_push_props(s: Seq<Seq<char>>, x: Seq<char>)
    ensures
        forall|y: Seq<char>| #[trigger]
            str_has(s.push(x), y) == (str_has(s, y) || y == x),
    decreases s.len(),
{
    if s.len() == 0 {
        assert forall|y: Seq<char>| #[trigger] str_has(s.push(x), y) == (str_has(s, y) || y == x) by {
            reveal_with_fuel(str_index, 2);
            assert(s.push(x)[0] == x);
            assert(s.push(x).drop_first() =~~= Seq::<Seq<char>>::empty());
        }
    } else {
        lemma_str_push_props(s.drop_first(), x);
        assert forall|y: Seq<char>| #[trigger] str_has(s.push(x), y) == (str_has(s, y) || y == x) by {
            assert(s.push(x)[0] == s[0]);
            assert(s.push(x).drop_first() =~~= s.drop_first().push(x));
            assert(str_has(s.drop_first().push(x), y) == (str_has(s.drop_first(), y) || y == x));
        }
    }
}

/// Membership under [`add_if_absent`].
pub proof fn lemma_add_if_absent_props(s: Seq<Seq<char>>, x: Seq<char>)
    ensures
        forall|y: Seq<char>| #[trigger]
            str_has(add_if_absent(s, x), y) == (str_has(s, y) || y == x),
{
    lemma_str_push_props(s, x);
}

/// Lookup in a table after appending one entry: every earlier entry keeps
/// its binding, and the new key binds the new value when it was absent.
pub proof fn lemma_map_push_props<V>(m: Seq<(Seq<char>, V)>, p: (Seq<char>, V))
    ensures
        forall|k: Seq<char>| #[trigger] map_has(m.push(p), k) == (map_has(m, k) || p.0 == k),
        forall|k: Seq<char>|
            map_has(m, k) ==> map_val(m.push(p), k) == #[trigger] map_val(m, k),
        !map_has(m, p.0) ==> map_val(m.push(p), p.0) == p.1,
    decreases m.len(),
{
    if m.len() == 0 {
        assert forall|k: Seq<char>| #[trigger]
            map_has(m.push(p), k) == (map_has(m, k) || p.0 == k) by {
            reveal_with_fuel(key_idx, 2);
            assert(m.push(p)[0] == p);
            assert(m.push(p).drop_first() =~~= Seq::<(Seq<char>, V)>::empty());
        }
        assert(!map_has(m, p.0) ==> map_val(m.push(p), p.0) == p.1) by {
            reveal_with_fuel(key_idx, 2);
            assert(m.push(p)[0] == p);
        }
    } else {
        lemma_map_push_props(m.drop_first(), p);
        assert(m.push(p)[0] == m[0]);
        assert(m.push(p).drop_first() =~~= m.drop_first().push(p));
        assert forall|k: Seq<char>| #[trigger]
            map_has(m.push(p), k) == (map_has(m, k) || p.0 == k) by {
            assert(map_has(m.drop_first().push(p), k) == (map_has(m.drop_first(), k) || p.0 == k));
        }
        assert forall|k: Seq<char>| map_has(m, k) implies map_val(m.push(p), k) == #[trigger]
            map_val(m, k) by {
            lemma_key_idx(m, k);
            lemma_key_idx(m.push(p), k);
            if m[0].0 == k {
                assert(key_idx(m, k) == 0);
                assert(key_idx(m.push(p), k) == 0);
                assert(m.push(p)[0] == m[0]);
            } else {
                lemma_key_idx(m.drop_first(), k);
                lemma_key_idx(m.drop_first().push(p), k);
                let j = key_idx(m.drop_first(), k);
                assert(key_idx(m, k) == j + 1);
                assert(m[j + 1] == m.drop_first()[j]);
                assert(map_val(m, k) == map_val(m.drop_first(), k));
                assert(map_has(m.drop_first(), k));
                assert(map_has(m.drop_first().push(p), k));
                let j2 = key_idx(m.drop_first().push(p), k);
                assert(j2 >= 0);
                assert(m.push(p)[0].0 != k);
                assert(key_idx(m.push(p).drop_first(), k) == j2);
                assert(key_idx(m.push(p), k) == j2 + 1);
                assert(m.push(p)[j2 + 1] == m.push(p).drop_first()[j2]);
                assert(map_val(m.push(p), k) == map_val(m.drop_first().push(p), k));
                assert(map_val(m.drop_first().push(p), k) == map_val(m.drop_first(), k));
            }
        }
        if !map_has(m, p.0) {
            lemma_key_idx(m.push(p), p.0);
            lemma_key_idx(m.drop_first().push(p), p.0);
            assert(map_val(m.drop_first().push(p), p.0) == p.1);
            assert(map_has(m.drop_first().push(p), p.0));
            let j2 = key_idx(m.drop_first().push(p), p.0);
            assert(j2 >= 0);
            assert(m.push(p)[0].0 != p.0);
            assert(key_idx(m.push(p).drop_first(), p.0) == j2);
            assert(key_idx(m.push(p), p.0) == j2 + 1);
            assert(m.push(p)[j2 + 1] == m.push(p).drop_first()[j2]);
            assert(map_val(m.push(p), p.0) == map_val(m.drop_first().push(p), p.0));
        }
    }
}

/// A value-equal copy of a string vector.
#[verifier::loop_isolation(false)]
pub fn clone_strings(v: &Vec<String>) -> (r: Vec<String>)
    ensures
        r.deep_view() == v.deep_view(),
{
    let mut r: Vec<String> = Vec::new();
    let n = v.len();
    let mut i: usize = 0;
    while i < n
        invariant
            i <= n,
            n == v.len(),
            r.deep_view() =~= v.deep_view().take(i as int),
        decreases n - i,
    {
        r.push(v[i].clone());
        proof {
            assert(r.deep_view() =~= v.deep_view().take(i + 1));
        }
        i = i + 1;
    }
    proof {
        assert(v.deep_view().take(n as int) =~~= v.deep_view());
    }
    r
}

/// A value-equal copy of a string-pair vector.
#[verifier::loop_isolation(false)]
pub fn clone_str_pairs(v: &Vec<(String, String)>) -> (r: Vec<(String, String)>)
    ensures
        r.deep_view() == v.deep_view(),
{
    let mut r: Vec<(String, String)> = Vec::new();
    let n = v.len();
    let mut i: usize = 0;
    while i < n
        invariant
            i <= n,
            n == v.len(),
            r.deep_view() =~= v.deep_view().take(i as int),
        decreases n - i,
    {
        r.push((v[i].0.clone(), v[i].1.clone()));
        proof {
            assert(r.deep_view() =~= v.deep_view().take(i + 1));
        }
        i = i + 1;
    }
    proof {
        assert(v.deep_view().take(n as int) =~~= v.deep_view());
    }
    r
}

/// A value-equal copy of an attribute table.
#[verifier::loop_isolation(false)]
pub fn clone_attr_table(v: &Vec<(String, Vec<String>)>) -> (r: Vec<(String, Vec<String>)>)
    ensures
        r.deep_view() == v.deep_view(),
{
    let mut r: Vec<(String, Vec<String>)> = Vec::new();
    let n = v.len();
    let mut i: usize = 0;
    while i < n
        invariant
            i <= n,
            n == v.len(),
            r.deep_view() =~= v.deep_view().take(i as int),
        decreases n - i,
    {
        let segs = clone_strings(&v[i].1);
        r.push((v[i].0.clone(), segs));
        proof {
            assert(r.deep_view() =~= v.deep_view().take(i + 1));
        }
        i = i + 1;
    }
    proof {
        assert(v.deep_view().take(n as int) =~~= v.deep_view());
    }
    r
}

} // verus!
