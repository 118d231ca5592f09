//! Classification laws.
//!
//! These proof functions state, over any event sequence run from a fresh
//! tracker, how the output sets relate to first accesses: when a base name
//! is external, when a name is internal, and that reserved names never
//! appear anywhere.

use vstd::prelude::*;

verus! {

use crate::access::AccessKind;
use crate::names::{base_of, is_reserved, lemma_base_not_reserved};
use crate::table::{
    lemma_add_if_absent_props, lemma_map_push_props, map_has, map_val, str_has,
};
use crate::shape::{alias_vals, resolve_from, resolve_spec};
use crate::tracker::{
    empty_model, step_attrs, step_classify, track_all, track_step, TrackerModel,
};

/// Whether a first access of this kind classifies the name as internal.
pub open spec fn is_assign_kind(k: AccessKind) -> bool {
    match k {
        AccessKind::Read => false,
        AccessKind::SetValue => true,
        AccessKind::SetAlias(_) => true,
        AccessKind::LoopVar(_) => true,
    }
}

/// The classification invariant every reachable tracker state satisfies.
///
/// - A base name is external exactly when some name with that base was
///   first touched by a read while the base was not yet loop-bound; since
///   the loop table only grows, the state-level statement splits into the
///   two implications below.
/// - A name is internal exactly when its first access was an assignment,
///   an alias assignment or a loop binding.
/// - A loop-bound name's first access was the loop binding that recorded
///   its iterable.
/// - No empty or reserved (`loop`, `loop.*`) name is ever classified, and
///   no external base is reserved.
pub open spec fn classification_invariant(t: TrackerModel) -> bool {
    &&& forall|b: Seq<char>| #[trigger]
        str_has(t.externals, b) ==> exists|n: Seq<char>|
            #[trigger] map_has(t.first, n) && map_val(t.first, n) == AccessKind::Read && base_of(
                n,
            ) == b
    &&& forall|n: Seq<char>| #[trigger]
        map_has(t.first, n) && map_val(t.first, n) == AccessKind::Read && !map_has(
            t.loops,
            base_of(n),
        ) ==> str_has(t.externals, base_of(n))
    &&& forall|n: Seq<char>| #[trigger]
        map_has(t.first, n) && is_assign_kind(map_val(t.first, n)) ==> str_has(t.internals, n)
    &&& forall|n: Seq<char>| #[trigger]
        str_has(t.internals, n) ==> map_has(t.first, n) && is_assign_kind(map_val(t.first, n))
    &&& forall|n: Seq<char>| #[trigger]
        map_has(t.loops, n) ==> map_has(t.first, n) && map_val(t.first, n)
            == AccessKind::LoopVar(map_val(t.loops, n))
    &&& forall|n: Seq<char>| #[trigger] map_has(t.first, n) ==> n.len() > 0 && !is_reserved(n)
    &&& forall|b: Seq<char>| #[trigger] str_has(t.externals, b) ==> !is_reserved(b)
}

/// A fresh tracker satisfies the invariant.
pub proof fn lemma_empty_invariant()
    ensures
        classification_invariant(empty_model()),
{
}

/// One tracked event preserves the invariant.
pub proof fn lemma_step_invariant(t: TrackerModel, name: Seq<char>, kind: AccessKind)
    requires
        classification_invariant(t),
    ensures
        classification_invariant(track_step(t, name, kind)),
{
    if name.len() == 0 || is_reserved(name) {
        return;
    }
    let t1 = TrackerModel { log: t.log.push((name, kind)), ..t };
    let t2 = step_attrs(t1, name);
    assert(t2.first == t.first && t2.externals == t.externals && t2.internals == t.internals
        && t2.loops == t.loops);
    let t3 = step_classify(t2, name, kind);
    if map_has(t2.first, name) {
        assert(t3 == t2);
        return;
    }
    let f2 = t2.first.push((name, kind));
    lemma_map_push_props(t2.first, (name, kind));
    lemma_base_not_reserved(name);
    match kind {
        AccessKind::Read => {
            let b = base_of(name);
            if map_has(t2.loops, b) {
                assert forall|bb: Seq<char>| #[trigger] str_has(t3.externals, bb) implies exists|
                    n: Seq<char>,
                |
                    #[trigger] map_has(t3.first, n) && map_val(t3.first, n) == AccessKind::Read
                        && base_of(n) == bb by {
                    let n0 = choose|n: Seq<char>|
                        #[trigger] map_has(t.first, n) && map_val(t.first, n) == AccessKind::Read
                            && base_of(n) == bb;
                    assert(map_has(t3.first, n0) && map_val(t3.first, n0) == AccessKind::Read);
                }
            } else {
                lemma_add_if_absent_props(t2.externals, b);
                assert forall|bb: Seq<char>| #[trigger] str_has(t3.externals, bb) implies exists|
                    n: Seq<char>,
                |
                    #[trigger] map_has(t3.first, n) && map_val(t3.first, n) == AccessKind::Read
                        && base_of(n) == bb by {
                    if str_has(t.externals, bb) {
                        let n0 = choose|n: Seq<char>|
                            #[trigger] map_has(t.first, n) && map_val(t.first, n)
                                == AccessKind::Read && base_of(n) == bb;
                        assert(map_has(t3.first, n0) && map_val(t3.first, n0)
                            == AccessKind::Read);
                    } else {
                        assert(bb == b);
                        assert(map_has(t3.first, name) && map_val(t3.first, name)
                            == AccessKind::Read && base_of(name) == bb);
                    }
                }
            }
        },
        AccessKind::SetValue => {
            lemma_add_if_absent_props(t2.internals, name);
            assert forall|bb: Seq<char>| #[trigger] str_has(t3.externals, bb) implies exists|
                n: Seq<char>,
            |
                #[trigger] map_has(t3.first, n) && map_val(t3.first, n) == AccessKind::Read
                    && base_of(n) == bb by {
                let n0 = choose|n: Seq<char>|
                    #[trigger] map_has(t.first, n) && map_val(t.first, n) == AccessKind::Read
                        && base_of(n) == bb;
                assert(map_has(t3.first, n0) && map_val(t3.first, n0) == AccessKind::Read);
            }
        },
        AccessKind::SetAlias(_) => {
            lemma_add_if_absent_props(t2.internals, name);
            assert forall|bb: Seq<char>| #[trigger] str_has(t3.externals, bb) implies exists|
                n: Seq<char>,
            |
                #[trigger] map_has(t3.first, n) && map_val(t3.first, n) == AccessKind::Read
                    && base_of(n) == bb by {
                let n0 = choose|n: Seq<char>|
                    #[trigger] map_has(t.first, n) && map_val(t.first, n) == AccessKind::Read
                        && base_of(n) == bb;
                assert(map_has(t3.first, n0) && map_val(t3.first, n0) == AccessKind::Read);
            }
        },
        AccessKind::LoopVar(iterable) => {
            lemma_add_if_absent_props(t2.internals, name);
            assert(!map_has(t2.loops, name));
            lemma_map_push_props(t2.loops, (name, iterable));
            assert(t3.loops == t2.loops.push((name, iterable)));
            assert forall|bb: Seq<char>| #[trigger] str_has(t3.externals, bb) implies exists|
                n: Seq<char>,
            |
                #[trigger] map_has(t3.first, n) && map_val(t3.first, n) == AccessKind::Read
                    && base_of(n) == bb by {
                let n0 = choose|n: Seq<char>|
                    #[trigger] map_has(t.first, n) && map_val(t.first, n) == AccessKind::Read
                        && base_of(n) == bb;
                assert(map_has(t3.first, n0) && map_val(t3.first, n0) == AccessKind::Read);
            }
            assert forall|n: Seq<char>| #[trigger]
                map_has(t3.first, n) && map_val(t3.first, n) == AccessKind::Read && !map_has(
                    t3.loops,
                    base_of(n),
                ) implies str_has(t3.externals, base_of(n)) by {
                if n != name {
                    assert(map_has(t.first, n) && map_val(t.first, n) == AccessKind::Read);
                    assert(!map_has(t.loops, base_of(n)));
                }
            }
        },
    }
}

/// The invariant holds after running any event sequence.
pub proof fn lemma_invariant_all(t: TrackerModel, events: Seq<(Seq<char>, AccessKind)>)
    requires
        classification_invariant(t),
    ensures
        classification_invariant(track_all(t, events)),
    decreases events.len(),
{
    if events.len() > 0 {
        lemma_step_invariant(t, events[0].0, events[0].1);
        lemma_invariant_all(track_step(t, events[0].0, events[0].1), events.drop_first());
    }
}

/// A base name is external iff some name with that base was first read
/// while the base was not loop-bound. The forward direction names the
/// witnessing first read; the backward direction promises the membership
/// whenever the base never became a loop variable.
pub proof fn lemma_external_classification(events: Seq<(Seq<char>, AccessKind)>)
    ensures
        forall|b: Seq<char>| #[trigger]
            str_has(track_all(empty_model(), events).externals, b) ==> exists|n: Seq<char>|
                #[trigger] map_has(track_all(empty_model(), events).first, n) && map_val(
                    track_all(empty_model(), events).first,
                    n,
                ) == AccessKind::Read && base_of(n) == b,
        forall|n: Seq<char>| #[trigger]
            map_has(track_all(empty_model(), events).first, n) && map_val(
                track_all(empty_model(), events).first,
                n,
            ) == AccessKind::Read && !map_has(
                track_all(empty_model(), events).loops,
                base_of(n),
            ) ==> str_has(track_all(empty_model(), events).externals, base_of(n)),
{
    lemma_empty_invariant();
    lemma_invariant_all(empty_model(), events);
}

/// A name first touched by an assignment or alias assignment is internal,
/// and — provided no dotted name based on it was ever first read — not
/// external.
pub proof fn lemma_internal_classification(events: Seq<(Seq<char>, AccessKind)>, n: Seq<char>)
    requires
        map_has(track_all(empty_model(), events).first, n),
        map_val(track_all(empty_model(), events).first, n) matches AccessKind::SetValue
            || map_val(track_all(empty_model(), events).first, n) matches AccessKind::SetAlias(_),
        forall|m: Seq<char>| #[trigger]
            map_has(track_all(empty_model(), events).first, m) && map_val(
                track_all(empty_model(), events).first,
                m,
            ) == AccessKind::Read ==> base_of(m) != n,
    ensures
        str_has(track_all(empty_model(), events).internals, n),
        !str_has(track_all(empty_model(), events).externals, n),
{
    lemma_empty_invariant();
    lemma_invariant_all(empty_model(), events);
    let t = track_all(empty_model(), events);
    if str_has(t.externals, n) {
        let m = choose|m: Seq<char>|
            #[trigger] map_has(t.first, m) && map_val(t.first, m) == AccessKind::Read && base_of(
                m,
            ) == n;
        assert(base_of(m) != n);
    }
}

/// Empty and reserved (`loop`, `loop.*`) names are never classified: they
/// appear in no output set, and — since the shape's top-level keys are
/// exactly the external names — not at the top level of the shape either.
pub proof fn lemma_reserved_excluded(events: Seq<(Seq<char>, AccessKind)>, n: Seq<char>)
    requires
        n.len() == 0 || is_reserved(n),
    ensures
        !str_has(track_all(empty_model(), events).internals, n),
        !map_has(track_all(empty_model(), events).loops, n),
        !map_has(track_all(empty_model(), events).first, n),
        is_reserved(n) ==> !str_has(track_all(empty_model(), events).externals, n),
{
    lemma_empty_invariant();
    lemma_invariant_all(empty_model(), events);
}

/// Resolving a name that no alias entry points onward from returns it
/// unchanged.
pub proof fn lemma_resolve_fixed(m: Seq<(Seq<char>, Seq<char>)>, n: Seq<char>)
    requires
        !map_has(m, n),
    ensures
        resolve_spec(m, n) == n,
{
}

/// Walking a cyclic alias segment from its entry point comes back to, and
/// stops at, the last name of the segment: `d` is a duplicate-free chain
/// whose last link closes back on `d[0]`, and resolution started at `d[i]`
/// with the first `i + 1` names already visited ends at `d.last()`.
proof fn lemma_cycle_returns(m: Seq<(Seq<char>, Seq<char>)>, d: Seq<Seq<char>>, i: int)
    requires
        d.no_duplicates(),
        1 <= d.len(),
        0 <= i < d.len(),
        forall|t: int| 0 <= t < d.len() ==> #[trigger] map_has(m, d[t]),
        forall|t: int| 0 <= t < d.len() - 1 ==> #[trigger] map_val(m, d[t]) == d[t + 1],
        map_val(m, d.last()) == d[0],
        forall|t: int| 0 <= t < d.len() ==> alias_vals(m).contains(#[trigger] d[t]),
    ensures
        resolve_from(m, d[i], d.take(i + 1)) == d.last(),
    decreases d.len() - i,
{
    let visited = d.take(i + 1);
    assert(visited.no_duplicates());
    assert(forall|t: int|
        0 <= t < visited.len() ==> alias_vals(m).contains(#[trigger] visited[t]));
    let nxt = map_val(m, d[i]);
    if i == d.len() - 1 {
        assert(nxt == d[0]);
        assert(visited[0] == d[0]);
        assert(visited.contains(nxt));
        assert(resolve_from(m, d[i], visited) == d[i]);
    } else {
        assert(nxt == d[i + 1]);
        assert(!visited.contains(nxt)) by {
            if visited.contains(nxt) {
                let t = choose|t: int| 0 <= t < visited.len() && visited[t] == nxt;
                assert(d[t] == d[i + 1]);
            }
        }
        assert(visited.push(nxt) =~~= d.take(i + 2));
        lemma_cycle_returns(m, d, i + 1);
        assert(resolve_from(m, d[i], visited) == resolve_from(m, d[i + 1], d.take(i + 2)));
    }
}

/// The inductive heart of idempotence: whenever the visited list is a
/// duplicate-free alias chain ending at the current name, the final result
/// of the resolution is itself fully resolved.
proof fn lemma_resolve_idem_walk(
    m: Seq<(Seq<char>, Seq<char>)>,
    cur: Seq<char>,
    visited: Seq<Seq<char>>,
)
    requires
        visited.no_duplicates(),
        forall|t: int|
            0 <= t < visited.len() ==> alias_vals(m).contains(#[trigger] visited[t]),
        forall|t: int|
            0 <= t < visited.len() - 1 ==> #[trigger] map_has(m, visited[t]) && map_val(
                m,
                visited[t],
            ) == visited[t + 1],
        visited.len() > 0 ==> cur == visited.last(),
    ensures
        resolve_spec(m, resolve_from(m, cur, visited)) == resolve_from(m, cur, visited),
    decreases m.len() - visited.len(),
{
    if !map_has(m, cur) {
        assert(resolve_from(m, cur, visited) == cur);
        lemma_resolve_fixed(m, cur);
        return;
    }
    let nxt = map_val(m, cur);
    crate::table::lemma_key_idx(m, cur);
    assert(alias_vals(m)[crate::table::key_idx(m, cur)] == nxt);
    assert(alias_vals(m).contains(nxt));
    if visited.contains(nxt) {
        assert(resolve_from(m, cur, visited) == cur);
        let j = choose|j: int| 0 <= j < visited.len() && visited[j] == nxt;
        let k = visited.len() as int;
        let d = visited.subrange(j, k);
        assert(d.len() >= 1);
        assert(d.no_duplicates());
        assert(d.last() == visited.last());
        assert(cur == visited.last());
        assert forall|t: int| 0 <= t < d.len() - 1 implies #[trigger] map_val(m, d[t]) == d[t
            + 1] by {
            assert(d[t] == visited[j + t]);
            assert(d[t + 1] == visited[j + t + 1]);
            assert(map_has(m, visited[j + t]) && map_val(m, visited[j + t]) == visited[j + t + 1]);
        }
        assert forall|t: int| 0 <= t < d.len() implies #[trigger] map_has(m, d[t]) by {
            if t < d.len() - 1 {
                assert(d[t] == visited[j + t]);
                assert(map_has(m, visited[j + t]));
            } else {
                assert(d[t] == cur);
            }
        }
        assert(map_val(m, d.last()) == nxt);
        assert(d[0] == nxt);
        assert(forall|t: int| 0 <= t < d.len() ==> alias_vals(m).contains(#[trigger] d[t]));
        lemma_cycle_returns(m, d, 0);
        assert(!Seq::<Seq<char>>::empty().contains(nxt));
        assert(resolve_spec(m, cur) == resolve_from(m, nxt, Seq::<Seq<char>>::empty().push(nxt)));
        assert(Seq::<Seq<char>>::empty().push(nxt) =~~= d.take(1));
        assert(resolve_spec(m, cur) == cur);
    } else {
        let v2 = visited.push(nxt);
        assert(v2.no_duplicates());
        assert(forall|t: int| 0 <= t < v2.len() ==> alias_vals(m).contains(#[trigger] v2[t]));
        assert(forall|t: int|
            0 <= t < v2.len() - 1 ==> #[trigger] map_has(m, v2[t]) && map_val(m, v2[t]) == v2[t
                + 1]) by {
            assert forall|t: int|
                0 <= t < v2.len() - 1 implies #[trigger] map_has(m, v2[t]) && map_val(m, v2[t])
                == v2[t + 1] by {
                if t < visited.len() - 1 {
                    assert(v2[t] == visited[t]);
                    assert(v2[t + 1] == visited[t + 1]);
                } else {
                    assert(v2[t] == cur);
                    assert(v2[t + 1] == nxt);
                }
            }
        }
        v2.unique_seq_to_set();
        alias_vals(m).lemma_cardinality_of_set();
        assert(v2.to_set().subset_of(alias_vals(m).to_set()));
        vstd::set_lib::lemma_len_subset(v2.to_set(), alias_vals(m).to_set());
        lemma_resolve_idem_walk(m, nxt, v2);
        assert(resolve_from(m, cur, visited) == resolve_from(m, nxt, v2));
    }
}

/// Alias resolution is idempotent: resolving an already-resolved name —
/// whether its chain ended for want of a further alias or by closing a
/// cycle — returns it unchanged. That resolution never loops is
/// established by its termination measure, which is bounded by the number
/// of alias entries.
pub proof fn lemma_resolve_idempotent(m: Seq<(Seq<char>, Seq<char>)>, x: Seq<char>)
    ensures
        resolve_spec(m, resolve_spec(m, x)) == resolve_spec(m, x),
{
    lemma_resolve_idem_walk(m, x, Seq::empty());
}

} // verus!
