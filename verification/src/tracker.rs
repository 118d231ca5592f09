//! The access tracker.
//!
//! `track_access` is the single mutating operation: it logs the event,
//! extends the attribute map for dotted names, and — on the first access of
//! a name only — classifies the name as external, internal or loop-bound.
//! Its contract pins the whole new state to [`track_step`], the
//! mathematical transition function.

use vstd::prelude::*;

verus! {

use crate::access::{AccessKind, VarAccess};
use crate::names::{
    base_of, base_segment, find_first_dot, find_last_dot, is_ignored_name, is_reserved,
    last_dot_idx, lemma_last_dot, second_of,
};
use crate::table::{
    add_if_absent, attr_insert, attrs_add, map_find, map_has, map_lookup, map_put, map_store,
    map_val, set_add,
};
use vstd::string::StrSliceExecFns;
use vstd::string::StringExecFns;

/// Incrementally built classification state for one template analysis.
pub struct VariableTracker {
    /// Every tracked access, in the order visited (diagnostics only).
    pub access_log: Vec<(String, VarAccess)>,
    /// Names first touched by an assignment or loop binding.
    pub internal_vars: Vec<String>,
    /// Base names first touched by a read, hence owed by the caller.
    pub external_vars: Vec<String>,
    /// Loop variable name -> the iterable it ranges over.
    pub loop_vars: Vec<(String, String)>,
    /// Name -> immediate child attribute segments accessed off it.
    pub object_attrs: Vec<(String, Vec<String>)>,
    /// Alias target name -> the aliasing name assigned from it.
    pub object_aliases: Vec<(String, String)>,
    /// Name -> its first recorded access.
    pub first_access: Vec<(String, VarAccess)>,
}

/// The tracker's state as mathematical sequences and tables.
#[verifier::ext_equal]
pub struct TrackerModel {
    pub log: Seq<(Seq<char>, AccessKind)>,
    pub internals: Seq<Seq<char>>,
    pub externals: Seq<Seq<char>>,
    pub loops: Seq<(Seq<char>, Seq<char>)>,
    pub attrs: Seq<(Seq<char>, Seq<Seq<char>>)>,
    pub aliases: Seq<(Seq<char>, Seq<char>)>,
    pub first: Seq<(Seq<char>, AccessKind)>,
}

impl View for VariableTracker {
    type V = TrackerModel;

    open spec fn view(&self) -> TrackerModel {
        TrackerModel {
            log: self.access_log.deep_view(),
            internals: self.internal_vars.deep_view(),
            externals: self.external_vars.deep_view(),
            loops: self.loop_vars.deep_view(),
            attrs: self.object_attrs.deep_view(),
            aliases: self.object_aliases.deep_view(),
            first: self.first_access.deep_view(),
        }
    }
}

/// The state of a freshly constructed tracker.
pub open spec fn empty_model() -> TrackerModel {
    TrackerModel {
        log: Seq::empty(),
        internals: Seq::empty(),
        externals: Seq::empty(),
        loops: Seq::empty(),
        attrs: Seq::empty(),
        aliases: Seq::empty(),
        first: Seq::empty(),
    }
}

/// Attribute-map growth for a dotted name: the attribute goes under the
/// parent path (redirected to the iterable when the parent is a loop
/// variable), and a name of three or more segments additionally back-fills
/// its second segment under its base, so intermediate levels are never
/// left unpopulated.
pub open spec fn step_attrs(t: TrackerModel, name: Seq<char>) -> TrackerModel {
    let ld = last_dot_idx(name);
    if ld < 0 {
        t
    } else {
        let parent = name.subrange(0, ld);
        let attr = name.subrange(ld + 1, name.len() as int);
        let a1 = if map_has(t.loops, parent) {
            attr_insert(t.attrs, map_val(t.loops, parent), attr)
        } else {
            attr_insert(t.attrs, parent, attr)
        };
        let fd = crate::names::first_dot_idx(name);
        let a2 = if 0 <= fd < ld {
            attr_insert(a1, base_of(name), second_of(name))
        } else {
            a1
        };
        TrackerModel { attrs: a2, ..t }
    }
}

/// First-access classification: a first read marks the base name external
/// unless loop-bound; a first assignment marks the name internal; an alias
/// assignment additionally maps the target back to the aliasing name; a
/// loop binding additionally maps the name to its iterable.
pub open spec fn step_classify(t: TrackerModel, name: Seq<char>, kind: AccessKind) -> TrackerModel {
    if map_has(t.first, name) {
        t
    } else {
        let t1 = TrackerModel { first: t.first.push((name, kind)), ..t };
        match kind {
            AccessKind::Read => {
                let b = base_of(name);
                if map_has(t1.loops, b) {
                    t1
                } else {
                    TrackerModel { externals: add_if_absent(t1.externals, b), ..t1 }
                }
            },
            AccessKind::SetValue => TrackerModel {
                internals: add_if_absent(t1.internals, name),
                ..t1
            },
            AccessKind::SetAlias(target) => TrackerModel {
                internals: add_if_absent(t1.internals, name),
                aliases: map_put(t1.aliases, target, name),
                ..t1
            },
            AccessKind::LoopVar(iterable) => TrackerModel {
                internals: add_if_absent(t1.internals, name),
                loops: map_put(t1.loops, name, iterable),
                ..t1
            },
        }
    }
}

/// The full effect of one `track_access` call: empty and reserved names are
/// ignored; every other event is logged, grows the attribute map, and — if
/// this is the name's first access — classifies it.
pub open spec fn track_step(t: TrackerModel, name: Seq<char>, kind: AccessKind) -> TrackerModel {
    if name.len() == 0 || is_reserved(name) {
        t
    } else {
        let t1 = TrackerModel { log: t.log.push((name, kind)), ..t };
        step_classify(step_attrs(t1, name), name, kind)
    }
}

/// Running a whole event sequence from a given state.
pub open spec fn track_all(t: TrackerModel, events: Seq<(Seq<char>, AccessKind)>) -> TrackerModel
    decreases events.len(),
{
    if events.len() == 0 {
        t
    } else {
        track_all(track_step(t, events[0].0, events[0].1), events.drop_first())
    }
}

/// Running `e1 + e2` is running `e1`, then `e2`.
pub proof fn lemma_track_all_append(
    t: TrackerModel,
    e1: Seq<(Seq<char>, AccessKind)>,
    e2: Seq<(Seq<char>, AccessKind)>,
)
    ensures
        track_all(t, e1 + e2) == track_all(track_all(t, e1), e2),
    decreases e1.len(),
{
    if e1.len() == 0 {
        assert(e1 + e2 =~= e2);
    } else {
        let t1 = track_step(t, e1[0].0, e1[0].1);
        lemma_track_all_append(t1, e1.drop_first(), e2);
        assert((e1 + e2).drop_first() =~= e1.drop_first() + e2);
        assert((e1 + e2)[0] == e1[0]);
    }
}

/// Running a single event is one transition step.
pub proof fn lemma_track_all_single(t: TrackerModel, e: (Seq<char>, AccessKind))
    ensures
        track_all(t, seq![e]) == track_step(t, e.0, e.1),
{
    reveal_with_fuel(track_all, 2);
    assert(seq![e].drop_first() =~~= Seq::<(Seq<char>, AccessKind)>::empty());
    assert(seq![e][0] == e);
}

impl VariableTracker {
    /// A tracker with nothing recorded.
    pub fn new() -> (r: VariableTracker)
        ensures
            r@ == empty_model(),
    {
        let r = VariableTracker {
            access_log: Vec::new(),
            internal_vars: Vec::new(),
            external_vars: Vec::new(),
            loop_vars: Vec::new(),
            object_attrs: Vec::new(),
            object_aliases: Vec::new(),
            first_access: Vec::new(),
        };
        proof {
            assert(r@ =~~= empty_model());
        }
        r
    }

    /// Records one variable touch.
    pub fn track_access(&mut self, var_name: &str, access: VarAccess)
        ensures
            final(self)@ == track_step(old(self)@, var_name@, access.deep_view()),
    {
        let ghost t0 = old(self)@;
        let ghost name = var_name@;
        let ghost kind = access.deep_view();
        if is_ignored_name(var_name) {
            return;
        }

        // Ordered access log, used only for diagnostics.
        self.access_log.push((String::from_str(var_name), access.dup()));
        let ghost t1 = TrackerModel { log: t0.log.push((name, kind)), ..t0 };
        proof {
            assert(self@ =~~= t1);
        }

        // Attribute tracking for dotted names.
        let n = var_name.unicode_len();
        proof {
            lemma_last_dot(name);
        }
        match find_last_dot(var_name) {
            Some(ld) => {
                let parent = var_name.substring_char(0, ld);
                let attr = var_name.substring_char(ld + 1, n);
                let redirect = match map_lookup(&self.loop_vars, parent) {
                    Some(iterable) => Some(iterable.clone()),
                    None => None,
                };
                match redirect {
                    Some(iterable) => {
                        attrs_add(&mut self.object_attrs, iterable.as_str(), attr);
                    },
                    None => {
                        attrs_add(&mut self.object_attrs, parent, attr);
                    },
                }
                match find_first_dot(var_name) {
                    Some(fd) if fd < ld => {
                        let base = base_segment(var_name);
                        let rest = var_name.substring_char(fd + 1, n);
                        let second = base_segment(rest);
                        attrs_add(&mut self.object_attrs, base.as_str(), second.as_str());
                    },
                    _ => {},
                }
            },
            None => {},
        }
        let ghost t2 = step_attrs(t1, name);
        proof {
            assert(self@ =~~= t2);
        }

        // First-access classification.
        match map_find(&self.first_access, var_name) {
            Some(_) => {
                proof {
                    assert(self@ =~~= track_step(t0, name, kind));
                }
            },
            None => {
                self.first_access.push((String::from_str(var_name), access.dup()));
                match access {
                    VarAccess::Read => {
                        let base = base_segment(var_name);
                        match map_lookup(&self.loop_vars, base.as_str()) {
                            Some(_) => {},
                            None => {
                                set_add(&mut self.external_vars, base.as_str());
                            },
                        }
                    },
                    VarAccess::SetValue => {
                        set_add(&mut self.internal_vars, var_name);
                    },
                    VarAccess::SetAlias(target) => {
                        set_add(&mut self.internal_vars, var_name);
                        map_store(
                            &mut self.object_aliases,
                            target.as_str(),
                            String::from_str(var_name),
                        );
                    },
                    VarAccess::LoopVar(iterable) => {
                        set_add(&mut self.internal_vars, var_name);
                        map_store(&mut self.loop_vars, var_name, iterable);
                    },
                }
                proof {
                    assert(self@ =~~= track_step(t0, name, kind));
                }
            },
        }
    }
}

} // verus!
