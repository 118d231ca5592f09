//! The pre-order tree walk that feeds the tracker.
//!
//! Each walk function's contract says that the tracker ends up exactly in
//! the state reached by running the node's event sequence (see
//! [`crate::ast`]) through the tracker's transition function.

use vstd::prelude::*;

verus! {

broadcast use
    vstd::seq::axiom_seq_index_decreases,
    vstd::seq::axiom_seq_subrange_decreases,
    vstd::std_specs::vec::axiom_vec_decreases_to_view,
;

use crate::access::{AccessKind, VarAccess};
use crate::ast::{
    assigns_events, expr_events, exprs_events, first_var_in, first_var_name,
    lemma_assigns_events_take_step, lemma_exprs_events_take_step, lemma_stmts_events_take_step,
    loop_target_name, path_of, set_target_events, stmt_events, stmts_events, subscript_name, Expr,
    Stmt,
};
use crate::names::join_dot;
use crate::tracker::{
    lemma_track_all_append, lemma_track_all_single, track_all, VariableTracker,
};
use vstd::string::StrSliceExecFns;
use vstd::string::StringExecFns;

/// The full dotted attribute path of an expression, empty when the
/// expression is not a (possibly nested) attribute access of a variable.
pub fn get_attribute_path(expr: &Expr) -> (r: String)
    ensures
        r@ == path_of(*expr),
    decreases *expr,
{
    match expr {
        Expr::Var(id) => id.clone(),
        Expr::GetAttr(base, name) => {
            let base_path = get_attribute_path(base);
            if base_path.unicode_len() > 0 {
                join_dot(base_path.as_str(), name.as_str())
            } else {
                let r = String::new();
                proof {
                    assert(r@ =~= path_of(*expr));
                }
                r
            }
        },
        _ => {
            let r = String::new();
            proof {
                assert(r@ =~= path_of(*expr));
            }
            r
        },
    }
}

/// The first identifier field reachable in an expression, pattern-matching
/// on the node variants directly.
#[verifier::loop_isolation(false)]
pub fn extract_var_name(expr: &Expr) -> (r: Option<String>)
    ensures
        match r {
            Some(s) => first_var_name(*expr) == Some(s@),
            None => first_var_name(*expr) is None,
        },
    decreases *expr,
{
    match expr {
        Expr::Var(id) => Some(id.clone()),
        Expr::GetAttr(base, _name) => extract_var_name(base),
        Expr::GetItem(base, _sub) => extract_var_name(base),
        Expr::List(items) => {
            let ghost es = items@;
            proof {
                assert(es.skip(0) =~= es);
            }
            let n = items.len();
            let mut i: usize = 0;
            while i < n
                invariant
                    i <= n,
                    n == es.len(),
                    first_var_in(es) == first_var_in(es.skip(i as int)),
                decreases n - i,
            {
                let found = extract_var_name(&items[i]);
                proof {
                    assert(es.skip(i as int)[0] == es[i as int]);
                    assert(es.skip(i as int).drop_first() =~= es.skip(i + 1));
                }
                match found {
                    Some(s) => {
                        return Some(s);
                    },
                    None => {},
                }
                i = i + 1;
            }
            proof {
                assert(es.skip(n as int) =~= Seq::<Expr>::empty());
            }
            None
        },
        _ => None,
    }
}

/// Records the reads of every expression in the list, in order.
#[verifier::loop_isolation(false)]
pub fn collect_reads_list(exprs: &Vec<Expr>, tracker: &mut VariableTracker)
    ensures
        final(tracker)@ == track_all(old(tracker)@, exprs_events(exprs@)),
    decreases *exprs,
{
    let ghost t0 = old(tracker)@;
    let ghost es = exprs@;
    proof {
        assert(es.take(0) =~= Seq::<Expr>::empty());
    }
    let n = exprs.len();
    let mut i: usize = 0;
    while i < n
        invariant
            i <= n,
            n == es.len(),
            tracker@ == track_all(t0, exprs_events(es.take(i as int))),
        decreases n - i,
    {
        collect_var_reads(&exprs[i], tracker);
        proof {
            lemma_exprs_events_take_step(es, i as int);
            lemma_track_all_append(t0, exprs_events(es.take(i as int)), expr_events(es[i as int]));
        }
        i = i + 1;
    }
    proof {
        assert(es.take(n as int) =~~= es);
    }
}

/// Tracks every variable read an expression performs, in visit order.
#[verifier::loop_isolation(false)]
pub fn collect_var_reads(expr: &Expr, tracker: &mut VariableTracker)
    ensures
        final(tracker)@ == track_all(old(tracker)@, expr_events(*expr)),
    decreases *expr,
{
    let ghost t0 = old(tracker)@;
    match expr {
        Expr::Var(id) => {
            tracker.track_access(id.as_str(), VarAccess::Read);
            proof {
                lemma_track_all_single(t0, (id@, AccessKind::Read));
            }
        },
        Expr::GetAttr(base, _name) => {
            let attr_path = get_attribute_path(expr);
            tracker.track_access(attr_path.as_str(), VarAccess::Read);
            let ghost head = seq![(path_of(*expr), AccessKind::Read)];
            proof {
                lemma_track_all_single(t0, (path_of(*expr), AccessKind::Read));
            }
            collect_var_reads(base, tracker);
            proof {
                lemma_track_all_append(t0, head, expr_events(**base));
            }
        },
        Expr::GetItem(base, sub) => {
            let read_name: Option<String> = match &**base {
                Expr::Var(id) => match &**sub {
                    Expr::ConstText(text) => Some(join_dot(id.as_str(), text.as_str())),
                    _ => None,
                },
                _ => None,
            };
            let ghost head = match subscript_name(*expr) {
                Some(nm) => seq![(nm, AccessKind::Read)],
                None => Seq::<(Seq<char>, AccessKind)>::empty(),
            };
            match read_name {
                Some(nm) => {
                    tracker.track_access(nm.as_str(), VarAccess::Read);
                    proof {
                        lemma_track_all_single(t0, (nm@, AccessKind::Read));
                    }
                },
                None => {},
            }
            let ghost t1 = tracker@;
            proof {
                assert(t1 == track_all(t0, head));
            }
            collect_var_reads(base, tracker);
            proof {
                lemma_track_all_append(t0, head, expr_events(**base));
            }
            collect_var_reads(sub, tracker);
            proof {
                lemma_track_all_append(t0, head + expr_events(**base), expr_events(**sub));
                assert(expr_events(*expr) =~~= (head + expr_events(**base)) + expr_events(**sub));
            }
        },
        Expr::Call(callee, args) => {
            collect_var_reads(callee, tracker);
            collect_reads_list(args, tracker);
            proof {
                lemma_track_all_append(t0, expr_events(**callee), exprs_events(args@));
            }
        },
        Expr::Filter(base, args) => {
            let ghost head = match base {
                Some(b) => expr_events(**b),
                None => Seq::<(Seq<char>, AccessKind)>::empty(),
            };
            match base {
                Some(b) => {
                    collect_var_reads(b, tracker);
                },
                None => {},
            }
            proof {
                assert(tracker@ == track_all(t0, head));
            }
            collect_reads_list(args, tracker);
            proof {
                lemma_track_all_append(t0, head, exprs_events(args@));
            }
        },
        Expr::Test(base, args) => {
            collect_var_reads(base, tracker);
            collect_reads_list(args, tracker);
            proof {
                lemma_track_all_append(t0, expr_events(**base), exprs_events(args@));
            }
        },
        Expr::BinOp(left, right) => {
            collect_var_reads(left, tracker);
            collect_var_reads(right, tracker);
            proof {
                lemma_track_all_append(t0, expr_events(**left), expr_events(**right));
            }
        },
        Expr::UnaryOp(inner) => {
            collect_var_reads(inner, tracker);
        },
        Expr::List(items) => {
            collect_reads_list(items, tracker);
        },
        Expr::Dict(keys, values) => {
            collect_reads_list(keys, tracker);
            collect_reads_list(values, tracker);
            proof {
                lemma_track_all_append(t0, exprs_events(keys@), exprs_events(values@));
            }
        },
        Expr::ConstNum => {},
        Expr::ConstText(_) => {},
        Expr::Unsupported => {},
    }
}

/// Walks every statement in the list, in order.
#[verifier::loop_isolation(false)]
pub fn collect_stmts(stmts: &Vec<Stmt>, tracker: &mut VariableTracker)
    ensures
        final(tracker)@ == track_all(old(tracker)@, stmts_events(stmts@)),
    decreases *stmts,
{
    let ghost t0 = old(tracker)@;
    let ghost ss = stmts@;
    proof {
        assert(ss.take(0) =~= Seq::<Stmt>::empty());
    }
    let n = stmts.len();
    let mut i: usize = 0;
    while i < n
        invariant
            i <= n,
            n == ss.len(),
            tracker@ == track_all(t0, stmts_events(ss.take(i as int))),
        decreases n - i,
    {
        collect_variables(&stmts[i], tracker);
        proof {
            lemma_stmts_events_take_step(ss, i as int);
            lemma_track_all_append(t0, stmts_events(ss.take(i as int)), stmt_events(ss[i as int]));
        }
        i = i + 1;
    }
    proof {
        assert(ss.take(n as int) =~~= ss);
    }
}

/// Walks one statement, feeding the tracker every variable-touch event in
/// pre-order: reads from expressions, assignments and alias assignments
/// from set forms, and loop bindings from for loops.
#[verifier::loop_isolation(false)]
pub fn collect_variables(node: &Stmt, tracker: &mut VariableTracker)
    ensures
        final(tracker)@ == track_all(old(tracker)@, stmt_events(*node)),
    decreases *node,
{
    let ghost t0 = old(tracker)@;
    match node {
        Stmt::Template(children) => {
            collect_stmts(children, tracker);
        },
        Stmt::Block(children) => {
            collect_stmts(children, tracker);
        },
        Stmt::EmitExpr(e) => {
            collect_var_reads(e, tracker);
        },
        Stmt::ForLoop(target, iterable, body) => {
            collect_var_reads(iterable, tracker);
            let loop_var = match extract_var_name(target) {
                Some(name) => name,
                None => {
                    let fallback = String::from_str("loop_var");
                    proof {
                        reveal_strlit("loop_var");
                        assert(fallback@ =~= loop_target_name(*target));
                    }
                    fallback
                },
            };
            let iter_expr = get_attribute_path(iterable);
            let ghost ev = (loop_target_name(*target), AccessKind::LoopVar(path_of(*iterable)));
            tracker.track_access(loop_var.as_str(), VarAccess::LoopVar(iter_expr));
            proof {
                lemma_track_all_single(track_all(t0, expr_events(*iterable)), ev);
                lemma_track_all_append(t0, expr_events(*iterable), seq![ev]);
            }
            collect_stmts(body, tracker);
            proof {
                lemma_track_all_append(t0, expr_events(*iterable) + seq![ev], stmts_events(body@));
            }
        },
        Stmt::IfCond(cond, true_body, false_body) => {
            collect_var_reads(cond, tracker);
            collect_stmts(true_body, tracker);
            proof {
                lemma_track_all_append(t0, expr_events(*cond), stmts_events(true_body@));
            }
            collect_stmts(false_body, tracker);
            proof {
                lemma_track_all_append(
                    t0,
                    expr_events(*cond) + stmts_events(true_body@),
                    stmts_events(false_body@),
                );
            }
        },
        Stmt::WithBlock(assignments, body) => {
            let ghost ps = assignments@;
            proof {
                assert(ps.take(0) =~= Seq::<(Expr, Expr)>::empty());
            }
            let n = assignments.len();
            let mut i: usize = 0;
            while i < n
                invariant
                    i <= n,
                    n == ps.len(),
                    tracker@ == track_all(t0, assigns_events(ps.take(i as int))),
                decreases n - i,
            {
                let ghost tp = tracker@;
                collect_var_reads(&assignments[i].1, tracker);
                let ghost opt_ev = match first_var_name(ps[i as int].0) {
                    Some(nm) => seq![(nm, AccessKind::SetValue)],
                    None => Seq::<(Seq<char>, AccessKind)>::empty(),
                };
                match extract_var_name(&assignments[i].0) {
                    Some(var_name) => {
                        tracker.track_access(var_name.as_str(), VarAccess::SetValue);
                        proof {
                            lemma_track_all_single(
                                track_all(tp, expr_events(ps[i as int].1)),
                                (var_name@, AccessKind::SetValue),
                            );
                        }
                    },
                    None => {},
                }
                proof {
                    lemma_track_all_append(tp, expr_events(ps[i as int].1), opt_ev);
                    lemma_assigns_events_take_step(ps, i as int);
                    lemma_track_all_append(
                        t0,
                        assigns_events(ps.take(i as int)),
                        expr_events(ps[i as int].1) + opt_ev,
                    );
                }
                i = i + 1;
            }
            proof {
                assert(ps.take(n as int) =~~= ps);
            }
            collect_stmts(body, tracker);
            proof {
                lemma_track_all_append(t0, assigns_events(ps), stmts_events(body@));
            }
        },
        Stmt::SetStmt(target, e) => {
            collect_var_reads(e, tracker);
            let ghost t1 = tracker@;
            match extract_var_name(target) {
                Some(var_name) => {
                    match e {
                        Expr::Var(id) => {
                            tracker.track_access(
                                var_name.as_str(),
                                VarAccess::SetAlias(id.clone()),
                            );
                            proof {
                                lemma_track_all_single(
                                    t1,
                                    (var_name@, AccessKind::SetAlias(id@)),
                                );
                            }
                        },
                        _ => {
                            tracker.track_access(var_name.as_str(), VarAccess::SetValue);
                            proof {
                                lemma_track_all_single(t1, (var_name@, AccessKind::SetValue));
                            }
                        },
                    }
                },
                None => {},
            }
            proof {
                lemma_track_all_append(t0, expr_events(*e), set_target_events(*target, *e));
            }
        },
        Stmt::SetBlock(target, body) => {
            let ghost head = match first_var_name(*target) {
                Some(nm) => seq![(nm, AccessKind::SetValue)],
                None => Seq::<(Seq<char>, AccessKind)>::empty(),
            };
            match extract_var_name(target) {
                Some(var_name) => {
                    tracker.track_access(var_name.as_str(), VarAccess::SetValue);
                    proof {
                        lemma_track_all_single(t0, (var_name@, AccessKind::SetValue));
                    }
                },
                None => {},
            }
            proof {
                assert(tracker@ == track_all(t0, head));
            }
            collect_stmts(body, tracker);
            proof {
                lemma_track_all_append(t0, head, stmts_events(body@));
            }
        },
        Stmt::AutoEscape(body) => {
            collect_stmts(body, tracker);
        },
        Stmt::FilterBlock(filter, body) => {
            collect_var_reads(filter, tracker);
            collect_stmts(body, tracker);
            proof {
                lemma_track_all_append(t0, expr_events(*filter), stmts_events(body@));
            }
        },
        Stmt::Unsupported => {},
    }
}

} // verus!
