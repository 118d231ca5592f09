//! The template syntax tree the analysis consumes, and the sequence of
//! variable-touch events a pre-order walk of it produces.
//!
//! A front end that parses template text is expected to produce this
//! taxonomy; any construct it cannot express maps to the `Unsupported`
//! variants, which the tracker conservatively ignores.

use vstd::prelude::*;

verus! {

broadcast use
    vstd::seq::axiom_seq_index_decreases,
    vstd::seq::axiom_seq_subrange_decreases,
    vstd::std_specs::vec::axiom_vec_decreases_to_view,
;

use crate::access::AccessKind;

/// An expression node.
#[derive(Debug)]
pub enum Expr {
    /// A bare variable reference.
    Var(String),
    /// Attribute access: base expression and attribute name.
    GetAttr(Box<Expr>, String),
    /// Subscript access: base expression and subscript expression.
    GetItem(Box<Expr>, Box<Expr>),
    /// A call: callee expression and arguments.
    Call(Box<Expr>, Vec<Expr>),
    /// A filter application: optional base expression and arguments.
    Filter(Option<Box<Expr>>, Vec<Expr>),
    /// A test application: base expression and arguments.
    Test(Box<Expr>, Vec<Expr>),
    /// A binary operation.
    BinOp(Box<Expr>, Box<Expr>),
    /// A unary operation.
    UnaryOp(Box<Expr>),
    /// A list literal.
    List(Vec<Expr>),
    /// A map literal: keys and values, pairwise.
    Dict(Vec<Expr>, Vec<Expr>),
    /// A numeric constant.
    ConstNum,
    /// Any other constant, carrying its rendered text.
    ConstText(String),
    /// A node kind outside the taxonomy: ignored.
    Unsupported,
}

/// A statement node.
#[derive(Debug)]
pub enum Stmt {
    /// The template root.
    Template(Vec<Stmt>),
    /// A named block.
    Block(Vec<Stmt>),
    /// An expression emitted into the output.
    EmitExpr(Expr),
    /// A for loop: target, iterable expression, body.
    ForLoop(Expr, Expr, Vec<Stmt>),
    /// A conditional: condition, true body, false body.
    IfCond(Expr, Vec<Stmt>, Vec<Stmt>),
    /// A with block: ordered (target, expression) assignments and body.
    WithBlock(Vec<(Expr, Expr)>, Vec<Stmt>),
    /// An assignment: target and expression.
    SetStmt(Expr, Expr),
    /// A block assignment: target and body.
    SetBlock(Expr, Vec<Stmt>),
    /// An autoescape block.
    AutoEscape(Vec<Stmt>),
    /// A filter block: filter expression and body.
    FilterBlock(Expr, Vec<Stmt>),
    /// A node kind outside the taxonomy: ignored.
    Unsupported,
}

/// The dotted attribute path of an expression: the variable name for a
/// bare reference, the dotted extension for attribute access off a pathed
/// base, and empty for everything else.
pub open spec fn path_of(e: Expr) -> Seq<char>
    decreases e,
{
    match e {
        Expr::Var(id) => id@,
        Expr::GetAttr(base, name) => {
            let bp = path_of(*base);
            if bp.len() > 0 {
                bp + seq!['.'] + name@
            } else {
                Seq::empty()
            }
        },
        _ => Seq::empty(),
    }
}

/// The first identifier reachable in an expression, scanning structurally:
/// the identifier of a bare reference, the base of an attribute or
/// subscript access, or the first identifier among a list's items.
pub open spec fn first_var_name(e: Expr) -> Option<Seq<char>>
    decreases e,
{
    match e {
        Expr::Var(id) => Some(id@),
        Expr::GetAttr(base, _name) => first_var_name(*base),
        Expr::GetItem(base, _sub) => first_var_name(*base),
        Expr::List(items) => first_var_in(items@),
        _ => None,
    }
}

/// The first identifier reachable in any expression of a list, in order.
pub open spec fn first_var_in(es: Seq<Expr>) -> Option<Seq<char>>
    decreases es,
{
    if es.len() == 0 {
        None
    } else {
        match first_var_name(es[0]) {
            Some(n) => Some(n),
            None => first_var_in(es.drop_first()),
        }
    }
}

/// The dotted name a subscript access reads, when its base is a bare
/// variable and its subscript a non-numeric constant.
pub open spec fn subscript_name(e: Expr) -> Option<Seq<char>> {
    match e {
        Expr::GetItem(base, sub) => match *base {
            Expr::Var(id) => match *sub {
                Expr::ConstText(s) => Some(id@ + seq!['.'] + s@),
                _ => None,
            },
            _ => None,
        },
        _ => None,
    }
}

/// The loop-variable name bound by a for-loop target: its first
/// identifier, or a fixed placeholder when none can be found.
pub open spec fn loop_target_name(target: Expr) -> Seq<char> {
    match first_var_name(target) {
        Some(n) => n,
        None => seq!['l', 'o', 'o', 'p', '_', 'v', 'a', 'r'],
    }
}

/// The events an assignment statement records for its target: an alias
/// binding when the assigned expression is a bare variable, a plain
/// assignment otherwise, and nothing when the target has no identifier.
pub open spec fn set_target_events(target: Expr, e: Expr) -> Seq<(Seq<char>, AccessKind)> {
    match first_var_name(target) {
        Some(n) => match e {
            Expr::Var(id) => seq![(n, AccessKind::SetAlias(id@))],
            _ => seq![(n, AccessKind::SetValue)],
        },
        None => Seq::empty(),
    }
}

/// The read events a walk of an expression records, in visit order.
pub open spec fn expr_events(e: Expr) -> Seq<(Seq<char>, AccessKind)>
    decreases e,
{
    match e {
        Expr::Var(id) => seq![(id@, AccessKind::Read)],
        Expr::GetAttr(base, name) => seq![(path_of(Expr::GetAttr(base, name)), AccessKind::Read)]
            + expr_events(*base),
        Expr::GetItem(base, sub) => (match subscript_name(Expr::GetItem(base, sub)) {
            Some(nm) => seq![(nm, AccessKind::Read)],
            None => Seq::empty(),
        }) + expr_events(*base) + expr_events(*sub),
        Expr::Call(callee, args) => expr_events(*callee) + exprs_events(args@),
        Expr::Filter(base, args) => (match base {
            Some(b) => expr_events(*b),
            None => Seq::empty(),
        }) + exprs_events(args@),
        Expr::Test(base, args) => expr_events(*base) + exprs_events(args@),
        Expr::BinOp(left, right) => expr_events(*left) + expr_events(*right),
        Expr::UnaryOp(inner) => expr_events(*inner),
        Expr::List(items) => exprs_events(items@),
        Expr::Dict(keys, values) => exprs_events(keys@) + exprs_events(values@),
        Expr::ConstNum => Seq::empty(),
        Expr::ConstText(_) => Seq::empty(),
        Expr::Unsupported => Seq::empty(),
    }
}

/// The events of a list of expressions, in order.
pub open spec fn exprs_events(es: Seq<Expr>) -> Seq<(Seq<char>, AccessKind)>
    decreases es,
{
    if es.len() == 0 {
        Seq::empty()
    } else {
        expr_events(es[0]) + exprs_events(es.drop_first())
    }
}

/// The events a walk of a statement records, in visit order.
pub open spec fn stmt_events(s: Stmt) -> Seq<(Seq<char>, AccessKind)>
    decreases s,
{
    match s {
        Stmt::Template(children) => stmts_events(children@),
        Stmt::Block(children) => stmts_events(children@),
        Stmt::EmitExpr(e) => expr_events(e),
        Stmt::ForLoop(target, iterable, body) => expr_events(iterable) + seq![
            (loop_target_name(target), AccessKind::LoopVar(path_of(iterable))),
        ] + stmts_events(body@),
        Stmt::IfCond(cond, true_body, false_body) => expr_events(cond) + stmts_events(true_body@)
            + stmts_events(false_body@),
        Stmt::WithBlock(assignments, body) => assigns_events(assignments@) + stmts_events(body@),
        Stmt::SetStmt(target, e) => expr_events(e) + set_target_events(target, e),
        Stmt::SetBlock(target, body) => (match first_var_name(target) {
            Some(n) => seq![(n, AccessKind::SetValue)],
            None => Seq::empty(),
        }) + stmts_events(body@),
        Stmt::AutoEscape(body) => stmts_events(body@),
        Stmt::FilterBlock(filter, body) => expr_events(filter) + stmts_events(body@),
        Stmt::Unsupported => Seq::empty(),
    }
}

/// The events of a list of statements, in order.
pub open spec fn stmts_events(ss: Seq<Stmt>) -> Seq<(Seq<char>, AccessKind)>
    decreases ss,
{
    if ss.len() == 0 {
        Seq::empty()
    } else {
        stmt_events(ss[0]) + stmts_events(ss.drop_first())
    }
}

/// The events of a with block's assignment list: for each assignment the
/// assigned expression's reads, then the target's assignment event.
pub open spec fn assigns_events(ps: Seq<(Expr, Expr)>) -> Seq<(Seq<char>, AccessKind)>
    decreases ps,
{
    if ps.len() == 0 {
        Seq::empty()
    } else {
        expr_events(ps[0].1) + (match first_var_name(ps[0].0) {
            Some(n) => seq![(n, AccessKind::SetValue)],
            None => Seq::empty(),
        }) + assigns_events(ps.drop_first())
    }
}

pub proof fn lemma_exprs_events_take_step(es: Seq<Expr>, i: int)
    requires
        0 <= i < es.len(),
    ensures
        exprs_events(es.take(i + 1)) == exprs_events(es.take(i)) + expr_events(es[i]),
    decreases i,
{
    let s1 = es.take(i + 1);
    let s0 = es.take(i);
    if i == 0 {
        reveal_with_fuel(exprs_events, 2);
        assert(s1.drop_first() =~~= Seq::<Expr>::empty());
        assert(exprs_events(s1) =~= expr_events(es[0]));
        assert(exprs_events(s0) + expr_events(es[0]) =~= expr_events(es[0]));
    } else {
        lemma_exprs_events_take_step(es.drop_first(), i - 1);
        assert(s1[0] == es[0]);
        assert(s1.drop_first() =~~= es.drop_first().take(i));
        assert(s0[0] == es[0]);
        assert(s0.drop_first() =~~= es.drop_first().take(i - 1));
        assert(es.drop_first()[i - 1] == es[i]);
        assert(expr_events(es[0]) + (exprs_events(es.drop_first().take(i - 1)) + expr_events(
            es[i],
        )) =~= (expr_events(es[0]) + exprs_events(es.drop_first().take(i - 1))) + expr_events(
            es[i],
        ));
    }
}

pub proof fn lemma_stmts_events_take_step(ss: Seq<Stmt>, i: int)
    requires
        0 <= i < ss.len(),
    ensures
        stmts_events(ss.take(i + 1)) == stmts_events(ss.take(i)) + stmt_events(ss[i]),
    decreases i,
{
    let s1 = ss.take(i + 1);
    let s0 = ss.take(i);
    if i == 0 {
        reveal_with_fuel(stmts_events, 2);
        assert(s1.drop_first() =~~= Seq::<Stmt>::empty());
        assert(stmts_events(s1) =~= stmt_events(ss[0]));
        assert(stmts_events(s0) + stmt_events(ss[0]) =~= stmt_events(ss[0]));
    } else {
        lemma_stmts_events_take_step(ss.drop_first(), i - 1);
        assert(s1[0] == ss[0]);
        assert(s1.drop_first() =~~= ss.drop_first().take(i));
        assert(s0[0] == ss[0]);
        assert(s0.drop_first() =~~= ss.drop_first().take(i - 1));
        assert(ss.drop_first()[i - 1] == ss[i]);
        assert(stmt_events(ss[0]) + (stmts_events(ss.drop_first().take(i - 1)) + stmt_events(
            ss[i],
        )) =~= (stmt_events(ss[0]) + stmts_events(ss.drop_first().take(i - 1))) + stmt_events(
            ss[i],
        ));
    }
}

pub proof fn lemma_assigns_events_take_step(ps: Seq<(Expr, Expr)>, i: int)
    requires
        0 <= i < ps.len(),
    ensures
        assigns_events(ps.take(i + 1)) == assigns_events(ps.take(i)) + (expr_events(ps[i].1)
            + (match first_var_name(ps[i].0) {
            Some(n) => seq![(n, AccessKind::SetValue)],
            None => Seq::empty(),
        })),
    decreases i,
{
    let s1 = ps.take(i + 1);
    let s0 = ps.take(i);
    let step = expr_events(ps[i].1) + (match first_var_name(ps[i].0) {
        Some(n) => seq![(n, AccessKind::SetValue)],
        None => Seq::<(Seq<char>, AccessKind)>::empty(),
    });
    if i == 0 {
        reveal_with_fuel(assigns_events, 2);
        assert(s1.drop_first() =~~= Seq::<(Expr, Expr)>::empty());
        assert(assigns_events(s1) =~= step);
        assert(assigns_events(s0) + step =~= step);
    } else {
        lemma_assigns_events_take_step(ps.drop_first(), i - 1);
        let head = expr_events(ps[0].1) + (match first_var_name(ps[0].0) {
            Some(n) => seq![(n, AccessKind::SetValue)],
            None => Seq::<(Seq<char>, AccessKind)>::empty(),
        });
        assert(s1[0] == ps[0]);
        assert(s1.drop_first() =~~= ps.drop_first().take(i));
        assert(s0[0] == ps[0]);
        assert(s0.drop_first() =~~= ps.drop_first().take(i - 1));
        assert(ps.drop_first()[i - 1] == ps[i]);
        assert(head + (assigns_events(ps.drop_first().take(i - 1)) + step) =~= (head
            + assigns_events(ps.drop_first().take(i - 1))) + step);
    }
}

} // verus!
