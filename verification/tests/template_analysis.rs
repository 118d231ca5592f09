use cleanplate::access::VarAccess;
use cleanplate::analysis::analyze;
use cleanplate::ast::{Expr, Stmt};
use cleanplate::shape::{
    find_corresponding_loop_var, find_iterated_var, resolve_alias_chain, Shape, TemplateData,
};
use cleanplate::tracker::VariableTracker;

fn var(name: &str) -> Expr {
    Expr::Var(name.to_string())
}

fn attr(base: Expr, name: &str) -> Expr {
    Expr::GetAttr(Box::new(base), name.to_string())
}

fn emit(e: Expr) -> Stmt {
    Stmt::EmitExpr(e)
}

fn template(children: Vec<Stmt>) -> Stmt {
    Stmt::Template(children)
}

fn contains(set: &[String], name: &str) -> bool {
    set.iter().any(|s| s == name)
}

fn lookup<'a>(map: &'a [(String, String)], key: &str) -> Option<&'a str> {
    map.iter().find(|p| p.0 == key).map(|p| p.1.as_str())
}

fn field<'a>(shape: &'a Shape, name: &str) -> Option<&'a Shape> {
    match shape {
        Shape::Object(fields) => fields.iter().find(|f| f.0 == name).map(|f| &f.1),
        _ => None,
    }
}

/// Renders a shape to a canonical JSON-like string, for byte-level
/// determinism checks.
fn render(shape: &Shape) -> String {
    match shape {
        Shape::Leaf => "\"\"".to_string(),
        Shape::Object(fields) => {
            let mut out = String::from("{");
            for (i, (k, v)) in fields.iter().enumerate() {
                if i > 0 {
                    out.push(',');
                }
                out.push('"');
                out.push_str(k);
                out.push_str("\":");
                out.push_str(&render(v));
            }
            out.push('}');
            out
        }
        Shape::Array(items) => {
            let mut out = String::from("[");
            for (i, v) in items.iter().enumerate() {
                if i > 0 {
                    out.push(',');
                }
                out.push_str(&render(v));
            }
            out.push(']');
            out
        }
    }
}

// `{{ user.name }}`
fn user_name_template() -> Stmt {
    template(vec![emit(attr(var("user"), "name"))])
}

// `{% set title = 'Hello' %}{{ title }}`
fn set_title_template() -> Stmt {
    template(vec![
        Stmt::SetStmt(var("title"), Expr::ConstText("Hello".to_string())),
        emit(var("title")),
    ])
}

// `{% for item in items %}{{ item.name }}{% endfor %}`
fn for_items_template() -> Stmt {
    template(vec![Stmt::ForLoop(
        var("item"),
        var("items"),
        vec![emit(attr(var("item"), "name"))],
    )])
}

// `{% set u = user %}{{ u.email }}`
fn alias_template() -> Stmt {
    template(vec![
        Stmt::SetStmt(var("u"), var("user")),
        emit(attr(var("u"), "email")),
    ])
}

#[test]
fn test_external_variable_detection() {
    let analysis = analyze(&user_name_template());
    assert!(contains(&analysis.external_vars, "user"));
}

#[test]
fn test_internal_variable_detection() {
    let analysis = analyze(&set_title_template());
    assert!(contains(&analysis.internal_vars, "title"));
    assert!(!contains(&analysis.external_vars, "title"));
}

#[test]
fn test_loop_variable_detection() {
    let analysis = analyze(&for_items_template());
    assert!(lookup(&analysis.loop_vars, "item").is_some());
    assert_eq!(lookup(&analysis.loop_vars, "item").unwrap(), "items");
    assert!(contains(&analysis.external_vars, "items"));
}

#[test]
fn test_nested_object_shapes() {
    let analysis = analyze(&for_items_template());
    let items = field(&analysis.object_shapes, "items").unwrap();
    match items {
        Shape::Array(elems) => {
            assert!(!elems.is_empty());
            assert!(field(&elems[0], "name").is_some());
        }
        other => panic!("expected an array shape for items, got {other:?}"),
    }
}

#[test]
fn simple_attribute_scenario() {
    let analysis = analyze(&user_name_template());
    assert_eq!(analysis.external_vars, vec!["user".to_string()]);
    let expected = Shape::Object(vec![(
        "user".to_string(),
        Shape::Object(vec![("name".to_string(), Shape::Leaf)]),
    )]);
    assert_eq!(analysis.object_shapes, expected);
    assert_eq!(render(&analysis.object_shapes), "{\"user\":{\"name\":\"\"}}");
}

#[test]
fn loop_scenario_exact_shape() {
    let analysis = analyze(&for_items_template());
    assert_eq!(analysis.external_vars, vec!["items".to_string()]);
    assert_eq!(
        analysis.loop_vars,
        vec![("item".to_string(), "items".to_string())]
    );
    let expected = Shape::Object(vec![(
        "items".to_string(),
        Shape::Array(vec![Shape::Object(vec![("name".to_string(), Shape::Leaf)])]),
    )]);
    assert_eq!(analysis.object_shapes, expected);
    assert_eq!(
        render(&analysis.object_shapes),
        "{\"items\":[{\"name\":\"\"}]}"
    );
}

#[test]
fn alias_attributes_appear_under_referenced_name() {
    let analysis = analyze(&alias_template());
    assert!(contains(&analysis.external_vars, "user"));
    assert!(contains(&analysis.internal_vars, "u"));
    let user_entry = field(&analysis.object_shapes, "user").unwrap();
    assert!(field(user_entry, "email").is_some());
    assert_eq!(*field(user_entry, "email").unwrap(), Shape::Leaf);
}

#[test]
fn empty_template_yields_empty_outputs() {
    let analysis = analyze(&template(vec![]));
    assert!(analysis.external_vars.is_empty());
    assert!(analysis.internal_vars.is_empty());
    assert!(analysis.loop_vars.is_empty());
    assert_eq!(analysis.object_shapes, Shape::Object(vec![]));
    assert_eq!(render(&analysis.object_shapes), "{}");
}

#[test]
fn shape_builder_is_deterministic() {
    let first = analyze(&for_items_template());
    let second = analyze(&for_items_template());
    assert_eq!(first.object_shapes, second.object_shapes);
    assert_eq!(render(&first.object_shapes), render(&second.object_shapes));
}

#[test]
fn loop_names_never_tracked() {
    // `{% for item in items %}{{ loop.index }}{% endfor %}`
    let tree = template(vec![Stmt::ForLoop(
        var("item"),
        var("items"),
        vec![emit(attr(var("loop"), "index"))],
    )]);
    let analysis = analyze(&tree);
    assert!(!contains(&analysis.external_vars, "loop"));
    assert!(!contains(&analysis.external_vars, "loop.index"));
    assert!(!contains(&analysis.internal_vars, "loop"));
    assert!(lookup(&analysis.loop_vars, "loop").is_none());
    assert!(field(&analysis.object_shapes, "loop").is_none());
}

#[test]
fn tool_calls_field_is_array_shaped() {
    // `{{ messages.tool_calls.id }}` with no loop over tool_calls.
    let tree = template(vec![emit(attr(
        attr(var("messages"), "tool_calls"),
        "id",
    ))]);
    let analysis = analyze(&tree);
    let messages = field(&analysis.object_shapes, "messages").unwrap();
    match field(messages, "tool_calls").unwrap() {
        Shape::Array(elems) => {
            assert_eq!(elems.len(), 1);
            assert_eq!(*field(&elems[0], "id").unwrap(), Shape::Leaf);
        }
        other => panic!("expected array for tool_calls, got {other:?}"),
    }
}

#[test]
fn subscript_with_text_constant_reads_dotted_name() {
    // `{{ user["name"] }}`
    let tree = template(vec![emit(Expr::GetItem(
        Box::new(var("user")),
        Box::new(Expr::ConstText("name".to_string())),
    ))]);
    let analysis = analyze(&tree);
    assert_eq!(analysis.external_vars, vec!["user".to_string()]);
    let user_entry = field(&analysis.object_shapes, "user").unwrap();
    assert!(field(user_entry, "name").is_some());
}

#[test]
fn numeric_subscript_reads_base_only() {
    // `{{ items[0] }}`
    let tree = template(vec![emit(Expr::GetItem(
        Box::new(var("items")),
        Box::new(Expr::ConstNum),
    ))]);
    let analysis = analyze(&tree);
    assert_eq!(analysis.external_vars, vec!["items".to_string()]);
    assert_eq!(*field(&analysis.object_shapes, "items").unwrap(), Shape::Leaf);
}

#[test]
fn first_access_classification_is_monotonic() {
    let mut tracker = VariableTracker::new();
    tracker.track_access("title", VarAccess::SetValue);
    tracker.track_access("title", VarAccess::Read);
    let analysis = tracker.to_analysis();
    assert!(contains(&analysis.internal_vars, "title"));
    assert!(!contains(&analysis.external_vars, "title"));
}

#[test]
fn empty_and_reserved_names_are_ignored() {
    let mut tracker = VariableTracker::new();
    tracker.track_access("", VarAccess::Read);
    tracker.track_access("loop", VarAccess::Read);
    tracker.track_access("loop.index", VarAccess::Read);
    let analysis = tracker.to_analysis();
    assert!(analysis.external_vars.is_empty());
    assert!(analysis.internal_vars.is_empty());
    assert_eq!(analysis.object_shapes, Shape::Object(vec![]));
}

#[test]
fn loop_bound_base_read_is_not_external() {
    let mut tracker = VariableTracker::new();
    tracker.track_access("item", VarAccess::LoopVar("items".to_string()));
    tracker.track_access("item.name", VarAccess::Read);
    tracker.track_access("item", VarAccess::Read);
    let analysis = tracker.to_analysis();
    assert!(!contains(&analysis.external_vars, "item"));
    assert!(contains(&analysis.internal_vars, "item"));
}

#[test]
fn resolve_alias_chain_follows_links() {
    let aliases = vec![
        ("a".to_string(), "b".to_string()),
        ("b".to_string(), "c".to_string()),
    ];
    assert_eq!(resolve_alias_chain("a", &aliases), "c");
    assert_eq!(resolve_alias_chain("c", &aliases), "c");
    assert_eq!(resolve_alias_chain("unrelated", &aliases), "unrelated");
}

#[test]
fn resolve_alias_chain_is_idempotent() {
    let aliases = vec![
        ("a".to_string(), "b".to_string()),
        ("b".to_string(), "c".to_string()),
        ("x".to_string(), "y".to_string()),
        ("y".to_string(), "x".to_string()),
    ];
    for start in ["a", "b", "c", "x", "y", "other"] {
        let once = resolve_alias_chain(start, &aliases);
        let twice = resolve_alias_chain(&once, &aliases);
        assert_eq!(twice, once, "resolution of {start} not idempotent");
    }
}

#[test]
fn resolve_alias_chain_stops_on_cycles() {
    let aliases = vec![
        ("a".to_string(), "b".to_string()),
        ("b".to_string(), "a".to_string()),
    ];
    assert_eq!(resolve_alias_chain("a", &aliases), "a");
    assert_eq!(resolve_alias_chain("b", &aliases), "b");
}

fn sample_data() -> TemplateData {
    TemplateData {
        internal_vars: vec!["item".to_string()],
        external_vars: vec!["rows".to_string()],
        loop_vars: vec![("item".to_string(), "rows".to_string())],
        object_attrs: vec![("rows".to_string(), vec!["id".to_string()])],
        object_aliases: vec![],
    }
}

#[test]
fn find_iterated_var_sees_direct_and_aliased_iterables() {
    let data = sample_data();
    assert_eq!(find_iterated_var("rows", &data), Some("rows".to_string()));
    assert_eq!(find_iterated_var("other", &data), None);

    let mut aliased = sample_data();
    aliased.object_aliases = vec![("rows".to_string(), "r".to_string())];
    // The iterable `rows` resolves to `r`, so `r` counts as iterated too.
    assert_eq!(find_iterated_var("r", &aliased), Some("r".to_string()));
}

#[test]
fn find_corresponding_loop_var_matches_exact_path() {
    let data = sample_data();
    assert_eq!(
        find_corresponding_loop_var("rows", &data),
        Some(&"item".to_string())
    );
    assert_eq!(find_corresponding_loop_var("rows.id", &data), None);
}

#[test]
fn loop_target_without_identifier_gets_placeholder() {
    let tree = template(vec![Stmt::ForLoop(
        Expr::Unsupported,
        var("items"),
        vec![],
    )]);
    let analysis = analyze(&tree);
    assert_eq!(lookup(&analysis.loop_vars, "loop_var"), Some("items"));
}

#[test]
fn tuple_loop_target_uses_first_identifier() {
    // `{% for a, b in pairs %}...{% endfor %}`
    let tree = template(vec![Stmt::ForLoop(
        Expr::List(vec![var("a"), var("b")]),
        var("pairs"),
        vec![],
    )]);
    let analysis = analyze(&tree);
    assert_eq!(lookup(&analysis.loop_vars, "a"), Some("pairs"));
}

#[test]
fn with_block_and_conditionals_track_reads_and_sets() {
    // `{% if flag %}{% with w = config.mode %}{{ w }}{% endwith %}{% endif %}`
    let tree = template(vec![Stmt::IfCond(
        var("flag"),
        vec![Stmt::WithBlock(
            vec![(var("w"), attr(var("config"), "mode"))],
            vec![emit(var("w"))],
        )],
        vec![],
    )]);
    let analysis = analyze(&tree);
    assert!(contains(&analysis.external_vars, "flag"));
    assert!(contains(&analysis.external_vars, "config"));
    assert!(contains(&analysis.internal_vars, "w"));
    assert!(!contains(&analysis.external_vars, "w"));
}

#[test]
fn filters_calls_and_operators_are_traversed() {
    // `{{ (count + limit) | default(fallback) }}` and `{{ fn(arg) }}`
    let tree = template(vec![
        emit(Expr::Filter(
            Some(Box::new(Expr::BinOp(
                Box::new(var("count")),
                Box::new(var("limit")),
            ))),
            vec![var("fallback")],
        )),
        emit(Expr::Call(Box::new(var("renderer")), vec![var("arg")])),
    ]);
    let analysis = analyze(&tree);
    for name in ["count", "limit", "fallback", "renderer", "arg"] {
        assert!(contains(&analysis.external_vars, name), "{name} missing");
    }
}

#[test]
fn remaining_statement_and_expression_kinds_are_walked() {
    // `{% autoescape %}{% filter indent(width) %}{% set captured %}{{ greeting }}
    // {% endset %}{% endfilter %}{% endautoescape %}` plus a test expression
    // and a map literal with a unary operand.
    let tree = template(vec![
        Stmt::AutoEscape(vec![Stmt::FilterBlock(
            Expr::Filter(None, vec![var("width")]),
            vec![Stmt::SetBlock(var("captured"), vec![emit(var("greeting"))])],
        )]),
        emit(Expr::Test(Box::new(var("value")), vec![var("threshold")])),
        emit(Expr::Dict(
            vec![Expr::ConstText("k".to_string())],
            vec![Expr::UnaryOp(Box::new(var("negated")))],
        )),
    ]);
    let analysis = analyze(&tree);
    for name in ["width", "greeting", "value", "threshold", "negated"] {
        assert!(contains(&analysis.external_vars, name), "{name} missing");
    }
    assert!(contains(&analysis.internal_vars, "captured"));
    assert!(!contains(&analysis.external_vars, "captured"));
}

#[test]
fn deep_paths_backfill_intermediate_levels() {
    // A single deep read still yields a fully nested shape.
    let tree = template(vec![emit(attr(
        attr(var("user"), "profile"),
        "email",
    ))]);
    let analysis = analyze(&tree);
    let user_entry = field(&analysis.object_shapes, "user").unwrap();
    let profile = field(user_entry, "profile").unwrap();
    assert_eq!(*field(profile, "email").unwrap(), Shape::Leaf);
}
