use wasm_formatter::{
    clamp_heading_level, format_document, get_version, is_valid_node, normalize_heading_attrs,
    normalize_node, normalize_text, process_content, FormatError, JsonValue, Node,
};

fn node(kind: &str) -> Node {
    Node { node_type: kind.to_string(), content: None, text: None, attrs: None, marks: None }
}

fn text(t: &str) -> Node {
    Node { text: Some(t.to_string()), ..node("text") }
}

fn container(kind: &str, children: Vec<Node>) -> Node {
    Node { content: Some(children), ..node(kind) }
}

fn object(entries: Vec<(&str, JsonValue)>) -> JsonValue {
    JsonValue::Object(entries.into_iter().map(|(k, v)| (k.to_string(), v)).collect())
}

fn heading(attrs: Option<JsonValue>, children: Vec<Node>) -> Node {
    Node { attrs, ..container("heading", children) }
}

fn level_after(v: JsonValue) -> JsonValue {
    normalize_heading_attrs(Some(object(vec![("level", v)]))).unwrap()
}

#[test]
fn collapses_runs_of_spaces() {
    assert_eq!(normalize_text(&"a   b\tc".to_string()), "a b\tc");
}

#[test]
fn all_spaces_collapse_to_one() {
    assert_eq!(normalize_text(&"  ".to_string()), " ");
    assert_eq!(normalize_text(&"      ".to_string()), " ");
}

#[test]
fn text_without_double_spaces_is_unchanged() {
    assert_eq!(normalize_text(&"a b c\t\td\n\ne".to_string()), "a b c\t\td\n\ne");
    assert_eq!(normalize_text(&"".to_string()), "");
}

#[test]
fn leading_and_trailing_runs_are_kept_as_one_space() {
    assert_eq!(normalize_text(&"   x   ".to_string()), " x ");
}

#[test]
fn clamp_table() {
    let inputs = [-5i64, 0, 1, 6, 7, 100];
    let outputs = [1i64, 1, 1, 6, 6, 6];
    for (i, o) in inputs.iter().zip(outputs.iter()) {
        assert_eq!(clamp_heading_level(*i), *o);
        assert_eq!(level_after(JsonValue::Int(*i)), object(vec![("level", JsonValue::Int(*o))]));
    }
    assert_eq!(clamp_heading_level(i64::MIN), 1);
    assert_eq!(clamp_heading_level(i64::MAX), 6);
}

#[test]
fn heading_without_attrs_gets_level_two() {
    assert_eq!(normalize_heading_attrs(None), Some(object(vec![("level", JsonValue::Int(2))])));
    let h = heading(None, vec![text("Title")]);
    let out = normalize_node(h).unwrap();
    assert_eq!(out.attrs, Some(object(vec![("level", JsonValue::Int(2))])));
}

#[test]
fn non_numeric_level_becomes_two() {
    assert_eq!(level_after(JsonValue::Str("big".to_string())), object(vec![("level", JsonValue::Int(2))]));
    assert_eq!(level_after(JsonValue::Null), object(vec![("level", JsonValue::Int(2))]));
    assert_eq!(level_after(JsonValue::Float("3.5".to_string())), object(vec![("level", JsonValue::Int(2))]));
    assert_eq!(level_after(JsonValue::UInt(u64::MAX)), object(vec![("level", JsonValue::Int(2))]));
    assert_eq!(level_after(JsonValue::UInt(4)), object(vec![("level", JsonValue::Int(4))]));
}

#[test]
fn other_heading_attrs_pass_through() {
    let attrs = object(vec![
        ("id", JsonValue::Str("h".to_string())),
        ("level", JsonValue::Int(9)),
        ("textAlign", JsonValue::Null),
    ]);
    let expected = object(vec![
        ("id", JsonValue::Str("h".to_string())),
        ("level", JsonValue::Int(6)),
        ("textAlign", JsonValue::Null),
    ]);
    assert_eq!(normalize_heading_attrs(Some(attrs)), Some(expected));
}

#[test]
fn missing_level_is_added_as_two() {
    let attrs = object(vec![("id", JsonValue::Str("h".to_string()))]);
    let expected = object(vec![("id", JsonValue::Str("h".to_string())), ("level", JsonValue::Int(2))]);
    assert_eq!(normalize_heading_attrs(Some(attrs)), Some(expected));
}

#[test]
fn attrs_that_are_not_a_mapping_are_kept() {
    let attrs = JsonValue::Array(vec![JsonValue::Int(1)]);
    assert_eq!(normalize_heading_attrs(Some(attrs)), Some(JsonValue::Array(vec![JsonValue::Int(1)])));
}

#[test]
fn empty_text_is_removed() {
    assert_eq!(normalize_node(text("")), None);
    assert_eq!(normalize_node(node("text")), None);
    assert_eq!(normalize_node(text("   ")), Some(text(" ")));
}

#[test]
fn heading_with_only_empty_text_is_dropped() {
    assert_eq!(normalize_node(heading(None, vec![text("")])), None);
    let p = normalize_node(container("paragraph", vec![text("")])).unwrap();
    assert_eq!(p, container("paragraph", vec![]));
}

#[test]
fn heading_without_content_is_dropped() {
    assert_eq!(normalize_node(node("heading")), None);
    assert_eq!(normalize_node(heading(None, vec![])), None);
}

#[test]
fn paragraphs_are_kept() {
    assert_eq!(normalize_node(container("paragraph", vec![])), Some(container("paragraph", vec![])));
    assert_eq!(normalize_node(node("paragraph")), Some(node("paragraph")));
}

#[test]
fn image_rule() {
    let img = || Node { attrs: Some(object(vec![])), ..node("image") };
    assert!(is_valid_node(&img()));
    assert_eq!(normalize_node(img()), Some(img()));
    assert!(!is_valid_node(&node("image")));
    assert_eq!(normalize_node(node("image")), None);
}

#[test]
fn unknown_types_pass_through() {
    let quote = |t: &str| Node {
        marks: Some(vec![JsonValue::Bool(true)]),
        attrs: Some(JsonValue::Int(3)),
        ..container("blockquote", vec![text(t)])
    };
    assert_eq!(normalize_node(quote("a  b")), Some(quote("a b")));
}

#[test]
fn marks_stay_on_text() {
    let bold = |t: &str| Node {
        marks: Some(vec![object(vec![("type", JsonValue::Str("bold".to_string()))])]),
        ..text(t)
    };
    assert_eq!(normalize_node(bold("x  y")), Some(bold("x y")));
}

#[test]
fn root_must_be_doc() {
    let d = container("paragraph", vec![text("a  b")]);
    assert_eq!(format_document(d), Err(FormatError::ValidationError));
}

#[test]
fn order_is_preserved() {
    let a = container("paragraph", vec![text("a  a")]);
    let b = node("image");
    let c = text("c   c");
    let out = process_content(vec![a, b, c]);
    assert_eq!(out, vec![container("paragraph", vec![text("a a")]), text("c c")]);
}

#[test]
fn formatting_is_idempotent() {
    let d = container(
        "doc",
        vec![
            heading(Some(object(vec![("level", JsonValue::Int(0))])), vec![text("  Hi   there ")]),
            heading(None, vec![text("")]),
            container("paragraph", vec![]),
            Node { attrs: Some(object(vec![("src", JsonValue::Str("x.png".to_string()))])), ..node("image") },
            node("image"),
            container("bulletList", vec![container("listItem", vec![container("paragraph", vec![text("a    b")])])]),
        ],
    );
    let expected = || container(
        "doc",
        vec![
            heading(Some(object(vec![("level", JsonValue::Int(1))])), vec![text(" Hi there ")]),
            container("paragraph", vec![]),
            Node { attrs: Some(object(vec![("src", JsonValue::Str("x.png".to_string()))])), ..node("image") },
            container("bulletList", vec![container("listItem", vec![container("paragraph", vec![text("a b")])])]),
        ],
    );
    let once = format_document(d).unwrap();
    assert_eq!(once, expected());
    let twice = format_document(once).unwrap();
    assert_eq!(twice, expected());
}

#[test]
fn doc_without_content_is_kept() {
    assert_eq!(format_document(node("doc")), Ok(node("doc")));
}

#[test]
fn version_is_fixed() {
    assert_eq!(get_version(), "1.0.0");
}
