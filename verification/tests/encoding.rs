use totoon::encode::{to_toon, to_toon_with_indent};
use totoon::escape::escape_string;
use totoon::value::Value;

fn s(text: &str) -> Value {
    Value::Str(text.to_string())
}

fn n(text: &str) -> Value {
    Value::Number(text.to_string())
}

fn obj(pairs: Vec<(&str, Value)>) -> Value {
    Value::Mapping(pairs.into_iter().map(|(k, v)| (k.to_string(), v)).collect())
}

#[test]
fn test_simple_object() {
    let data = obj(vec![("name", s("Alice")), ("age", n("30"))]);
    let result = to_toon(&data);
    assert!(result.contains("name: Alice"));
    assert!(result.contains("age: 30"));
}

#[test]
fn test_nested_object() {
    let data = obj(vec![(
        "user",
        obj(vec![
            ("name", s("Alice")),
            ("details", obj(vec![("age", n("30")), ("city", s("NYC"))])),
        ]),
    )]);
    let result = to_toon(&data);
    assert!(result.contains("user:"));
    assert!(result.contains("name: Alice"));
    assert!(result.contains("details:"));
    assert!(result.contains("age: 30"));
}

#[test]
fn test_list_of_objects() {
    let data = Value::List(vec![
        obj(vec![("name", s("Alice")), ("age", n("30"))]),
        obj(vec![("name", s("Bob")), ("age", n("25"))]),
    ]);
    let result = to_toon(&data);
    assert!(result.contains("[2]{"));
    assert!(result.contains("Alice"));
    assert!(result.contains("Bob"));
    assert!(result.contains(","));
}

#[test]
fn test_simple_list() {
    let data = Value::List(vec![n("1"), n("2"), n("3")]);
    let result = to_toon(&data);
    assert!(result.contains("- 1"));
    assert!(result.contains("- 2"));
    assert!(result.contains("- 3"));
}

#[test]
fn test_primitives() {
    assert_eq!(to_toon(&Value::Null), "null");
    assert_eq!(to_toon(&Value::Bool(true)), "true");
    assert_eq!(to_toon(&Value::Bool(false)), "false");
    assert_eq!(to_toon(&n("42")), "42");
    assert_eq!(to_toon(&n("3.14")), "3.14");
    assert_eq!(to_toon(&s("hello")), "hello");
}

#[test]
fn test_string_escaping() {
    let data = obj(vec![("message", s("Hello\nWorld"))]);
    let result = to_toon(&data);
    assert!(result.contains("\""));
    assert!(result.contains("Hello"));
    assert!(result.contains("World"));
}

#[test]
fn test_complex_structure() {
    let data = obj(vec![
        (
            "users",
            Value::List(vec![
                obj(vec![
                    ("name", s("Alice")),
                    ("age", n("30")),
                    ("active", Value::Bool(true)),
                ]),
                obj(vec![
                    ("name", s("Bob")),
                    ("age", n("25")),
                    ("active", Value::Bool(false)),
                ]),
            ]),
        ),
        (
            "metadata",
            obj(vec![("count", n("2")), ("timestamp", s("2024-01-01"))]),
        ),
    ]);
    let result = to_toon(&data);
    assert!(result.contains("users["));
    assert!(result.contains(","));
    assert!(result.contains("metadata:"));
    assert!(result.contains("count: 2"));
}

#[test]
fn test_empty_object() {
    let data = Value::Mapping(Vec::new());
    let result = to_toon(&data);
    assert_eq!(result, "{}");
}

#[test]
fn test_empty_array() {
    let data = Value::List(Vec::new());
    let result = to_toon(&data);
    assert_eq!(result, "[]");
}

#[test]
fn simple_object_exact() {
    let data = obj(vec![("name", s("Alice")), ("age", n("30"))]);
    assert_eq!(to_toon(&data), "name: Alice\nage: 30");
}

#[test]
fn tabular_exact_sorted_columns() {
    let data = Value::List(vec![
        obj(vec![("name", s("Alice")), ("age", n("30"))]),
        obj(vec![("name", s("Bob")), ("age", n("25"))]),
    ]);
    assert_eq!(to_toon(&data), "[2]{age,name}:\n  30,Alice\n  25,Bob");
}

#[test]
fn simple_list_exact() {
    let data = Value::List(vec![n("1"), n("2"), n("3")]);
    assert_eq!(to_toon(&data), "- 1\n- 2\n- 3");
}

#[test]
fn tabular_cell_with_comma_is_quoted() {
    let data = Value::List(vec![obj(vec![("name", s("Smith, Jr."))])]);
    assert_eq!(to_toon(&data), "[1]{name}:\n  \"Smith, Jr.\"");
}

#[test]
fn column_order_ignores_key_insertion_order() {
    let a = Value::List(vec![obj(vec![("a", n("1")), ("b", n("2"))])]);
    let b = Value::List(vec![obj(vec![("b", n("2")), ("a", n("1"))])]);
    let ea = to_toon(&a);
    let eb = to_toon(&b);
    assert_eq!(ea, "[1]{a,b}:\n  1,2");
    assert_eq!(ea, eb);
}

#[test]
fn column_order_ignores_row_order() {
    let a = Value::List(vec![
        obj(vec![("x", n("1"))]),
        obj(vec![("y", n("2"))]),
    ]);
    let b = Value::List(vec![
        obj(vec![("y", n("3"))]),
        obj(vec![("x", n("4"))]),
    ]);
    let ea = to_toon(&a);
    let eb = to_toon(&b);
    assert!(ea.starts_with("[2]{x,y}:"));
    assert!(eb.starts_with("[2]{x,y}:"));
    assert_eq!(ea, "[2]{x,y}:\n  1,\n  ,2");
    assert_eq!(eb, "[2]{x,y}:\n  ,3\n  4,");
}

#[test]
fn deterministic_for_equal_trees() {
    let build = || {
        let mut pairs: Vec<(String, Value)> = Vec::new();
        pairs.push(("k".to_string(), n("7")));
        pairs.push(("l".to_string(), Value::List(vec![n("1"), s("x")])));
        Value::Mapping(pairs)
    };
    let one = build();
    let two = build();
    assert_eq!(to_toon(&one), to_toon(&two));
}

#[test]
fn missing_column_gives_empty_cell() {
    let data = Value::List(vec![
        obj(vec![("a", n("1"))]),
        obj(vec![("b", n("2"))]),
    ]);
    assert_eq!(to_toon(&data), "[2]{a,b}:\n  1,\n  ,2");
}

#[test]
fn nested_list_under_key() {
    let data = obj(vec![("xs", Value::List(vec![n("1"), n("2")]))]);
    assert_eq!(to_toon(&data), "xs:\n  - 1\n  - 2");
}

#[test]
fn empty_list_under_key() {
    let data = obj(vec![("xs", Value::List(Vec::new()))]);
    assert_eq!(to_toon(&data), "xs: []");
}

#[test]
fn empty_mapping_under_key() {
    let data = obj(vec![("m", Value::Mapping(Vec::new()))]);
    assert_eq!(to_toon(&data), "m: {}");
}

#[test]
fn tabular_under_key_carries_key_in_header() {
    let data = obj(vec![(
        "users",
        Value::List(vec![
            obj(vec![("name", s("Alice")), ("age", n("30"))]),
            obj(vec![("name", s("Bob")), ("age", n("25"))]),
        ]),
    )]);
    assert_eq!(to_toon(&data), "users[2]{age,name}:\n  30,Alice\n  25,Bob");
}

#[test]
fn mapping_cell_renders_inline_with_sorted_keys() {
    let data = Value::List(vec![obj(vec![(
        "m",
        obj(vec![("b", n("1")), ("a", n("2"))]),
    )])]);
    assert_eq!(to_toon(&data), "[1]{m}:\n  {a:2,b:1}");
}

#[test]
fn list_of_objects_cell_renders_inline_table() {
    let data = Value::List(vec![obj(vec![(
        "t",
        Value::List(vec![obj(vec![("x", n("1"))])]),
    )])]);
    assert_eq!(to_toon(&data), "[1]{t}:\n  [1]{x}:1");
}

#[test]
fn mixed_list_cell_uses_bracket_notation() {
    let data = Value::List(vec![obj(vec![(
        "xs",
        Value::List(vec![obj(vec![("x", n("1"))]), n("2")]),
    )])]);
    assert_eq!(to_toon(&data), "[1]{xs}:\n  [\nx: 1,2]");
}

#[test]
fn primitive_list_cell_renders_brackets() {
    let data = Value::List(vec![obj(vec![(
        "xs",
        Value::List(vec![n("1"), n("2")]),
    )])]);
    assert_eq!(to_toon(&data), "[1]{xs}:\n  [1,2]");
}

#[test]
fn custom_indent_unit() {
    let data = obj(vec![("user", obj(vec![("name", s("Alice"))]))]);
    assert_eq!(to_toon_with_indent(&data, 4, 0), "user:\n    name: Alice");
    assert_eq!(to_toon_with_indent(&data, 2, 1), "  user:\n    name: Alice");
}

#[test]
fn escape_plain_string_is_verbatim() {
    assert_eq!(escape_string("hello world"), "hello world");
    assert_eq!(escape_string(""), "");
    assert_eq!(escape_string("with \"quotes\" and \\ only"), "with \"quotes\" and \\ only");
}

#[test]
fn escape_control_characters() {
    assert_eq!(escape_string("line1\nline2"), "\"line1\\nline2\"");
    assert_eq!(escape_string("a\tb\rc"), "\"a\\tb\\rc\"");
    assert_eq!(escape_string("a\\\"b\n"), "\"a\\\\\\\"b\\n\"");
}

#[test]
fn control_characters_never_raw_in_output() {
    let data = obj(vec![("msg", s("a\nb\tc\rd"))]);
    let result = to_toon(&data);
    assert_eq!(result, "msg: \"a\\nb\\tc\\rd\"");
    let token = &result["msg: ".len()..];
    assert!(!token.contains('\n') && !token.contains('\t') && !token.contains('\r'));
}

#[test]
fn empty_identities_nested() {
    let data = obj(vec![
        ("m", Value::Mapping(Vec::new())),
        ("l", Value::List(Vec::new())),
    ]);
    assert_eq!(to_toon(&data), "m: {}\nl: []");
}

#[test]
fn tabular_of_empty_objects_is_brackets() {
    let data = Value::List(vec![
        Value::Mapping(Vec::new()),
        Value::Mapping(Vec::new()),
    ]);
    assert_eq!(to_toon(&data), "[]");
}

#[test]
fn mixed_list_is_not_tabular() {
    let data = Value::List(vec![obj(vec![("a", n("1"))]), n("2")]);
    assert_eq!(to_toon(&data), "- \na: 1\n- 2");
}
