use oas_forge::index::Registry;
use oas_forge::preprocessor::{parse_extend_str, preprocess, substitute_fragment_args};

#[test]
fn test_insert_with_indentation() {
    let mut registry = Registry::new();
    registry.insert_fragment(
        "Headers".to_string(),
        vec![],
        "header: x-val\nother: y-val".to_string(),
    );

    let input = "  @insert Headers(\"\")";
    let output = preprocess(input, &registry);

    // The structural pass normalizes indentation to root level.
    let expected = "header: x-val\nother: y-val\n";
    assert_eq!(output, expected);
}

#[test]
fn test_fragment_with_args() {
    let mut registry = Registry::new();
    registry.insert_fragment(
        "Field".to_string(),
        vec!["name".to_string()],
        "name: {{name}}".to_string(),
    );

    let input = "@insert Field(\"my-name\")";
    let output = preprocess(input, &registry);
    assert_eq!(output, "name: my-name\n");
}

#[test]
fn test_missing_fragment() {
    let registry = Registry::new();
    let input = "@insert Missing(\"\")";
    let output = preprocess(input, &registry);
    // The directive line passes through unchanged and the run goes on.
    assert_eq!(output, "@insert Missing(\"\")");
}

#[test]
fn test_extend_marker_expansion() {
    // An @extend against a registered fragment merges the fragment's
    // keys into the surrounding mapping.
    let mut registry = Registry::new();
    registry.insert_fragment(
        "MergeBase".to_string(),
        vec![],
        "responses:\n  '404':\n    description: Not Found".to_string(),
    );
    let input = "get:\n  @extend MergeBase\n  summary: S";
    let output = preprocess(input, &registry);
    assert!(output.contains("'404'"));
    assert!(output.contains("Not Found"));
    assert!(output.contains("summary: S"));
    assert!(!output.contains("x-openapi-extend"));
}

#[test]
fn test_substitute_fragment_args_positional() {
    // Extra placeholders stay verbatim, extra arguments are ignored.
    let out = substitute_fragment_args(
        "a: {{one}}\nb: {{two}}\nc: {{three}}",
        &vec!["one".to_string(), "two".to_string(), "three".to_string()],
        &vec!["1".to_string(), "2".to_string()],
    );
    assert_eq!(out, "a: 1\nb: 2\nc: {{three}}");
}

#[test]
fn test_parse_extend_str_forms() {
    let (name, args) = parse_extend_str("Name(\"a\", b)");
    assert_eq!(name, "Name");
    assert_eq!(args, vec!["a".to_string(), "b".to_string()]);

    let (name2, args2) = parse_extend_str("  Bare  ");
    assert_eq!(name2, "Bare");
    assert!(args2.is_empty());
}
