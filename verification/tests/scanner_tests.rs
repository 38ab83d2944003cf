use oas_forge::index::Registry;
use oas_forge::merger::merge_openapi;
use oas_forge::scanner::{
    finalize_substitution, preprocess_macros, process_snippets, substitute_smart_references,
    Snippet,
};
use oas_forge::value::emit_yaml;

#[test]
fn test_escaping() {
    let input = r"price: \$100";
    let output = finalize_substitution(input, "0.0.0");
    assert_eq!(output, "price: $100");
}

#[test]
fn test_vec_macro() {
    let registry = Registry::new();
    let snippet = Snippet {
        content: "tags: $Vec<Tag>".to_string(),
        file_path: "test.rs".to_string(),
        line_number: 1,
    };
    let (processed, _registry) = preprocess_macros(&snippet, registry);
    assert!(processed.content.contains("type: array"));
    assert!(processed.content.contains("items:"));
    assert!(processed.content.contains("$ref: \"#/components/schemas/Tag\""));
}

#[test]
fn test_return_helper() {
    let registry = Registry::new();
    let snippet = Snippet {
        content: "@return 200: $User \"Success\"".to_string(),
        file_path: "test.rs".to_string(),
        line_number: 1,
    };
    let (processed, _registry) = preprocess_macros(&snippet, registry);
    assert!(processed.content.contains("'200':"));
    assert!(processed.content.contains("description: \"Success\""));
    assert!(processed.content.contains("schema:"));
    assert!(processed.content.contains("$ref: $User"));
}

#[test]
fn test_return_helper_vec() {
    let registry = Registry::new();
    let snippet = Snippet {
        content: "@return 400: $Vec<Error>".to_string(),
        file_path: "test.rs".to_string(),
        line_number: 1,
    };
    let (processed, _registry) = preprocess_macros(&snippet, registry);
    assert!(processed.content.contains("'400':"));
    assert!(processed.content.contains("type: array"));
    assert!(processed.content.contains("$ref: \"#/components/schemas/Error\""));
}

#[test]
fn test_smart_reference_known_and_unknown() {
    // $User becomes a quoted schema pointer only when User is a known
    // schema name; $100 is no name and stays untouched.
    let names = vec!["User".to_string()];
    let out = substitute_smart_references("a: $User\nb: $100\nc: $Other", &names);
    assert_eq!(
        out,
        "a: \"#/components/schemas/User\"\nb: $100\nc: $Other"
    );
}

#[test]
fn test_smart_reference_already_quoted() {
    let names = vec!["User".to_string()];
    let out = substitute_smart_references("\"$User\"", &names);
    assert_eq!(out, "\"#/components/schemas/User\"");
}

#[test]
fn test_version_placeholder() {
    let out = finalize_substitution("version: {{CARGO_PKG_VERSION}}", "9.9.9");
    assert_eq!(out, "version: 9.9.9");
}

#[test]
fn test_insert_shorthand_parameter_ref() {
    // A parameterless @insert of an unregistered fragment becomes a
    // parameter reference list entry.
    let registry = Registry::new();
    let snippet = Snippet {
        content: "    @insert QueryParam".to_string(),
        file_path: "test.rs".to_string(),
        line_number: 1,
    };
    let (processed, _registry) = preprocess_macros(&snippet, registry);
    assert_eq!(
        processed.content,
        "    - $ref: \"#/components/parameters/QueryParam\""
    );
}

#[test]
fn test_extend_shorthand_marker() {
    let registry = Registry::new();
    let snippet = Snippet {
        content: "  @extend Base('x')".to_string(),
        file_path: "test.rs".to_string(),
        line_number: 1,
    };
    let (processed, _registry) = preprocess_macros(&snippet, registry);
    assert_eq!(processed.content, "  x-openapi-extend: 'Base(''x'')'");
}

#[test]
fn test_pipeline_end_to_end() {
    // Blueprint Page<T> with a User schema: the merged output holds a
    // Page_User schema whose data references User, and the usage
    // resolves to a pointer to Page_User.
    let mut registry = Registry::new();
    registry.insert_blueprint(
        "Page".to_string(),
        vec!["T".to_string()],
        "data:\n  $ref: $T".to_string(),
    );
    registry.insert_schema("User".to_string(), "type: object".to_string());
    let usage = Snippet {
        content: "paths:\n  /u:\n    get:\n      schema:\n        $ref: $Page<User>"
            .to_string(),
        file_path: "use.rs".to_string(),
        line_number: 1,
    };
    let (snippets, _registry) = process_snippets(registry, vec![usage], "1.0.0");
    let mut all = vec![Snippet {
        content: "openapi: 3.0.0\ninfo: {title: T}".to_string(),
        file_path: "root.yaml".to_string(),
        line_number: 1,
    }];
    all.extend(snippets);
    let merged = merge_openapi(all).unwrap();
    let yaml = emit_yaml(&merged).unwrap();
    assert!(yaml.contains("Page_User"));
    assert!(yaml.contains("#/components/schemas/Page_User"));
    assert!(yaml.contains("#/components/schemas/User"));
}
