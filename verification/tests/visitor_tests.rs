use oas_forge::config::Config;
use oas_forge::visitor::{wrap_in_schema, ExtractedItem, OpenApiVisitor};
use oas_forge::Generator;

#[test]
fn test_parse_doc_block_fragment() {
    let mut v = OpenApiVisitor::new();
    v.parse_doc_block(
        "@openapi-fragment CommonError(code)\ndescription: Error {{code}}",
        None,
        3,
    );
    assert_eq!(v.items.len(), 1);
    match &v.items[0] {
        ExtractedItem::Fragment { name, params, content, line } => {
            assert_eq!(name.as_str(), "CommonError");
            assert_eq!(params, &vec!["code".to_string()]);
            assert_eq!(content.as_str(), "description: Error {{code}}");
            assert_eq!(*line, 3);
        }
        _ => panic!("expected a fragment"),
    }
}

#[test]
fn test_parse_doc_block_blueprint() {
    let mut v = OpenApiVisitor::new();
    v.parse_doc_block(
        "@openapi<T, U>\ntype: object\nproperties:\n  data: $ref: $T",
        Some("Wrapper".to_string()),
        7,
    );
    assert_eq!(v.items.len(), 1);
    match &v.items[0] {
        ExtractedItem::Blueprint { name, params, content, .. } => {
            assert_eq!(name.as_str(), "Wrapper");
            assert_eq!(params, &vec!["T".to_string(), "U".to_string()]);
            assert!(content.contains("data: $ref: $T"));
        }
        _ => panic!("expected a blueprint"),
    }
}

#[test]
fn test_parse_doc_block_schema_autowrap() {
    // A body without top-level keys on a named item is wrapped as a
    // schema declaration.
    let mut v = OpenApiVisitor::new();
    v.parse_doc_block("@openapi\ntype: object", Some("User".to_string()), 1);
    assert_eq!(v.items.len(), 1);
    match &v.items[0] {
        ExtractedItem::Schema { name, content, .. } => {
            assert_eq!(name.as_deref(), Some("User"));
            assert!(content.starts_with("components:\n  schemas:\n    User:\n"));
            assert!(content.contains("      type: object"));
        }
        _ => panic!("expected a schema"),
    }
}

#[test]
fn test_parse_doc_block_toplevel_not_wrapped() {
    let mut v = OpenApiVisitor::new();
    v.parse_doc_block("@openapi\npaths:\n  /x:\n    get:\n      summary: S", None, 1);
    assert_eq!(v.items.len(), 1);
    match &v.items[0] {
        ExtractedItem::Schema { name, content, .. } => {
            assert!(name.is_none());
            assert!(content.starts_with("paths:"));
        }
        _ => panic!("expected a schema"),
    }
}

#[test]
fn test_parse_doc_block_tag_injection() {
    let mut v = OpenApiVisitor::new();
    v.current_tags.push("GroupA".to_string());
    v.parse_doc_block("@openapi\npaths:\n  /t:\n    get:\n      summary: S", None, 1);
    match &v.items[0] {
        ExtractedItem::Schema { content, .. } => {
            assert!(content.contains("tags:"));
            assert!(content.contains("- GroupA"));
        }
        _ => panic!("expected a schema"),
    }
}

#[test]
fn test_wrap_in_schema_layout() {
    let w = wrap_in_schema("User", "type: object\nrequired: []");
    assert_eq!(
        w,
        "components:\n  schemas:\n    User:\n      type: object\n      required: []"
    );
}

#[test]
fn test_config_layering() {
    let mut base = Config::default();
    base.merge(Config {
        input: Some(vec!["a".to_string()]),
        verbatim: None,
        output: Some("low.yaml".to_string()),
        config_file: None,
    });
    base.merge(Config {
        input: None,
        verbatim: Some(vec!["x.yaml".to_string()]),
        output: Some("high.yaml".to_string()),
        config_file: None,
    });
    assert_eq!(base.input, Some(vec!["a".to_string()]));
    assert_eq!(base.verbatim, Some(vec!["x.yaml".to_string()]));
    assert_eq!(base.output, Some("high.yaml".to_string()));
}

#[test]
fn test_config_load_layers_priority() {
    let cargo = Config {
        input: Some(vec!["cargo".to_string()]),
        verbatim: None,
        output: Some("cargo.yaml".to_string()),
        config_file: None,
    };
    let cli = Config {
        input: None,
        verbatim: None,
        output: Some("cli.yaml".to_string()),
        config_file: None,
    };
    let merged = Config::load_layers(Some(cargo), None, None, cli);
    assert_eq!(merged.input, Some(vec!["cargo".to_string()]));
    assert_eq!(merged.output, Some("cli.yaml".to_string()));
}

#[test]
fn test_generator_builder() {
    let g = Generator::new()
        .input("src".to_string())
        .verbatim("extra.yaml".to_string())
        .output("out.yaml".to_string());
    assert_eq!(g.inputs, vec!["src".to_string()]);
    assert_eq!(g.verbatim_files, vec!["extra.yaml".to_string()]);
    assert_eq!(g.output_path, Some("out.yaml".to_string()));
}

#[test]
fn test_generator_with_config() {
    let g = Generator::new().input("first".to_string());
    let g = g.with_config(Config {
        input: Some(vec!["second".to_string()]),
        verbatim: Some(vec!["v.yaml".to_string()]),
        output: Some("o.yaml".to_string()),
        config_file: None,
    });
    assert_eq!(g.inputs, vec!["first".to_string(), "second".to_string()]);
    assert_eq!(g.verbatim_files, vec!["v.yaml".to_string()]);
    assert_eq!(g.output_path, Some("o.yaml".to_string()));
}
