use oas_forge::error::Error;
use oas_forge::merger::{deep_merge, is_root, merge_openapi};
use oas_forge::scanner::Snippet;
use oas_forge::value::{doc_eq, emit_yaml, parse_yaml, DocValue};

#[test]
fn test_merge_simple() {
    let root = r#"
        openapi: 3.0.0
        info:
          title: Test
          version: 1.0
        paths:
          /foo:
            get:
              description: root
        "#;

    let fragment = r#"
        paths:
          /bar:
            post:
              description: fragment
        "#;

    let root_snippet = Snippet {
        content: root.to_string(),
        file_path: "root.yaml".to_string(),
        line_number: 1,
    };
    let frag_snippet = Snippet {
        content: fragment.to_string(),
        file_path: "frag.yaml".to_string(),
        line_number: 1,
    };

    let result = merge_openapi(vec![root_snippet, frag_snippet]).unwrap();

    let yaml_out = emit_yaml(&result).unwrap();
    assert!(yaml_out.contains("/foo"));
    assert!(yaml_out.contains("/bar"));
}

#[test]
fn test_no_root() {
    let fragment = "paths: {}";
    let snip = Snippet {
        content: fragment.to_string(),
        file_path: "frag.yaml".to_string(),
        line_number: 1,
    };
    let res = merge_openapi(vec![snip]);
    assert!(matches!(res, Err(Error::NoRootFound)));
}

#[test]
fn test_multiple_roots() {
    let root1 = "openapi: 3.0\ninfo: {title: A}";
    let root2 = "openapi: 3.0\ninfo: {title: B}";
    let s1 = Snippet {
        content: root1.to_string(),
        file_path: "r1.yaml".to_string(),
        line_number: 1,
    };
    let s2 = Snippet {
        content: root2.to_string(),
        file_path: "r2.yaml".to_string(),
        line_number: 1,
    };

    let res = merge_openapi(vec![s1, s2]);
    assert!(matches!(res, Err(Error::MultipleRootsFound)));
}

#[test]
fn test_source_mapped_error() {
    let bad_yaml = "invalid: : yaml";
    let snippet = Snippet {
        content: bad_yaml.to_string(),
        file_path: "bad.yaml".to_string(),
        line_number: 10,
    };
    let res = merge_openapi(vec![snippet]);
    match res {
        Err(Error::SourceMapped { file, line, context }) => {
            assert_eq!(file.as_str(), "bad.yaml");
            assert_eq!(line, 10);
            assert!(context.contains("invalid: : yaml"));
            assert!(context.contains("10 |")); // Line number in context
        }
        _ => panic!("Expected SourceMapped error"),
    }
}

#[test]
fn test_merge_dedup() {
    let root_full = r#"
        openapi: 3.0.0
        info: {title: T, version: 1}
        tags: [A, B]
        "#;
    let frag_full = r#"
        tags: [B, C]
        "#;

    let r_snip = Snippet {
        content: root_full.to_string(),
        file_path: "r".to_string(),
        line_number: 1,
    };
    let f_snip = Snippet {
        content: frag_full.to_string(),
        file_path: "f".to_string(),
        line_number: 1,
    };

    let res = merge_openapi(vec![r_snip, f_snip]).unwrap();
    let yaml = emit_yaml(&res).unwrap();

    let count_b = yaml.matches("B").count();
    assert_eq!(count_b, 1, "Should deduplicate tag B");
    assert!(yaml.contains("A"));
    assert!(yaml.contains("C"));
}

#[test]
fn test_sequence_merge_order_and_dedup() {
    // [A, B] merged with [B, C] is [A, B, C]: concatenated,
    // deduplicated, first occurrences kept in order.
    let a = DocValue::Sequence(vec![
        DocValue::Str("A".to_string()),
        DocValue::Str("B".to_string()),
    ]);
    let b = DocValue::Sequence(vec![
        DocValue::Str("B".to_string()),
        DocValue::Str("C".to_string()),
    ]);
    let merged = deep_merge(a, b);
    let expected = DocValue::Sequence(vec![
        DocValue::Str("A".to_string()),
        DocValue::Str("B".to_string()),
        DocValue::Str("C".to_string()),
    ]);
    assert!(doc_eq(&merged, &expected));
}

#[test]
fn test_mapping_merge_union_and_recursion() {
    // Disjoint keys are unioned; shared keys merge recursively; shared
    // scalar keys take the source's value.
    let target = parse_yaml("a: 1\nshared:\n  x: 1\n  s: old").unwrap();
    let source = parse_yaml("b: 2\nshared:\n  y: 2\n  s: new").unwrap();
    let merged = deep_merge(target, source);
    let expected = parse_yaml("a: 1\nshared:\n  x: 1\n  s: new\n  y: 2\nb: 2").unwrap();
    assert!(doc_eq(&merged, &expected));
}

#[test]
fn test_is_root_detection() {
    let root = parse_yaml("openapi: 3.0.0\ninfo: {title: T}").unwrap();
    assert!(is_root(&root));
    let partial = parse_yaml("openapi: 3.0.0").unwrap();
    assert!(!is_root(&partial));
    let scalar = parse_yaml("just a string").unwrap();
    assert!(!is_root(&scalar));
}

#[test]
fn test_scalar_overwrite_order_sensitive() {
    // Later snippets win for scalar conflicts.
    let root = Snippet {
        content: "openapi: 3.0.0\ninfo: {title: T}\nx: first".to_string(),
        file_path: "r".to_string(),
        line_number: 1,
    };
    let s1 = Snippet {
        content: "x: second".to_string(),
        file_path: "f1".to_string(),
        line_number: 1,
    };
    let s2 = Snippet {
        content: "x: third".to_string(),
        file_path: "f2".to_string(),
        line_number: 1,
    };
    let merged = merge_openapi(vec![root, s1, s2]).unwrap();
    let yaml = emit_yaml(&merged).unwrap();
    assert!(yaml.contains("x: third"));
    assert!(!yaml.contains("first"));
    assert!(!yaml.contains("second"));
}

#[test]
fn test_no_files_error_text() {
    let e = Error::NoFilesFound;
    assert_eq!(
        e.describe(),
        "Empty input: No files found in the specified directories."
    );
}
