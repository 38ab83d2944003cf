use oas_forge::generics::Monomorphizer;
use oas_forge::index::Registry;

#[test]
fn test_monomorphize_named() {
    let mut registry = Registry::new();
    registry.insert_blueprint(
        "Page".to_string(),
        vec!["T".to_string()],
        "data: $ref: $T".to_string(),
    );

    let mut mono = Monomorphizer::new(registry);
    let result = mono.process("scheme: $ref: $Page<User>");

    // Should generate Page_User
    assert_eq!(result, "scheme: $ref: $Page_User");

    // Verify concrete schema content
    let registry = mono.into_registry();
    let concrete = registry.concrete_schemas.get(&"Page_User".to_string()).unwrap();
    assert_eq!(concrete.as_str(), "data: $ref: $User");
}

#[test]
fn test_nested_generics() {
    let mut registry = Registry::new();
    registry.insert_blueprint(
        "Wrapper".to_string(),
        vec!["T".to_string()],
        "wrap: $T".to_string(),
    );
    registry.insert_blueprint(
        "Inner".to_string(),
        vec!["U".to_string()],
        "in: $U".to_string(),
    );

    let mut mono = Monomorphizer::new(registry);
    let result = mono.process("$Wrapper<$Inner<Item>>");

    assert_eq!(result, "$Wrapper_Inner_Item");

    let registry = mono.into_registry();

    // Verify intermediate
    assert!(registry.concrete_schemas.contains_key(&"Inner_Item".to_string()));
    let inner = registry.concrete_schemas.get(&"Inner_Item".to_string()).unwrap();
    assert_eq!(inner.as_str(), "in: $Item");

    // Verify outer
    assert!(registry.concrete_schemas.contains_key(&"Wrapper_Inner_Item".to_string()));
    let wrapper = registry.concrete_schemas.get(&"Wrapper_Inner_Item".to_string()).unwrap();
    // Wrapper expects wrap: $T. T is Inner_Item. So wrap: $Inner_Item.
    assert_eq!(wrapper.as_str(), "wrap: $Inner_Item");
}

#[test]
fn test_monomorphize_twice_one_entry() {
    // Instantiating the same tuple twice yields the same mangled name
    // and leaves the registry with exactly one entry for it.
    let mut registry = Registry::new();
    registry.insert_blueprint(
        "Page".to_string(),
        vec!["T".to_string()],
        "data: $ref: $T".to_string(),
    );
    let mut mono = Monomorphizer::new(registry);
    let first = mono.monomorphize("Page", "User");
    let count_after_first = {
        let r = &mono.registry;
        r.concrete_schemas.len()
    };
    let second = mono.monomorphize("Page", "User");
    let registry = mono.into_registry();
    assert_eq!(first, "Page_User");
    assert_eq!(second, "Page_User");
    assert_eq!(registry.concrete_schemas.len(), count_after_first);
    assert_eq!(
        registry.concrete_schemas.get(&"Page_User".to_string()).unwrap().as_str(),
        "data: $ref: $User"
    );
}

#[test]
fn test_missing_blueprint_dangles() {
    // A reference to an unknown blueprint still yields the mangled
    // name, with nothing registered.
    let registry = Registry::new();
    let mut mono = Monomorphizer::new(registry);
    let result = mono.process("x: $Ghost<Y>");
    assert_eq!(result, "x: $Ghost_Y");
    let registry = mono.into_registry();
    assert!(!registry.concrete_schemas.contains_key(&"Ghost_Y".to_string()));
}

#[test]
fn test_empty_argument_list_generic_suffix() {
    let mut registry = Registry::new();
    registry.insert_blueprint("Box".to_string(), vec![], "kind: plain".to_string());
    let mut mono = Monomorphizer::new(registry);
    let name = mono.monomorphize("Box", "  ");
    assert_eq!(name, "Box_Generic");
    let registry = mono.into_registry();
    assert_eq!(
        registry.concrete_schemas.get(&"Box_Generic".to_string()).unwrap().as_str(),
        "kind: plain"
    );
}

#[test]
fn test_malformed_generic_left_untouched() {
    let registry = Registry::new();
    let mut mono = Monomorphizer::new(registry);
    let result = mono.process("broken: $Page<User");
    assert_eq!(result, "broken: $Page<User");
}
