use splitrs::decl::{Item, TypeDecl};
use splitrs::scope::{FieldVisibility, ImplOrganizationStrategy, ScopeAnalyzer};

#[test]
fn test_scope_analyzer_creation() {
    let analyzer = ScopeAnalyzer::new();
    assert_eq!(analyzer.type_count(), 0);
    assert_eq!(analyzer.block_count(), 0);
}

#[test]
fn test_register_type() {
    let mut analyzer = ScopeAnalyzer::new();
    analyzer.register_type("TestStruct", "types");

    assert_eq!(analyzer.type_count(), 1);
    assert!(analyzer.has_type("TestStruct"));
}

#[test]
fn test_strategy_inline_few_methods() {
    let mut analyzer = ScopeAnalyzer::new();
    analyzer.register_type("SmallStruct", "types");

    // One block with few methods, registered as item 0.
    analyzer.register_impl_block(
        "SmallStruct".to_string(),
        0,
        "smallstruct_methods".to_string(),
        2,
    );

    let strategy = analyzer.determine_strategy("SmallStruct");
    assert_eq!(strategy, ImplOrganizationStrategy::Inline);
}

#[test]
fn test_field_visibility_inference() {
    let mut analyzer = ScopeAnalyzer::new();
    analyzer.register_type("TestStruct", "types");

    // Inline strategy -> private fields
    let visibility = analyzer.infer_field_visibility("TestStruct");
    assert_eq!(visibility, FieldVisibility::Private);
}

#[test]
fn nine_functions_stay_inline() {
    let mut analyzer = ScopeAnalyzer::new();
    analyzer.register_impl_block("Foo".to_string(), 1, "foo_a_group".to_string(), 5);
    analyzer.register_impl_block("Foo".to_string(), 1, "foo_b_group".to_string(), 4);
    assert_eq!(analyzer.determine_strategy("Foo"), ImplOrganizationStrategy::Inline);
    assert_eq!(analyzer.infer_field_visibility("Foo"), FieldVisibility::Private);
}

#[test]
fn ten_functions_in_one_block_use_a_wrapper() {
    let mut analyzer = ScopeAnalyzer::new();
    analyzer.register_impl_block("Foo".to_string(), 1, "foo_a_group".to_string(), 6);
    analyzer.register_impl_block("Foo".to_string(), 1, "foo_b_group".to_string(), 4);
    assert_eq!(
        analyzer.determine_strategy("Foo"),
        ImplOrganizationStrategy::Wrapper { module_name: "foo_module".to_string() }
    );
    assert_eq!(analyzer.infer_field_visibility("Foo"), FieldVisibility::Private);
}

#[test]
fn ten_functions_in_two_blocks_use_submodules() {
    let mut analyzer = ScopeAnalyzer::new();
    analyzer.register_impl_block("Foo".to_string(), 1, "foo_a_group".to_string(), 5);
    analyzer.register_impl_block("Bar".to_string(), 2, "bar_x_group".to_string(), 50);
    analyzer.register_impl_block("Foo".to_string(), 3, "foo_handlers".to_string(), 5);
    assert_eq!(
        analyzer.determine_strategy("Foo"),
        ImplOrganizationStrategy::Submodule {
            parent_module: "foo_type".to_string(),
            impl_modules: vec!["foo_a_group".to_string(), "foo_handlers".to_string()],
        }
    );
    assert_eq!(analyzer.infer_field_visibility("Foo"), FieldVisibility::PubSuper);
}

#[test]
fn module_structure_per_strategy() {
    let mut analyzer = ScopeAnalyzer::new();
    let inline = analyzer.generate_module_structure("Plain");
    assert_eq!(inline.type_module, "plain_type");
    assert!(!inline.needs_path_attributes);
    assert_eq!(inline.re_exports, vec!["pub use plain_type::*;".to_string()]);

    analyzer.register_impl_block("Big".to_string(), 1, "big-one".to_string(), 6);
    analyzer.register_impl_block("Big".to_string(), 2, "big_two".to_string(), 6);
    let sub = analyzer.generate_module_structure("Big");
    assert_eq!(sub.type_module, "big_type");
    assert!(sub.needs_path_attributes);
    assert_eq!(
        sub.path_includes,
        vec![
            "#[path = \"big-one.rs\"]\nmod big_one;".to_string(),
            "#[path = \"big_two.rs\"]\nmod big_two;".to_string(),
        ]
    );
    assert_eq!(sub.re_exports, vec!["pub use big_type::*;".to_string()]);
}

#[test]
fn type_module_content_binds_children() {
    let mut analyzer = ScopeAnalyzer::new();
    analyzer.register_impl_block("Big".to_string(), 1, "big_a".to_string(), 6);
    analyzer.register_impl_block("Big".to_string(), 2, "big-b".to_string(), 6);
    let text = analyzer.generate_type_module_content("Big", &Some("struct Big;".to_string()));
    assert_eq!(
        text,
        "//! Auto-generated type module\n\nuse std::collections::{HashMap, HashSet};\nuse super::super::types::*;\n\nstruct Big;\n\n// Include impl block modules\n#[path = \"big_a.rs\"]\nmod big_a;\n#[path = \"big-b.rs\"]\nmod big_b;\n"
    );
    let plain = analyzer.generate_type_module_content("Plain", &None);
    assert_eq!(
        plain,
        "//! Auto-generated type module\n\nuse std::collections::{HashMap, HashSet};\nuse super::super::types::*;\n\n"
    );
}

#[test]
fn registering_types_from_items() {
    let mut analyzer = ScopeAnalyzer::new();
    let items = vec![
        Item::Struct(TypeDecl { name: "A".to_string(), fields: vec![], token_lines: 1 }),
        Item::Enum(TypeDecl { name: "B".to_string(), fields: vec![], token_lines: 1 }),
        Item::Other,
        Item::Struct(TypeDecl { name: "A".to_string(), fields: vec![], token_lines: 1 }),
    ];
    analyzer.analyze_types(&items);
    assert_eq!(analyzer.type_count(), 2);
    assert!(analyzer.has_type("A"));
    assert!(analyzer.has_type("B"));
    assert!(!analyzer.has_type("C"));
    analyzer.mark_needs_impl_module("A");
    assert_eq!(analyzer.type_count(), 2);
}
