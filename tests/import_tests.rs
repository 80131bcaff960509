use splitrs::decl::{FieldDecl, Item, TypeDecl, TypeExpr};
use splitrs::imports::{ImportAnalyzer, TypeVisitor};

fn names(v: &[&str]) -> Vec<String> {
    v.iter().map(|s| s.to_string()).collect()
}

fn path(name: &str, args: Vec<TypeExpr>) -> TypeExpr {
    TypeExpr::Path { name: name.to_string(), args }
}

#[test]
fn test_import_analyzer_std_types() {
    let analyzer = ImportAnalyzer::new();
    assert!(analyzer.is_std_type("String"));
    assert!(analyzer.is_std_type("HashMap"));
}

#[test]
fn test_primitive_detection() {
    let analyzer = ImportAnalyzer::new();
    assert!(analyzer.is_primitive("i32"));
    assert!(analyzer.is_primitive("bool"));
    assert!(!analyzer.is_primitive("String"));
}

#[test]
fn test_generate_use_statements() {
    let analyzer = ImportAnalyzer::new();
    let types = vec!["i32".to_string(), "String".to_string()];
    let statements = analyzer.generate_use_statements(&types);

    // Should not generate use statements for primitives and std types
    assert!(statements.is_empty() || statements.iter().all(|s| !s.contains("i32")));
}

#[test]
fn primitives_and_prelude_types_give_no_line() {
    let analyzer = ImportAnalyzer::new();
    let statements =
        analyzer.generate_use_statements(&names(&["i32", "u8", "bool", "str", "()", "String", "Vec"]));
    assert!(statements.is_empty());
}

#[test]
fn containers_share_one_sorted_line() {
    let analyzer = ImportAnalyzer::new();
    let statements = analyzer
        .generate_use_statements(&names(&["HashMap", "BTreeMap", "i64", "HashMap", "VecDeque"]));
    assert_eq!(
        statements,
        vec!["use std::collections::{BTreeMap, HashMap, VecDeque};".to_string()]
    );
}

#[test]
fn lines_follow_container_then_parent_root_other() {
    let mut analyzer = ImportAnalyzer::new();
    analyzer.add_mapping("Zeta".to_string(), "super::types::Zeta".to_string());
    analyzer.add_mapping("Alpha".to_string(), "super::types::Alpha".to_string());
    analyzer.add_mapping("Engine".to_string(), "crate::engine::Engine".to_string());
    analyzer.add_mapping("Json".to_string(), "serde_json::Value".to_string());
    let statements = analyzer.generate_use_statements(&names(&[
        "Json", "Zeta", "HashSet", "Engine", "Alpha", "Missing", "Zeta",
    ]));
    assert_eq!(
        statements,
        names(&[
            "use std::collections::{HashSet};",
            "use super::types::Alpha;",
            "use super::types::Zeta;",
            "use crate::engine::Engine;",
            "use serde_json::Value;",
        ])
    );
}

#[test]
fn later_mapping_replaces_earlier() {
    let mut analyzer = ImportAnalyzer::new();
    analyzer.add_mapping("Foo".to_string(), "crate::a::Foo".to_string());
    analyzer.add_mapping("Foo".to_string(), "crate::b::Foo".to_string());
    assert_eq!(analyzer.lookup("Foo"), Some("crate::b::Foo".to_string()));
    assert_eq!(analyzer.lookup("Bar"), None);
}

#[test]
fn file_items_build_the_symbol_map() {
    let mut analyzer = ImportAnalyzer::new();
    let items = vec![
        Item::Struct(TypeDecl { name: "Foo".to_string(), fields: vec![], token_lines: 1 }),
        Item::Enum(TypeDecl { name: "Kind".to_string(), fields: vec![], token_lines: 1 }),
        Item::TypeAlias("Alias".to_string()),
        Item::Use("use crate :: util :: Helper ;".to_string()),
        Item::Use("use std :: fmt :: write ;".to_string()),
        Item::Other,
    ];
    analyzer.analyze_file(&items);
    assert_eq!(analyzer.lookup("Foo"), Some("super::types::Foo".to_string()));
    assert_eq!(analyzer.lookup("Kind"), Some("super::types::Kind".to_string()));
    assert_eq!(analyzer.lookup("Alias"), Some("super::types::Alias".to_string()));
    assert_eq!(analyzer.lookup("Helper"), Some("crate :: util :: Helper".to_string()));
    assert_eq!(analyzer.lookup("write"), None);
}

#[test]
fn use_text_is_trimmed_and_split_on_last_separator() {
    let mut analyzer = ImportAnalyzer::new();
    analyzer.extract_use_mapping("use a::b::Widget;;");
    assert_eq!(analyzer.lookup("Widget"), Some("a::b::Widget".to_string()));
    analyzer.extract_use_mapping(" use a :: Gadget ;");
    assert_eq!(analyzer.lookup("Gadget"), Some("a :: Gadget".to_string()));
    analyzer.extract_use_mapping("use a::b::Spaced;  ");
    assert_eq!(analyzer.lookup("Spaced"), None);
    assert_eq!(analyzer.lookup("Spaced;"), Some("a::b::Spaced;".to_string()));
}

#[test]
fn common_imports_by_depth() {
    let analyzer = ImportAnalyzer::new();
    assert_eq!(
        analyzer.infer_common_imports(),
        names(&[
            "use std::collections::{HashMap, HashSet};",
            "use super::types::*;",
            "use super::PropertyPathEvaluator;",
        ])
    );
    assert_eq!(
        analyzer.infer_imports_with_depth(2)[1],
        "use super::super::types::*;".to_string()
    );
    assert_eq!(
        analyzer.infer_imports_with_depth(0)[2],
        "use PropertyPathEvaluator;".to_string()
    );
}

#[test]
fn type_visitor_collects_paths_references_and_tuples() {
    let mut visitor = TypeVisitor::new();
    let ty = path(
        "HashMap",
        vec![
            path("String", vec![]),
            TypeExpr::Reference(Box::new(TypeExpr::Tuple(vec![
                path("Foo", vec![]),
                TypeExpr::Slice(Box::new(path("Hidden", vec![]))),
            ]))),
        ],
    );
    visitor.extract_type_name(&ty);
    visitor.visit_path_expr("Variant");
    visitor.visit_path_expr("local");
    assert_eq!(visitor.types_used, names(&["HashMap", "String", "Foo", "Variant"]));
}

#[test]
fn analyze_methods_records_names() {
    let mut analyzer = ImportAnalyzer::new();
    analyzer.analyze_methods(&names(&["Foo", "Bar"]));
    assert_eq!(analyzer.lookup("Foo"), None);
}

#[test]
fn field_declaration_shapes() {
    let f = FieldDecl { is_private: true, ty: TypeExpr::Other };
    assert!(f.is_private);
}
