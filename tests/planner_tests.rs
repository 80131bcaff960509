use splitrs::decl::{FieldDecl, FnDecl, ImplDecl, Item, TypeDecl, TypeExpr};
use splitrs::emit::{apply_field_visibility, extract_type_names, generate_mod_rs};
use splitrs::naming::NameAllocator;
use splitrs::planner::{assign_names, FileAnalyzer, Module};
use splitrs::scope::FieldVisibility;

fn path(name: &str, args: Vec<TypeExpr>) -> TypeExpr {
    TypeExpr::Path { name: name.to_string(), args }
}

fn strukt(name: &str, fields: Vec<FieldDecl>) -> Item {
    Item::Struct(TypeDecl { name: name.to_string(), fields, token_lines: 2 })
}

fn f(name: &str, callees: &[&str]) -> FnDecl {
    FnDecl {
        name: name.to_string(),
        callees: callees.iter().map(|s| s.to_string()).collect(),
        token_lines: 1,
    }
}

fn imp(self_type: &str, trait_name: Option<&str>, fns: Vec<FnDecl>) -> Item {
    Item::Impl(ImplDecl {
        self_type: Some(self_type.to_string()),
        trait_name: trait_name.map(|t| t.to_string()),
        is_unsafe: false,
        fns,
        token_lines: 3,
    })
}

fn sample_items() -> Vec<Item> {
    vec![
        strukt(
            "Foo",
            vec![
                FieldDecl {
                    is_private: true,
                    ty: path("HashMap", vec![path("String", vec![]), path("Bar", vec![])]),
                },
                FieldDecl { is_private: false, ty: path("u8", vec![]) },
            ],
        ),
        imp("Foo", None, vec![f("bar", &[])]),
        imp("Foo", Some("Display"), vec![f("fmt", &[])]),
        Item::Other,
        strukt("Bar", vec![]),
        imp("Unknown", None, vec![]),
        Item::Use("use std :: fmt :: Display ;".to_string()),
    ]
}

fn unit_names(units: &[Module]) -> Vec<String> {
    units.iter().map(|m| m.name.clone()).collect()
}

#[test]
fn test_impl_type_extraction() {
    let items = vec![strukt("Foo", vec![]), imp("Foo", None, vec![f("bar", &[])])];
    let mut analyzer = FileAnalyzer::new(false, 500);
    analyzer.analyze(&items);

    assert_eq!(analyzer.types().len(), 1);
    assert_eq!(analyzer.inline_impls().iter().filter(|r| r.owner == 0).count(), 1);
}

#[test]
fn registry_classifies_items() {
    let items = sample_items();
    let mut analyzer = FileAnalyzer::new(false, 500);
    analyzer.analyze(&items);
    let types: Vec<String> = analyzer.types().iter().map(|t| t.name.clone()).collect();
    assert_eq!(types, vec!["Foo".to_string(), "Bar".to_string()]);
    assert_eq!(analyzer.inline_impls().len(), 1);
    assert_eq!(analyzer.inline_impls()[0].item, 1);
    assert_eq!(analyzer.trait_impls().len(), 1);
    assert_eq!(analyzer.trait_impls()[0].trait_name, "Display");
    assert_eq!(analyzer.standalone_items(), &vec![3, 5, 6]);
    assert!(analyzer.large_impls().is_empty());
}

#[test]
fn impl_before_its_type_stands_alone() {
    let items = vec![imp("Late", None, vec![f("a", &[])]), strukt("Late", vec![])];
    let mut analyzer = FileAnalyzer::new(false, 500);
    analyzer.analyze(&items);
    assert_eq!(analyzer.standalone_items(), &vec![0]);
    assert!(analyzer.inline_impls().is_empty());
}

#[test]
fn units_in_fixed_order() {
    let items = sample_items();
    let mut analyzer = FileAnalyzer::new(false, 500);
    analyzer.analyze(&items);
    let units = analyzer.group_by_module(1000);
    assert_eq!(
        unit_names(&units),
        vec!["foo_traits".to_string(), "types".to_string(), "functions".to_string()]
    );
    assert_eq!(units[1].types, vec![0, 1]);
    assert_eq!(units[2].standalone_items, vec![3, 5, 6]);
    assert_eq!(units[0].trait_impls, vec![0]);
}

#[test]
fn types_are_packed_by_size() {
    let items = vec![strukt("A", vec![]), strukt("B", vec![]), strukt("C", vec![])];
    let mut analyzer = FileAnalyzer::new(false, 500);
    analyzer.analyze(&items);
    let units = analyzer.group_by_module(4);
    assert_eq!(
        unit_names(&units),
        vec!["types".to_string(), "types_2".to_string()]
    );
    assert_eq!(units[0].types, vec![0, 1]);
    assert_eq!(units[1].types, vec![2]);
}

#[test]
fn split_block_gets_one_unit_per_group() {
    let items = vec![
        strukt("Foo", vec![FieldDecl { is_private: true, ty: path("u32", vec![]) }]),
        imp("Foo", None, vec![f("a", &["b"]), f("b", &[]), f("c", &[])]),
    ];
    let mut analyzer = FileAnalyzer::new(true, 20);
    analyzer.analyze(&items);
    assert_eq!(analyzer.large_impls().len(), 1);
    assert_eq!(analyzer.large_impls()[0].groups.len(), 3);
    let units = analyzer.group_by_module(1000);
    assert_eq!(
        unit_names(&units),
        vec![
            "foo_a_group".to_string(),
            "foo_b_group".to_string(),
            "foo_c_group".to_string(),
            "foo_type".to_string(),
        ]
    );
    assert_eq!(units[3].field_visibility, Some(FieldVisibility::Private));
    assert_eq!(units[0].impl_item, Some(1));
    let text = units[0].generate_content(&analyzer, &items, &vec!["impl Foo {}\n".to_string()]);
    assert_eq!(
        text,
        "//! # Foo - a_group Methods\n//!\n//! This module contains method implementations for `Foo`.\n//!\n//! 🤖 Generated with [SplitRS](https://github.com/cool-japan/splitrs)\n\nuse std::collections::{HashMap, HashSet};\nuse super::foo_type::Foo;\n\nimpl Foo {}\n"
    );
}

#[test]
fn small_block_is_not_split() {
    let items = vec![strukt("Foo", vec![]), imp("Foo", None, vec![f("a", &[]), f("b", &[])])];
    let mut analyzer = FileAnalyzer::new(true, 500);
    analyzer.analyze(&items);
    assert!(analyzer.large_impls().is_empty());
    assert_eq!(analyzer.inline_impls().len(), 1);
}

#[test]
fn colliding_unit_names_get_suffixes() {
    let items = vec![
        strukt("Foo", vec![]),
        strukt("FOO", vec![]),
        imp("Foo", Some("Clone"), vec![]),
        imp("FOO", Some("Clone"), vec![]),
    ];
    let mut analyzer = FileAnalyzer::new(false, 500);
    analyzer.analyze(&items);
    let units = analyzer.group_by_module(1000);
    assert_eq!(
        unit_names(&units),
        vec!["foo_traits".to_string(), "foo_traits_1".to_string(), "types".to_string()]
    );
}

#[test]
fn two_requests_for_one_name() {
    let names = assign_names(&vec!["foo".to_string(), "foo".to_string()]);
    assert_eq!(names, vec!["foo".to_string(), "foo_1".to_string()]);
}

#[test]
fn suffixes_skip_names_in_use() {
    let names = assign_names(&vec![
        "foo".to_string(),
        "foo".to_string(),
        "foo_1".to_string(),
        "foo".to_string(),
        "bar".to_string(),
    ]);
    assert_eq!(
        names,
        vec![
            "foo".to_string(),
            "foo_1".to_string(),
            "foo_1_1".to_string(),
            "foo_2".to_string(),
            "bar".to_string(),
        ]
    );
    let mut alloc = NameAllocator::new();
    assert_eq!(alloc.allocate("x"), "x");
    assert_eq!(alloc.allocate("x"), "x_1");
}

#[test]
fn index_module_lists_every_unit() {
    let items = sample_items();
    let mut analyzer = FileAnalyzer::new(false, 500);
    analyzer.analyze(&items);
    let units = analyzer.group_by_module(1000);
    assert_eq!(
        generate_mod_rs(&units),
        "//! Auto-generated module structure\n\npub mod foo_traits;\npub mod types;\npub mod functions;\n\n// Re-export all types\npub use foo_traits::*;\npub use types::*;\npub use functions::*;\n"
    );
}

#[test]
fn unit_text_for_types_and_traits() {
    let items = sample_items();
    let mut analyzer = FileAnalyzer::new(false, 500);
    analyzer.analyze(&items);
    let units = analyzer.group_by_module(1000);
    let traits = units[0].generate_content(&analyzer, &items, &vec!["impl Display for Foo {}".to_string()]);
    assert_eq!(
        traits,
        "//! # Foo - Trait Implementations\n//!\n//! This module contains trait implementations for `Foo`.\n//!\n//! ## Implemented Traits\n//!\n//! - `Display`\n//!\n//! 🤖 Generated with [SplitRS](https://github.com/cool-japan/splitrs)\n\nuse super::types::Foo;\n\nimpl Display for Foo {}\n"
    );
    let types = units[1].generate_content(&analyzer, &items, &vec!["struct Foo;\n".to_string()]);
    assert_eq!(
        types,
        "//! Auto-generated module\n//!\n//! 🤖 Generated with [SplitRS](https://github.com/cool-japan/splitrs)\n\nuse std::collections::{HashMap};\n\nstruct Foo;\n"
    );
}

#[test]
fn visibility_is_only_raised() {
    let item = strukt(
        "S",
        vec![
            FieldDecl { is_private: true, ty: TypeExpr::Other },
            FieldDecl { is_private: false, ty: TypeExpr::Other },
        ],
    );
    assert_eq!(
        apply_field_visibility(&item, FieldVisibility::PubSuper),
        vec![Some(FieldVisibility::PubSuper), None]
    );
    assert_eq!(apply_field_visibility(&item, FieldVisibility::Private), vec![None, None]);
    assert!(apply_field_visibility(&Item::Other, FieldVisibility::Pub).is_empty());
}

#[test]
fn type_names_through_every_shape() {
    let ty = TypeExpr::Reference(Box::new(TypeExpr::Array(Box::new(path(
        "Vec",
        vec![TypeExpr::Ptr(Box::new(TypeExpr::Slice(Box::new(TypeExpr::Tuple(vec![
            path("A", vec![]),
            path("B", vec![]),
        ])))))],
    )))));
    let mut names = Vec::new();
    extract_type_names(&ty, &mut names);
    assert_eq!(names, vec!["Vec".to_string(), "A".to_string(), "B".to_string()]);
}
