use splitrs::decl::{FnDecl, ImplDecl};
use splitrs::methods::{ImplBlockAnalyzer, MethodGroup, MethodInfo};

fn f(name: &str, callees: &[&str], token_lines: usize) -> FnDecl {
    FnDecl {
        name: name.to_string(),
        callees: callees.iter().map(|s| s.to_string()).collect(),
        token_lines,
    }
}

fn block(fns: Vec<FnDecl>) -> ImplDecl {
    ImplDecl {
        self_type: Some("MyStruct".to_string()),
        trait_name: None,
        is_unsafe: false,
        fns,
        token_lines: 10,
    }
}

fn group_names(groups: &[MethodGroup]) -> Vec<Vec<String>> {
    groups
        .iter()
        .map(|g| g.methods.iter().map(|m| m.name.clone()).collect())
        .collect()
}

#[test]
fn test_method_analysis() {
    let impl_block = block(vec![
        f("foo", &["bar"], 1),
        f("bar", &[], 1),
        f("baz", &["foo"], 1),
    ]);

    let mut analyzer = ImplBlockAnalyzer::new();
    analyzer.analyze(&impl_block);

    assert_eq!(analyzer.get_total_methods(), 3);
    assert!(analyzer.methods().iter().any(|m| m.name == "foo"));
    assert!(analyzer.methods().iter().any(|m| m.name == "bar"));
    assert!(analyzer.methods().iter().any(|m| m.name == "baz"));
}

#[test]
fn test_method_grouping() {
    let impl_block = block(vec![
        f("foo", &["bar"], 1),
        f("bar", &[], 1),
        f("unrelated", &[], 1),
    ]);

    let mut analyzer = ImplBlockAnalyzer::new();
    analyzer.analyze(&impl_block);

    let groups = analyzer.group_methods(1000);
    assert!(!groups.is_empty());
}

#[test]
fn related_functions_share_a_group() {
    let mut analyzer = ImplBlockAnalyzer::new();
    analyzer.analyze(&block(vec![
        f("foo", &["bar"], 1),
        f("bar", &[], 1),
        f("unrelated", &[], 1),
    ]));
    let groups = analyzer.group_methods(1000);
    assert_eq!(
        group_names(&groups),
        vec![vec!["foo".to_string(), "bar".to_string()], vec!["unrelated".to_string()]]
    );
}

#[test]
fn size_estimate_scales_token_lines() {
    let mut analyzer = ImplBlockAnalyzer::new();
    analyzer.analyze(&block(vec![f("a", &[], 0), f("b", &[], 3)]));
    let counts: Vec<usize> = analyzer.methods().iter().map(|m| m.line_count).collect();
    assert_eq!(counts, vec![15, 45]);
    assert_eq!(analyzer.get_total_lines(), 60);
    assert!(analyzer.total_lines_exceed(59));
    assert!(!analyzer.total_lines_exceed(60));
}

#[test]
fn groups_cover_every_function_once() {
    let mut analyzer = ImplBlockAnalyzer::new();
    analyzer.analyze(&block(vec![
        f("a", &["b", "c"], 2),
        f("b", &[], 2),
        f("c", &["d"], 2),
        f("d", &[], 2),
        f("e", &["a"], 2),
        f("g", &[], 9),
    ]));
    let groups = analyzer.group_methods(40);
    let mut positions: Vec<usize> = groups
        .iter()
        .flat_map(|g| g.methods.iter().map(|m| m.position))
        .collect();
    positions.sort();
    assert_eq!(positions, vec![0, 1, 2, 3, 4, 5]);
}

#[test]
fn groups_respect_the_budget_or_stand_alone() {
    let mut analyzer = ImplBlockAnalyzer::new();
    analyzer.analyze(&block(vec![
        f("a", &["b", "c", "d"], 1),
        f("b", &[], 1),
        f("c", &[], 1),
        f("d", &[], 10),
    ]));
    let max = 40;
    let groups = analyzer.group_methods(max);
    for g in &groups {
        assert!(g.total_lines() <= max || g.methods.len() == 1);
    }
    assert_eq!(
        group_names(&groups),
        vec![
            vec!["a".to_string(), "b".to_string()],
            vec!["c".to_string()],
            vec!["d".to_string()],
        ]
    );
}

#[test]
fn oversized_function_forms_its_own_group() {
    let mut analyzer = ImplBlockAnalyzer::new();
    analyzer.analyze(&block(vec![f("huge", &[], 100), f("small", &["huge"], 1)]));
    let groups = analyzer.group_methods(30);
    assert_eq!(
        group_names(&groups),
        vec![vec!["huge".to_string()], vec!["small".to_string()]]
    );
    assert_eq!(groups[0].total_lines(), 1500);
}

#[test]
fn relation_is_checked_against_the_seed_only() {
    let mut analyzer = ImplBlockAnalyzer::new();
    analyzer.analyze(&block(vec![f("a", &["b"], 1), f("b", &["c"], 1), f("c", &[], 1)]));
    let groups = analyzer.group_methods(1000);
    assert_eq!(
        group_names(&groups),
        vec![vec!["a".to_string(), "b".to_string()], vec!["c".to_string()]]
    );
}

#[test]
fn grouping_is_repeatable() {
    let fns = vec![f("x", &["y"], 3), f("y", &[], 4), f("z", &["x"], 5)];
    let mut a1 = ImplBlockAnalyzer::new();
    a1.analyze(&block(fns.clone()));
    let mut a2 = ImplBlockAnalyzer::new();
    a2.analyze(&block(fns));
    let g1 = a1.group_methods(60);
    let g2 = a2.group_methods(60);
    assert_eq!(group_names(&g1), group_names(&g2));
    let n1: Vec<String> = g1.iter().map(|g| g.suggest_name()).collect();
    let n2: Vec<String> = g2.iter().map(|g| g.suggest_name()).collect();
    assert_eq!(n1, n2);
}

fn named_group(first: &str) -> MethodGroup {
    MethodGroup {
        methods: vec![MethodInfo {
            name: first.to_string(),
            calls_methods: vec![],
            line_count: 15,
            position: 0,
        }],
    }
}

#[test]
fn group_names_follow_prefix_rules() {
    assert_eq!(named_group("test_parse").suggest_name(), "test_methods");
    assert_eq!(named_group("check_input").suggest_name(), "check_methods");
    assert_eq!(named_group("get_value").suggest_name(), "accessors");
    assert_eq!(named_group("set_value").suggest_name(), "accessors");
    assert_eq!(named_group("handle_event").suggest_name(), "handlers");
    assert_eq!(named_group("process_item").suggest_name(), "handlers");
    assert_eq!(named_group("render").suggest_name(), "render_group");
    assert_eq!(MethodGroup { methods: vec![] }.suggest_name(), "methods");
}
