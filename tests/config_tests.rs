use splitrs::config::Config;

#[test]
fn test_default_config() {
    let config = Config::default();
    assert_eq!(config.splitrs.max_lines, 1000);
    assert_eq!(config.splitrs.max_impl_lines, 500);
    assert!(!config.splitrs.split_impl_blocks);
}

#[test]
fn test_config_merge_with_args() {
    let mut config = Config::default();
    config.merge_with_args(Some(1500), Some(600), Some(true));

    assert_eq!(config.splitrs.max_lines, 1500);
    assert_eq!(config.splitrs.max_impl_lines, 600);
    assert!(config.splitrs.split_impl_blocks);
}

#[test]
fn merge_with_no_arguments_keeps_settings() {
    let mut config = Config::default();
    config.merge_with_args(Some(700), None, None);
    assert_eq!(config.splitrs.max_lines, 700);
    assert_eq!(config.splitrs.max_impl_lines, 500);
    assert!(!config.splitrs.split_impl_blocks);
}

#[test]
fn default_naming_and_output() {
    let config = Config::default();
    assert_eq!(config.naming.type_module_suffix, "_type");
    assert_eq!(config.naming.impl_module_suffix, "_impl");
    assert!(config.naming.use_snake_case);
    assert_eq!(config.output.module_doc_template, "//! Auto-generated module\n");
    assert!(config.output.preserve_comments);
    assert!(config.output.format_output);
}
