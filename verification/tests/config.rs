use yaml_filter::config::{colorize_for, AppConfig};

#[test]
fn monochrome_output_is_never_coloured() {
    let cfg = AppConfig { input: None, monochrome_output: true, key_patterns: Vec::new() };
    assert!(!cfg.should_colorize());
    let cfg = AppConfig { input: Some("file.yml".to_string()), monochrome_output: true, key_patterns: Vec::new() };
    assert!(!cfg.should_colorize());
}

#[test]
fn colour_needs_a_terminal_and_no_monochrome() {
    assert!(colorize_for(false, true));
    assert!(!colorize_for(false, false));
    assert!(!colorize_for(true, true));
    assert!(!colorize_for(true, false));
}

fn config(input: Option<&str>) -> AppConfig {
    AppConfig {
        input: input.map(|s| s.to_string()),
        monochrome_output: false,
        key_patterns: vec!["main.*".to_string(), "other".to_string()],
    }
}

#[test]
fn double_dash_or_no_input_reads_stdin() {
    assert!(config(None).reads_stdin());
    assert!(config(Some("--")).reads_stdin());
    assert!(!config(Some("-")).reads_stdin());
    assert!(!config(Some("---")).reads_stdin());
    assert!(!config(Some("file.yml")).reads_stdin());
}

#[test]
fn key_patterns_are_handed_out_in_order() {
    assert_eq!(config(None).include_patterns(), vec!["main.*", "other"]);
    let none = AppConfig { input: None, monochrome_output: true, key_patterns: Vec::new() };
    assert!(none.include_patterns().is_empty());
}
