use rust_formatter::config::Config;
use rust_formatter::formatter::format_source;
use rust_formatter::formatter::format_source_with_config;
use rust_formatter::pass::line_length::collapse_opening_braces;

fn with_max(max: usize) -> Config {
    let mut c = Config::default();
    c.max_line_length = max;
    c
}

#[test]
fn sort_derives_readme() {
    let input = "#[derive(Debug, Clone, PartialEq, Eq)]\nstruct Foo;\n";
    assert_eq!(format_source(input), "#[derive(Clone, Debug, Eq, PartialEq)]\nstruct Foo;\n");
}

#[test]
fn sort_derives_disabled_keeps_order() {
    let mut c = Config::default();
    c.sort_derives = false;
    let input = "#[derive(Debug, Clone)]\nstruct Foo;\n";
    assert_eq!(format_source_with_config(input, &c), input);
}

#[test]
fn sort_imports_readme() {
    let input = "use std::collections::{HashMap, BTreeMap};\nuse crate::config::Config;\nuse anyhow::Result;\n";
    let expected = "use anyhow::Result;\nuse std::collections::BTreeMap;\nuse std::collections::HashMap;\n\nuse crate::config::Config;\n";
    assert_eq!(format_source(input), expected);
}

#[test]
fn sort_imports_disabled_keeps_order() {
    let mut c = Config::default();
    c.sort_imports = false;
    let input = "use std::io;\nuse anyhow::Result;\n";
    assert_eq!(format_source_with_config(input, &c), input);
}

#[test]
fn hoist_imports_readme() {
    let input = "use std::fs;\n\nfn main() {}\n\nuse std::io;\n";
    assert_eq!(format_source(input), "use std::fs;\nuse std::io;\n\nfn main() {}\n");
}

#[test]
fn hoist_imports_leaves_trailing_comment_in_place() {
    let input = "use std::fs;\n\nfn main() {}\n\nuse std::io;  // stray import\n";
    assert_eq!(format_source(input), "use std::fs;\nuse std::io;\n\nfn main() {}\n\n// stray import\n");
}

#[test]
fn hoist_imports_disabled_keeps_place() {
    let mut c = Config::default();
    c.hoist_imports = false;
    let input = "use std::fs;\n\nfn main() {}\n\nuse std::io;\n";
    assert_eq!(format_source_with_config(input, &c), input);
}

#[test]
fn reflow_doc_comments_readme() {
    let input = "/// This is a very long doc comment line that definitely exceeds the configured maximum line length and should be wrapped onto multiple lines.\n";
    let expected = "/// This is a very long doc comment line that definitely exceeds the configured\n/// maximum line length and should be wrapped onto multiple lines.\n";
    assert_eq!(format_source_with_config(input, &with_max(80)), expected);
}

#[test]
fn reflow_doc_comments_default_width() {
    let input = "/// This is a very long doc comment line that definitely exceeds the configured maximum line length and should be wrapped onto multiple lines.\nfn f() {}\n";
    let expected = "/// This is a very long doc comment line that definitely exceeds the configured maximum line length and should be\n/// wrapped onto multiple lines.\nfn f() {}\n";
    assert_eq!(format_source(input), expected);
}

#[test]
fn section_headers_readme() {
    let input = "// ==========\n// === Config ===\n// ==========\n";
    let expected = "// ==============\n// === Config ===\n// ==============\n";
    assert_eq!(format_source(input), expected);
}

#[test]
fn section_headers_disabled() {
    let mut c = Config::default();
    c.format_section_headers = false;
    let input = "// ==========\n// === Config ===\n// ==========\n";
    assert_eq!(format_source_with_config(input, &c), input);
}

#[test]
fn collapse_blank_lines_readme() {
    assert_eq!(format_source("fn foo() {}\n\n\n\nfn bar() {}\n"), "fn foo() {}\n\nfn bar() {}\n");
}

#[test]
fn collapse_blank_lines_disabled() {
    let mut c = Config::default();
    c.collapse_blank_lines = false;
    let input = "fn foo() {}\n\n\n\nfn bar() {}\n";
    assert_eq!(format_source_with_config(input, &c), input);
}

#[test]
fn reformat_chains_breaks_long_line() {
    let input = "fn f() {\n    let result = items.iter().filter(|x| x.is_valid()).map(|x| x.value()).collect::<Vec<_>>();\n}\n";
    let expected = "fn f() {\n    let result = items\n        .iter()\n        .filter(|x| x.is_valid())\n        .map(|x| x.value())\n        .collect::<Vec<_>>();\n}\n";
    assert_eq!(format_source_with_config(input, &with_max(80)), expected);
}

#[test]
fn reformat_chains_short_chain_stays() {
    let input = "fn f() {\n    let result = items.iter().filter(|x| x.is_valid()).map(|x| x.value()).collect::<Vec<_>>();\n}\n";
    assert_eq!(format_source(input), input);
}

#[test]
fn reformat_chains_collapses_when_fits() {
    let input = "fn f() {\n    let v = a\n        .b()\n        .c();\n}\n";
    assert_eq!(format_source_with_config(input, &with_max(80)), "fn f() {\n    let v = a.b().c();\n}\n");
}

#[test]
fn enforce_line_length_readme() {
    let input = "fn process(input: String, output: String, config: Config, verbose: bool) { do_work(); }\n";
    let expected = "fn process(\n    input: String,\n    output: String,\n    config: Config,\n    verbose: bool,\n) {\n    do_work();\n}\n";
    assert_eq!(format_source_with_config(input, &with_max(80)), expected);
}

#[test]
fn enforce_line_length_disabled() {
    let mut c = with_max(80);
    c.enforce_line_length = false;
    let input = "fn process(input: String, output: String, config: Config, verbose: bool) { do_work(); }\n";
    assert_eq!(format_source_with_config(input, &c), input);
}

#[test]
fn collapse_orphaned_opening_brace() {
    assert_eq!(format_source("fn f()\n{\n    g();\n}\n"), "fn f() {\n    g();\n}\n");
}

#[test]
fn nested_chain_still_broken_when_its_line_is_too_long() {
    let input = "fn f() {\n    let r = items.map(|x| x.first_long_method_name().second_long_method_name().third_long_method_name()).count();\n}\n";
    let out = format_source_with_config(input, &with_max(60));
    assert!(out.contains("        .map(|x| x\n"));
    assert!(out.contains("        .count();\n"));
}

#[test]
fn lone_brace_kept_when_merged_line_too_long() {
    let src: Vec<char> = "fn long_name()\n{\n}".chars().collect();
    let out: String = collapse_opening_braces(&src, &with_max(10)).iter().collect();
    assert_eq!(out, "fn long_name()\n{\n}");
    let out: String = collapse_opening_braces(&src, &Config::default()).iter().collect();
    assert_eq!(out, "fn long_name() {\n}");
}

#[test]
fn expanded_record_literal_gets_no_trailing_comma() {
    let input = "fn f() {\n    let s = Settings { alpha: 1, beta: 2, gamma: 3, delta: 4, epsilon: 5, zeta: 6 };\n}\n";
    let out = format_source_with_config(input, &with_max(60));
    assert!(out.contains("zeta: 6\n"));
}
