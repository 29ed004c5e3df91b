use rust_formatter::config::Config;
use rust_formatter::formatter::format_source;
use rust_formatter::formatter::format_source_with_config;
use rust_formatter::formatter::leading_whitespace;
use rust_formatter::pass::blank_line::collapse_blank_lines;
use rust_formatter::pass::blank_line::ensure_trailing_newline;
use rust_formatter::pass::derive::sort_derive_args;
use rust_formatter::pass::derive::sorted_derive;
use rust_formatter::pass::doc_comment::doc_comment_lines;
use rust_formatter::pass::doc_comment::format_doc_comments;
use rust_formatter::pass::edit::apply_all;
use rust_formatter::pass::edit::apply_one;
use rust_formatter::pass::edit::sort_edits_desc;
use rust_formatter::pass::edit::Edit;
use rust_formatter::pass::import::hoist_late_imports;
use rust_formatter::pass::import::sort_and_group_imports;
use rust_formatter::pass::section_header::format_section_headers;
use rust_formatter::pass::section_header::is_section_border;
use rust_formatter::pass::section_header::is_section_middle;
use rust_formatter::pass::chain::reformat_chains;
use rust_formatter::pass::line_length::expand_long_inline_blocks;
use rust_formatter::pass::whitespace::format_whitespace;
use rust_formatter::text::sort_strs_vec;

fn v(s: &str) -> Vec<char> {
    s.chars().collect()
}

fn st(v: &[char]) -> String {
    v.iter().collect()
}

// Whitespace and indentation

#[test]
fn spacing_normalized() {
    assert_eq!(format_source("fn main(){let x=1;}"), "fn main() { let x = 1; }\n");
}

#[test]
fn whitespace_pass_changes_spacing() {
    let c = Config::default();
    assert_eq!(st(&format_whitespace(&v("fn  f ( a:u8 ){ }"), &c)), "fn f(a: u8) {}");
}

#[test]
fn tabs_become_spaces() {
    assert_eq!(format_source("fn f() {\n\tlet x = 1;\n}"), "fn f() {\n    let x = 1;\n}\n");
}

#[test]
fn indent_width_two() {
    let mut c = Config::default();
    c.indent_width = 2;
    assert_eq!(format_source_with_config("fn f() {\nlet x = 1;\n}\n", &c), "fn f() {\n  let x = 1;\n}\n");
}

#[test]
fn leading_blank_lines_dropped() {
    assert_eq!(format_source("\n\n  fn main() {\n}\n"), "fn main() {\n}\n");
}

#[test]
fn line_breaks_preserved() {
    let input = "fn f() {\n    let a = 1;\n\n    let b = 2;\n}\n";
    assert_eq!(format_source(input), input);
}

#[test]
fn multiline_string_reindented() {
    let input = "fn f() {\n        let s = \"first\n              second\n                third\n       \";\n}\n";
    let expected = "fn f() {\n    let s = \"first\n        second\n          third\n    \";\n}\n";
    assert_eq!(format_source(input), expected);
}

#[test]
fn empty_input_gets_newline() {
    assert_eq!(format_source(""), "\n");
}

#[test]
fn whitespace_only_input() {
    assert_eq!(format_source("   \n\n"), "\n");
}

#[test]
fn unbalanced_input_still_formatted() {
    assert_eq!(format_source("fn main( {\n"), "fn main({\n");
}

#[test]
fn formatting_is_stable_on_formatted_text() {
    let input = "use std::io;\n\n// ==========\n// === Main ===\n// ==========\n\nfn main() {\n    let v = vec![1, 2, 3];\n    for x in v.iter() {\n        println!(\"{}\", x);\n    }\n}\n";
    let once = format_source(input);
    assert_eq!(format_source(&once), once);
}

#[test]
fn all_options_off_only_fixes_whitespace() {
    let mut c = Config::default();
    c.sort_derives = false;
    c.sort_imports = false;
    c.hoist_imports = false;
    c.reflow_doc_comments = false;
    c.format_section_headers = false;
    c.collapse_blank_lines = false;
    c.reformat_chains = false;
    c.enforce_line_length = false;
    let input = "fn a(){}\n\n\n\nfn b() {}";
    assert_eq!(format_source_with_config(input, &c), "fn a() {}\n\n\n\nfn b() {}\n");
}

#[test]
fn output_always_ends_with_newline() {
    for input in ["", "x", "fn f() {}", "// c", "\n", "fn f() {}\n\n\n"] {
        let out = format_source(input);
        assert!(out.ends_with('\n'));
    }
}

#[test]
fn leading_whitespace_prefix() {
    assert_eq!(st(&leading_whitespace(&v("  \tx y"))), "  \t");
    assert_eq!(st(&leading_whitespace(&v("x"))), "");
}

// Trailing newline

#[test]
fn trailing_newline_added_once() {
    assert_eq!(st(&ensure_trailing_newline(v("abc"))), "abc\n");
    assert_eq!(st(&ensure_trailing_newline(v("abc\n"))), "abc\n");
    let once = ensure_trailing_newline(v(""));
    assert_eq!(st(&once), "\n");
    assert_eq!(st(&ensure_trailing_newline(once)), "\n");
}

// Blank lines

#[test]
fn blank_runs_collapsed_except_before_border() {
    let out = collapse_blank_lines(&v("a\n\n\n\n// ====\nb\n\n\n"));
    assert_eq!(st(&out), "a\n\n\n// ====\nb\n");
}

#[test]
fn blank_lines_keep_content_lines() {
    let out = collapse_blank_lines(&v("\n\n x \n  \n\ny\n"));
    assert_eq!(st(&out), "\n x \n\ny\n");
}

// Section headers

#[test]
fn header_border_counts_bytes() {
    let out = format_section_headers(&v("// ====\n// === Café ===\n// ===="));
    assert_eq!(st(&out), "// =============\n// === Café ===\n// =============\n");
}

#[test]
fn header_keeps_indentation() {
    let out = format_section_headers(&v("    // ====\n    // === Name ===\n    // ====\n"));
    assert_eq!(st(&out), "    // ============\n    // === Name ===\n    // ============\n");
}

#[test]
fn header_gets_two_blank_lines_before_and_one_after() {
    let out = format_source("fn a() {}\n// ==========\n// === Config ===\n// ==========\nfn b() {}\n");
    assert_eq!(out, "fn a() {}\n\n\n// ==============\n// === Config ===\n// ==============\n\nfn b() {}\n");
}

#[test]
fn no_header_text_unchanged() {
    let text = "fn a() {}\n// === not a header ===\n";
    assert_eq!(st(&format_section_headers(&v(text))), text);
}

#[test]
fn section_line_shapes() {
    assert!(is_section_border(&v("// ====")));
    assert!(!is_section_border(&v("// ===")));
    assert!(!is_section_border(&v("// ==x=")));
    assert!(is_section_middle(&v("// === Name ===")));
    assert!(!is_section_middle(&v("// == Name ===")));
}

// Derives

#[test]
fn derive_text_sorted() {
    assert_eq!(sorted_derive(&v("#[derive(Debug, Clone)]")).map(|r| st(&r)), Some("#[derive(Clone, Debug)]".to_string()));
    assert_eq!(sorted_derive(&v("#[derive(B,A,)]")).map(|r| st(&r)), Some("#[derive(A, B)]".to_string()));
    assert_eq!(sorted_derive(&v("#[derive(Clone, Debug)]")), None);
    assert_eq!(sorted_derive(&v("#[cfg(test)]")), None);
}

#[test]
fn derive_pass_rewrites_attribute() {
    let out = sort_derive_args(&v("#[derive(PartialEq, Eq)]\nstruct S;\n"));
    assert_eq!(st(&out), "#[derive(Eq, PartialEq)]\nstruct S;\n");
}

#[test]
fn sort_strings_sorted_and_complete() {
    let input: Vec<Vec<char>> = vec![v("b"), v("a"), v("c"), v("a"), v("")];
    let out: Vec<String> = sort_strs_vec(&input).iter().map(|x| st(x)).collect();
    assert_eq!(out, vec!["", "a", "a", "b", "c"]);
}

// Imports

#[test]
fn imports_grouped_sorted_deduplicated() {
    let input = "mod b;\nuse std::io;\nuse crate::a::*;\npub use crate::x::Y;\nmod a;\nuse std::io;\n\nfn main() {}\n";
    let expected = "mod a;\nmod b;\n\nuse crate::a::*;\n\nuse std::io;\n\npub use crate::x::Y;\n\nfn main() {}\n";
    assert_eq!(format_source(input), expected);
}

#[test]
fn import_pass_flattens_lists() {
    let out = sort_and_group_imports(&v("use a::{c, b::{d, e}};\n"));
    assert_eq!(st(&out), "use a::b::d;\nuse a::b::e;\nuse a::c;\n");
}

#[test]
fn hoist_pass_moves_late_use() {
    let out = hoist_late_imports(&v("use a;\nfn f() {}\nuse b;\n"));
    assert_eq!(st(&out), "use a;\nuse b;\nfn f() {}\n");
}

#[test]
fn hoist_pass_without_late_use_unchanged() {
    let text = "use a;\nfn f() {}\n";
    assert_eq!(st(&hoist_late_imports(&v(text))), text);
}

// Doc comments

#[test]
fn doc_lines_from_rendered_text() {
    let out = doc_comment_lines(&v("    "), &v("///"), &v("First line.\n\nSecond.\n"));
    let lines: Vec<String> = out.iter().map(|l| st(l)).collect();
    assert_eq!(lines, vec!["    /// First line.", "    ///", "    /// Second."]);
}

#[test]
fn doc_comments_joined_by_renderer() {
    let out = format_source("/// Short line one.\n/// Short line two.\nfn f() {}\n");
    assert_eq!(out, "/// Short line one. Short line two.\nfn f() {}\n");
}

#[test]
fn inner_doc_list_rendered() {
    let out = format_source("//! Crate docs that are short.\n//!\n//! * item one\n//! * item two\n");
    assert_eq!(out, "//! Crate docs that are short.\n//!\n//! - item one\n//! - item two\n");
}

#[test]
fn doc_comment_indented_block() {
    let out = format_source("impl A {\n    /// Doc    with   spaces.\n    fn f() {}\n}\n");
    assert_eq!(out, "impl A {\n    /// Doc with spaces.\n    fn f() {}\n}\n");
}

#[test]
fn doc_block_kept_when_too_narrow() {
    let mut c = Config::default();
    c.max_line_length = 20;
    let text = "/// a    b\n/// c";
    assert_eq!(st(&format_doc_comments(&v(text), &c)), text);
}

// Edits

#[test]
fn edit_applied_and_invalid_range_ignored() {
    let e = Edit { start: 1, end: 3, text: v("XY") };
    assert_eq!(st(&apply_one(&v("abcd"), &e)), "aXYd");
    let bad = Edit { start: 3, end: 9, text: v("Z") };
    assert_eq!(st(&apply_one(&v("abcd"), &bad)), "abcd");
}

#[test]
fn edits_applied_from_the_end() {
    let es = vec![Edit { start: 0, end: 1, text: v("A") }, Edit { start: 2, end: 3, text: v("CC") }];
    let sorted = sort_edits_desc(es);
    assert_eq!(sorted[0].start, 2);
    assert_eq!(st(&apply_all(&v("abc"), &sorted)), "AbCC");
}

// Config

#[test]
fn config_defaults() {
    let c = Config::default();
    assert_eq!(c.max_line_length, 120);
    assert_eq!(c.indent_width, 4);
    assert!(c.sort_derives && c.sort_imports && c.hoist_imports && c.reflow_doc_comments);
    assert!(c.format_section_headers && c.collapse_blank_lines && c.reformat_chains && c.enforce_line_length);
}

#[test]
fn indent_str_is_indent_width_spaces() {
    let mut c = Config::default();
    assert_eq!(c.indent_str(), "    ");
    c.indent_width = 2;
    assert_eq!(c.indent_str(), "  ");
    c.indent_width = 0;
    assert_eq!(c.indent_str(), "");
}

// Line breaks and chains

#[test]
fn open_block_comment_loses_trailing_breaks() {
    let c = Config::default();
    assert_eq!(st(&format_whitespace(&v("fn f() {}\n/* open\n\n"), &c)), "fn f() {}\n/* open");
}

#[test]
fn chain_field_access_not_broken() {
    let mut c = Config::default();
    c.max_line_length = 40;
    let input = "fn f() {\n    let v = self.first_field.second_field.third_field.method_call();\n}\n";
    let out = st(&reformat_chains(&v(input), &c));
    assert_eq!(out, "fn f() {\n    let v = self.first_field.second_field.third_field\n        .method_call();\n}\n");
}

#[test]
fn expansion_only_adds_line_breaks() {
    let mut c = Config::default();
    c.max_line_length = 20;
    let input = "fn f(a: u8, b: u8) {}\n";
    let out = st(&expand_long_inline_blocks(&v(input), &c));
    assert_eq!(out, "fn f(\na: u8,\nb: u8,\n) {}\n");
    let strip = |s: &str| s.chars().filter(|ch| !ch.is_whitespace() && *ch != ',').collect::<String>();
    assert_eq!(strip(&out), strip(input));
}

#[test]
fn doc_reflow_keeps_code_lines() {
    let out = format_source("fn a() {}\n/// x   y\nfn b() {}\n");
    assert_eq!(out, "fn a() {}\n/// x y\nfn b() {}\n");
}

#[test]
fn collapsing_twice_changes_nothing() {
    let once = collapse_blank_lines(&v("a\n \n\t\n\n// ====\n\n\n\nb\n  \n"));
    assert_eq!(st(&once), "a\n\n\n// ====\n\nb\n");
    assert_eq!(collapse_blank_lines(&once), once);
}

#[test]
fn whitespace_pass_changes_only_layout() {
    let c = Config::default();
    let input = "fn f( a:u8 ){\n        let s = \"x\n              y  z\n       \";   // note   \n  g( a ,1 );\n}\n";
    let out = st(&format_whitespace(&v(input), &c));
    let strip = |s: &str| s.chars().filter(|ch| !ch.is_whitespace()).collect::<String>();
    assert_eq!(strip(&out), strip(input));
    assert_ne!(out, input);
}
