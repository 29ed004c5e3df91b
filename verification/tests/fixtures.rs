use rust_formatter::formatter::format_source;

#[test]
fn chain_closure_body_indent() {
    let text = "fn init(app: u32) {\n    web_document\n        .with_element_by_id(\"gl-root\", |root| {\n            let root_html = root.dyn_as_html_element()\n                .expect(\"msg\");\n            app.mount_to(root_html).warn();\n        })\n        .warn();\n}\n";
    assert_eq!(format_source(text), text);
}

#[test]
fn chain_preserve_break_after_multiline_closure() {
    let text = "fn f() {\n    let result = items\n        .flat_map(|n| {\n            vec![n, n + 1]\n                .into_iter()\n                .filter(|x| x > &0)\n        })\n        .enumerate()\n        .collect::<Vec<_>>();\n}\n";
    assert_eq!(format_source(text), text);
}

#[test]
fn collapse_brace_to_prev_line() {
    let text = "fn f() {\n    if let Some(x) = foo()\n    && let Some(y) = bar() {\n        use_both(x, y);\n    }\n}\n";
    assert_eq!(format_source(text), text);
}

#[test]
fn macro_arrows() {
    let text = "macro_rules! m {\n    () => {\n        fn f() -> i32 {\n            match x {\n                1 => 2,\n            }\n        }\n    }\n}\n";
    assert_eq!(format_source(text), text);
}

#[test]
fn macro_pattern_spacing() {
    let text = "macro_rules! m {\n    (\n        $(#$meta:tt)*\n        pub enum $enum:ident { $(\n            $variant:ident\n            $({ $($field:ident: $field_ty:ty),*$(,)? })?\n        ),*$(,)? }\n    ) => {}\n}\n";
    assert_eq!(format_source(text), text);
}

#[test]
fn macro_repetition_space_before_brace() {
    let text = "macro_rules! m {\n    () => {\n        pub enum Tag { $($variant),* }\n    }\n}\n";
    assert_eq!(format_source(text), text);
}

#[test]
fn indent_fn_params_multiline() {
    let input = "fn push_values(\n&mut self,\ninput: &[i32],\noutput: &mut [i32],\n) {\n    for i in 0..input.len() {\n        output[i] = input[i];\n    }\n}\n";
    let expected = "fn push_values(\n    &mut self,\n    input: &[i32],\n    output: &mut [i32],\n) {\n    for i in 0..input.len() {\n        output[i] = input[i];\n    }\n}\n";
    assert_eq!(format_source(input), expected);
}

#[test]
fn expand_long_inline_if_else() {
    let input = "fn f() {\n    fn g() {\n        fn h() {\n            fn i() {\n                fn j() {\n                    fn k() {\n                        fn l() {\n                            fn m() {\n                                let long_result = if is_empty { default_value } else { compute_long_alternative_value() };\n                            }\n                        }\n                    }\n                }\n            }\n        }\n    }\n}\n";
    let expected = "fn f() {\n    fn g() {\n        fn h() {\n            fn i() {\n                fn j() {\n                    fn k() {\n                        fn l() {\n                            fn m() {\n                                let long_result = if is_empty {\n                                    default_value\n                                } else {\n                                    compute_long_alternative_value()\n                                };\n                            }\n                        }\n                    }\n                }\n            }\n        }\n    }\n}\n";
    assert_eq!(format_source(input), expected);
}
