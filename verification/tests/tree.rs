use rust_formatter::config::Config;
use rust_formatter::pass::whitespace::format_tokens;
use rust_formatter::syntax::nav::token_indices;
use rust_formatter::syntax::tree::parse_cst;
use rust_formatter::syntax::tree::tree_from_walk;
use rust_formatter::syntax::tree::WalkStep;

fn v(s: &str) -> Vec<char> {
    s.chars().collect()
}

fn step(enter: bool, kind: u16, is_token: bool, text: &str) -> WalkStep {
    WalkStep { enter, kind, is_token, text: text.to_string() }
}

fn sample_walk() -> Vec<WalkStep> {
    vec![
        step(true, 7, false, ""),
        step(true, 1, true, "ab"),
        step(false, 1, true, "ab"),
        step(true, 2, true, " "),
        step(false, 2, true, " "),
        step(false, 7, false, ""),
    ]
}

#[test]
fn walk_builds_tree() {
    let t = tree_from_walk(&sample_walk(), &v("ab ")).expect("well-formed walk");
    assert_eq!(t.elems.len(), 3);
    assert_eq!(t.elems[0].end, 3);
    assert_eq!((t.elems[1].lo, t.elems[1].hi), (0, 2));
    assert_eq!((t.elems[2].lo, t.elems[2].hi), (2, 3));
    assert_eq!(t.elems[2].parent, 0);
    assert_eq!(t.elems[2].prev_sib, Some(1));
    assert_eq!(t.texts[1], v("ab"));
}

#[test]
fn walk_with_wrong_text_refused() {
    assert!(tree_from_walk(&sample_walk(), &v("ac ")).is_none());
}

#[test]
fn walk_shorter_than_source_refused() {
    assert!(tree_from_walk(&sample_walk(), &v("ab  ")).is_none());
}

#[test]
fn unbalanced_walk_refused() {
    let mut w = sample_walk();
    w.pop();
    assert!(tree_from_walk(&w, &v("ab ")).is_none());
}

#[test]
fn parser_tree_spells_out_source() {
    let src = v("fn main() { let x = 1; }\n");
    let t = parse_cst(&src).expect("parses");
    let mut joined: Vec<char> = Vec::new();
    for (e, text) in t.elems.iter().zip(t.texts.iter()) {
        if e.is_token {
            joined.extend(text.iter());
        }
    }
    assert_eq!(joined, src);
    assert!(t.elems.len() > 10);
}

#[test]
fn tokens_of_given_tree_written_out() {
    let src = v("fn  f(){}");
    let t = parse_cst(&src).expect("parses");
    let toks = token_indices(&t);
    let out: String = format_tokens(&t, &toks, &Config::default()).iter().collect();
    assert_eq!(out, "fn f() {}");
}
