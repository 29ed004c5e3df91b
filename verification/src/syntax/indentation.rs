use vstd::prelude::*;

use crate::syntax::kind::ASSOC_ITEM_LIST;
use crate::syntax::kind::AWAIT_EXPR;
use crate::syntax::kind::DOLLAR;
use crate::syntax::kind::DOT;
use crate::syntax::kind::EXTERN_ITEM_LIST;
use crate::syntax::kind::FIELD_EXPR;
use crate::syntax::kind::ITEM_LIST;
use crate::syntax::kind::L_BRACK;
use crate::syntax::kind::L_CURLY;
use crate::syntax::kind::L_PAREN;
use crate::syntax::kind::MATCH_ARM_LIST;
use crate::syntax::kind::METHOD_CALL_EXPR;
use crate::syntax::kind::PARAM_LIST;
use crate::syntax::kind::RECORD_EXPR_FIELD_LIST;
use crate::syntax::kind::RECORD_FIELD_LIST;
use crate::syntax::kind::RECORD_PAT_FIELD_LIST;
use crate::syntax::kind::R_BRACK;
use crate::syntax::kind::R_CURLY;
use crate::syntax::kind::R_PAREN;
use crate::syntax::kind::STMT_LIST;
use crate::syntax::kind::TOKEN_TREE;
use crate::syntax::kind::USE_TREE_LIST;
use crate::syntax::kind::VARIANT_LIST;
use crate::syntax::kind::WHITESPACE;
use crate::syntax::nav::find_child;
use crate::syntax::nav::find_child_kind;
use crate::syntax::nav::first_child_node;
use crate::syntax::nav::first_child_node_of;
use crate::syntax::nav::kind_at;
use crate::syntax::nav::parent_of;
use crate::syntax::tree::Cst;
use crate::syntax::tree::TreeV;
use crate::syntax::tree::shape_elem;
use crate::syntax::tree::shape_ok;
use crate::text::contains_char;
use crate::text::contains_char_vec;
use crate::text::push_all;

verus! {

// ============================
// === compute_indent_level ===
// ============================

/// Nodes whose contents are indented one level.
pub open spec fn is_indenting_kind(k: u16) -> bool {
    ||| k == STMT_LIST
    ||| k == ITEM_LIST
    ||| k == ASSOC_ITEM_LIST
    ||| k == MATCH_ARM_LIST
    ||| k == RECORD_FIELD_LIST
    ||| k == RECORD_EXPR_FIELD_LIST
    ||| k == RECORD_PAT_FIELD_LIST
    ||| k == VARIANT_LIST
    ||| k == USE_TREE_LIST
    ||| k == EXTERN_ITEM_LIST
    ||| k == PARAM_LIST
}

fn is_indenting_kind_exec(k: u16) -> (b: bool)
    ensures
        b == is_indenting_kind(k),
{
    k == STMT_LIST || k == ITEM_LIST || k == ASSOC_ITEM_LIST || k == MATCH_ARM_LIST || k
        == RECORD_FIELD_LIST || k == RECORD_EXPR_FIELD_LIST || k == RECORD_PAT_FIELD_LIST || k
        == VARIANT_LIST || k == USE_TREE_LIST || k == EXTERN_ITEM_LIST || k == PARAM_LIST
}

pub open spec fn is_delim_kind(k: u16) -> bool {
    k == L_CURLY || k == R_CURLY || k == L_BRACK || k == R_BRACK || k == L_PAREN || k == R_PAREN
}

/// The token is one of the node's own brackets.
pub open spec fn is_delimiter_of(tv: TreeV, node: int, tok: int) -> bool {
    parent_of(tv, tok) == node && is_delim_kind(kind_at(tv, tok))
}

/// The node is a token tree that follows `$` (a macro repetition `$( .. )`).
pub open spec fn is_macro_repetition(tv: TreeV, node: int) -> bool {
    match tv.elems[node].prev_sib {
        Some(p) => kind_at(tv, p as int) == DOLLAR || (kind_at(tv, p as int) == WHITESPACE
            && match tv.elems[p as int].prev_sib {
            Some(pp) => kind_at(tv, pp as int) == DOLLAR,
            None => false,
        }),
        None => false,
    }
}

/// The ancestor `node` of `tok` adds a level of indentation to it.
pub open spec fn is_indent_node(tv: TreeV, node: int, tok: int) -> bool {
    let k = kind_at(tv, node);
    if is_indenting_kind(k) {
        !is_delimiter_of(tv, node, tok)
    } else if k == TOKEN_TREE {
        !is_macro_repetition(tv, node) && !is_delimiter_of(tv, node, tok)
    } else {
        false
    }
}

/// How many of `a` and its ancestors indent `tok`.
pub open spec fn indent_count_from(tv: TreeV, tok: int, a: int) -> nat
    decreases a + 1,
{
    if a < 0 || a >= tv.elems.len() {
        0
    } else {
        let here: nat = if is_indent_node(tv, a, tok) {
            1
        } else {
            0
        };
        if a == 0 || tv.elems[a].parent >= a {
            here
        } else {
            here + indent_count_from(tv, tok, tv.elems[a].parent as int)
        }
    }
}

pub open spec fn is_macro_repetition_delimiter(tv: TreeV, tok: int) -> bool {
    &&& (kind_at(tv, tok) == R_PAREN || kind_at(tv, tok) == L_PAREN)
    &&& kind_at(tv, parent_of(tv, tok)) == TOKEN_TREE
    &&& is_macro_repetition(tv, parent_of(tv, tok))
}

/// The indentation level of a token: its indenting ancestors, one less for the brackets of
/// a macro repetition.
pub open spec fn indent_level(tv: TreeV, tok: int) -> nat {
    let c = indent_count_from(tv, tok, parent_of(tv, tok));
    if is_macro_repetition_delimiter(tv, tok) && c > 0 {
        (c - 1) as nat
    } else {
        c
    }
}

pub open spec fn tok_in(tv: TreeV, i: int) -> bool {
    shape_ok(tv) && 1 <= i < tv.elems.len()
}

fn is_macro_repetition_exec(t: &Cst, node: usize) -> (b: bool)
    requires
        shape_ok(t@),
        node < t.elems@.len(),
    ensures
        b == is_macro_repetition(t@, node as int),
{
    if node > 0 {
        assert(shape_elem(t@, node as int));
    }
    match t.elems[node].prev_sib {
        Some(p) => {
            assert(p < node);
            if t.elems[p].kind == DOLLAR {
                true
            } else if t.elems[p].kind == WHITESPACE {
                if p > 0 {
                    assert(shape_elem(t@, p as int));
                }
                match t.elems[p].prev_sib {
                    Some(pp) => t.elems[pp].kind == DOLLAR,
                    None => false,
                }
            } else {
                false
            }
        },
        None => false,
    }
}

fn is_indent_node_exec(t: &Cst, node: usize, tok: usize) -> (b: bool)
    requires
        shape_ok(t@),
        node < t.elems@.len(),
        tok_in(t@, tok as int),
    ensures
        b == is_indent_node(t@, node as int, tok as int),
{
    let k = t.elems[node].kind;
    let is_delim = t.elems[tok].parent == node && (t.elems[tok].kind == L_CURLY
        || t.elems[tok].kind == R_CURLY || t.elems[tok].kind == L_BRACK || t.elems[tok].kind
        == R_BRACK || t.elems[tok].kind == L_PAREN || t.elems[tok].kind == R_PAREN);
    if is_indenting_kind_exec(k) {
        !is_delim
    } else if k == TOKEN_TREE {
        !is_macro_repetition_exec(t, node) && !is_delim
    } else {
        false
    }
}

/// The indentation level of a token: the indenting nodes that enclose it.
pub fn compute_indent_level(t: &Cst, tok: usize) -> (level: usize)
    requires
        tok_in(t@, tok as int),
    ensures
        level == indent_level(t@, tok as int),
        level <= tok,
{
    assert(shape_elem(t@, tok as int));
    let p = t.elems[tok].parent;
    let mut a = p;
    let mut level: usize = 0;
    loop
        invariant_except_break
            tok_in(t@, tok as int),
            a <= p < tok,
            level + indent_count_from(t@, tok as int, a as int) == indent_count_from(
                t@,
                tok as int,
                p as int,
            ),
            level + a <= p,
        ensures
            level == indent_count_from(t@, tok as int, p as int),
            level <= p + 1,
        decreases a,
    {
        if a > 0 {
            assert(shape_elem(t@, a as int));
        }
        if is_indent_node_exec(t, a, tok) {
            level = level + 1;
        }
        if a == 0 {
            break ;
        }
        a = t.elems[a].parent;
    }
    let rep_delim = (t.elems[tok].kind == R_PAREN || t.elems[tok].kind == L_PAREN)
        && t.elems[p].kind == TOKEN_TREE && is_macro_repetition_exec(t, p);
    if rep_delim && level > 0 {
        level - 1
    } else {
        level
    }
}

// ====================================
// === count_continuation_ancestors ===
// ====================================

/// The node's own `.` is the first thing on a new line.
pub open spec fn has_continuation_dot(tv: TreeV, node: int) -> bool {
    match find_child(tv, node, DOT) {
        Some(d) => match tv.elems[d].prev_sib {
            Some(p) => kind_at(tv, p as int) == WHITESPACE && contains_char(
                tv.texts[p as int],
                '\n',
            ),
            None => false,
        },
        None => false,
    }
}

pub open spec fn is_chain_kind(k: u16) -> bool {
    k == METHOD_CALL_EXPR || k == FIELD_EXPR || k == AWAIT_EXPR
}

/// Among `cur` and its ancestors (reached from child `prev`), the chain links that `tok`
/// is not the receiver of and whose `.` starts a line.
pub open spec fn cont_count_from(tv: TreeV, prev: int, cur: int) -> nat
    decreases cur + 1,
{
    if cur < 0 || cur >= tv.elems.len() {
        0
    } else {
        let here: nat = if is_chain_kind(kind_at(tv, cur)) && first_child_node(tv, cur) != Some(
            prev,
        ) && has_continuation_dot(tv, cur) {
            1
        } else {
            0
        };
        if cur == 0 || tv.elems[cur].parent >= cur {
            here
        } else {
            here + cont_count_from(tv, cur, tv.elems[cur].parent as int)
        }
    }
}

/// `count_continuation_ancestors`: the extra indentation of a token inside broken chains.
pub open spec fn continuation_count(tv: TreeV, tok: int) -> nat {
    let p = parent_of(tv, tok);
    if p == 0 {
        0
    } else {
        cont_count_from(tv, p, parent_of(tv, p))
    }
}

fn has_continuation_dot_exec(t: &Cst, node: usize) -> (b: bool)
    requires
        shape_ok(t@),
        node < t.elems@.len(),
    ensures
        b == has_continuation_dot(t@, node as int),
{
    if node > 0 {
        assert(shape_elem(t@, node as int));
        assert(t.elems@[node as int].end <= t.elems@[t.elems@[node as int].parent as int].end);
        assert(t.elems@[t.elems@[node as int].parent as int].end <= t.elems@.len()) by {
            let pp = t.elems@[node as int].parent as int;
            if pp > 0 {
                assert(shape_elem(t@, pp));
            }
            lemma_end_bounded(t@, pp);
        }
    }
    match find_child_kind(t, node, DOT) {
        Some(d) => {
            assert(shape_elem(t@, d as int));
            match t.elems[d].prev_sib {
                Some(p) => t.elems[p].kind == WHITESPACE && contains_char_vec(&t.texts[p], '\n'),
                None => false,
            }
        },
        None => false,
    }
}

pub proof fn lemma_end_bounded(tv: TreeV, i: int)
    requires
        shape_ok(tv),
        0 <= i < tv.elems.len(),
    ensures
        tv.elems[i].end <= tv.elems.len(),
    decreases i,
{
    if i > 0 {
        assert(shape_elem(tv, i));
        lemma_end_bounded(tv, tv.elems[i].parent as int);
    }
}

/// The broken chain links around a token that each add a level of indentation.
pub fn count_continuation_ancestors(t: &Cst, tok: usize) -> (c: usize)
    requires
        tok_in(t@, tok as int),
    ensures
        c == continuation_count(t@, tok as int),
        c <= tok,
{
    assert(shape_elem(t@, tok as int));
    let p = t.elems[tok].parent;
    if p == 0 {
        return 0;
    }
    assert(shape_elem(t@, p as int));
    let mut prev = p;
    let mut cur = t.elems[p].parent;
    let ghost start = cur;
    let mut count: usize = 0;
    loop
        invariant_except_break
            tok_in(t@, tok as int),
            0 < p < tok,
            start == t.elems@[p as int].parent,
            cur <= start < p,
            count + cont_count_from(t@, prev as int, cur as int) == cont_count_from(
                t@,
                p as int,
                start as int,
            ),
            count + cur <= start,
            prev < t.elems@.len(),
        ensures
            count == cont_count_from(t@, p as int, start as int),
            count <= start + 1,
        decreases cur,
    {
        if cur > 0 {
            assert(shape_elem(t@, cur as int));
        }
        proof {
            lemma_end_bounded(t@, cur as int);
        }
        let k = t.elems[cur].kind;
        if k == METHOD_CALL_EXPR || k == FIELD_EXPR || k == AWAIT_EXPR {
            let came_from_receiver = match first_child_node_of(t, cur) {
                Some(fc) => fc == prev,
                None => false,
            };
            if !came_from_receiver && has_continuation_dot_exec(t, cur) {
                count = count + 1;
            }
        }
        if cur == 0 {
            break ;
        }
        prev = cur;
        cur = t.elems[cur].parent;
    }
    count
}

// ===============================
// === emit_newline_whitespace ===
// ===============================

/// `s` repeated `n` times.
pub open spec fn repeat_seq(s: Seq<char>, n: nat) -> Seq<char>
    decreases n,
{
    if n == 0 {
        Seq::empty()
    } else {
        repeat_seq(s, (n - 1) as nat) + s
    }
}

/// The indentation of a token that starts a line: its level, one more for a leading `.`,
/// plus the broken chain links around it.
pub open spec fn line_start_level(tv: TreeV, tok: int) -> nat {
    indent_level(tv, tok) + (if kind_at(tv, tok) == DOT {
        1nat
    } else {
        0nat
    }) + continuation_count(tv, tok)
}

/// Appends `n` copies of `s`.
pub fn push_repeat(out: &mut Vec<char>, s: &Vec<char>, n: u128)
    ensures
        final(out)@ == old(out)@ + repeat_seq(s@, n as nat),
{
    let mut k: u128 = 0;
    while k < n
        invariant
            k <= n,
            out@ == old(out)@ + repeat_seq(s@, k as nat),
        decreases n - k,
    {
        push_all(out, s.as_slice());
        k = k + 1;
        assert(old(out)@ + repeat_seq(s@, k as nat) =~= old(out)@ + repeat_seq(
            s@,
            (k - 1) as nat,
        ) + s@);
    }
}

/// Pushes the indentation for a line that starts with token `next`.
pub fn emit_indent(out: &mut Vec<char>, t: &Cst, next: usize, indent: &Vec<char>)
    requires
        tok_in(t@, next as int),
    ensures
        final(out)@ == old(out)@ + repeat_seq(indent@, line_start_level(t@, next as int)),
{
    let a = compute_indent_level(t, next);
    let b: usize = if t.elems[next].kind == DOT {
        1
    } else {
        0
    };
    let c = count_continuation_ancestors(t, next);
    let level: u128 = a as u128 + b as u128 + c as u128;
    push_repeat(out, indent, level);
}

} // verus!
