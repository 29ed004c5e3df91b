use vstd::prelude::*;

use crate::syntax::kind::AMP;
use crate::syntax::kind::AMP2;
use crate::syntax::kind::AMPEQ;
use crate::syntax::kind::ASYNC_KW;
use crate::syntax::kind::AS_KW;
use crate::syntax::kind::AT;
use crate::syntax::kind::AUTO_KW;
use crate::syntax::kind::AWAIT_KW;
use crate::syntax::kind::BANG;
use crate::syntax::kind::BOX_KW;
use crate::syntax::kind::BREAK_KW;
use crate::syntax::kind::BYTE;
use crate::syntax::kind::BYTE_STRING;
use crate::syntax::kind::CARET;
use crate::syntax::kind::CARETEQ;
use crate::syntax::kind::CHAR;
use crate::syntax::kind::COLON;
use crate::syntax::kind::COLON2;
use crate::syntax::kind::COMMA;
use crate::syntax::kind::COMMENT;
use crate::syntax::kind::CONST_KW;
use crate::syntax::kind::CONTINUE_KW;
use crate::syntax::kind::CRATE_KW;
use crate::syntax::kind::C_STRING;
use crate::syntax::kind::DEFAULT_KW;
use crate::syntax::kind::DOLLAR;
use crate::syntax::kind::DOT;
use crate::syntax::kind::DOT2;
use crate::syntax::kind::DOT2EQ;
use crate::syntax::kind::DOT3;
use crate::syntax::kind::DYN_KW;
use crate::syntax::kind::ELSE_KW;
use crate::syntax::kind::ENUM_KW;
use crate::syntax::kind::EQ;
use crate::syntax::kind::EQ2;
use crate::syntax::kind::EXTERN_KW;
use crate::syntax::kind::FALSE_KW;
use crate::syntax::kind::FAT_ARROW;
use crate::syntax::kind::FLOAT_NUMBER;
use crate::syntax::kind::FN_KW;
use crate::syntax::kind::FN_PTR_TYPE;
use crate::syntax::kind::FOR_KW;
use crate::syntax::kind::GENERIC_ARG_LIST;
use crate::syntax::kind::GENERIC_PARAM_LIST;
use crate::syntax::kind::GTEQ;
use crate::syntax::kind::IDENT;
use crate::syntax::kind::IF_KW;
use crate::syntax::kind::IMPL_KW;
use crate::syntax::kind::INT_NUMBER;
use crate::syntax::kind::IN_KW;
use crate::syntax::kind::LET_KW;
use crate::syntax::kind::LIFETIME_IDENT;
use crate::syntax::kind::LOOP_KW;
use crate::syntax::kind::LTEQ;
use crate::syntax::kind::L_ANGLE;
use crate::syntax::kind::L_BRACK;
use crate::syntax::kind::L_CURLY;
use crate::syntax::kind::L_PAREN;
use crate::syntax::kind::MACRO_KW;
use crate::syntax::kind::MATCH_KW;
use crate::syntax::kind::MINUS;
use crate::syntax::kind::MINUSEQ;
use crate::syntax::kind::MOD_KW;
use crate::syntax::kind::MOVE_KW;
use crate::syntax::kind::MUT_KW;
use crate::syntax::kind::NEQ;
use crate::syntax::kind::PARAM_LIST;
use crate::syntax::kind::PERCENT;
use crate::syntax::kind::PERCENTEQ;
use crate::syntax::kind::PIPE;
use crate::syntax::kind::PIPE2;
use crate::syntax::kind::PIPEEQ;
use crate::syntax::kind::PLUS;
use crate::syntax::kind::PLUSEQ;
use crate::syntax::kind::POUND;
use crate::syntax::kind::PREFIX_EXPR;
use crate::syntax::kind::PTR_TYPE;
use crate::syntax::kind::PUB_KW;
use crate::syntax::kind::QUESTION;
use crate::syntax::kind::REF_EXPR;
use crate::syntax::kind::REF_KW;
use crate::syntax::kind::REF_PAT;
use crate::syntax::kind::REF_TYPE;
use crate::syntax::kind::RETURN_KW;
use crate::syntax::kind::R_ANGLE;
use crate::syntax::kind::R_BRACK;
use crate::syntax::kind::R_CURLY;
use crate::syntax::kind::R_PAREN;
use crate::syntax::kind::SAFE_KW;
use crate::syntax::kind::SELF_KW;
use crate::syntax::kind::SELF_PARAM;
use crate::syntax::kind::SELF_TYPE_KW;
use crate::syntax::kind::SEMICOLON;
use crate::syntax::kind::SHL;
use crate::syntax::kind::SHLEQ;
use crate::syntax::kind::SHR;
use crate::syntax::kind::SHREQ;
use crate::syntax::kind::SLASH;
use crate::syntax::kind::SLASHEQ;
use crate::syntax::kind::STAR;
use crate::syntax::kind::STAREQ;
use crate::syntax::kind::STATIC_KW;
use crate::syntax::kind::STRING;
use crate::syntax::kind::STRUCT_KW;
use crate::syntax::kind::SUPER_KW;
use crate::syntax::kind::THIN_ARROW;
use crate::syntax::kind::TOKEN_TREE;
use crate::syntax::kind::TRAIT_KW;
use crate::syntax::kind::TRUE_KW;
use crate::syntax::kind::TYPE_ANCHOR;
use crate::syntax::kind::TYPE_BOUND_LIST;
use crate::syntax::kind::TYPE_KW;
use crate::syntax::kind::TYPE_PARAM;
use crate::syntax::kind::UNDERSCORE;
use crate::syntax::kind::UNION_KW;
use crate::syntax::kind::UNSAFE_KW;
use crate::syntax::kind::USE_KW;
use crate::syntax::kind::VISIBILITY;
use crate::syntax::kind::WHERE_KW;
use crate::syntax::kind::WHILE_KW;
use crate::syntax::kind::YIELD_KW;
use crate::syntax::nav::kind_at;
use crate::syntax::nav::next_token_at;
use crate::syntax::nav::next_token_from;
use crate::syntax::nav::parent_kind;
use crate::syntax::nav::prev_nonws;
use crate::syntax::nav::prev_nonws_at;
use crate::syntax::nav::prev_nonws_is;
use crate::syntax::nav::prev_nonws_kind_is;
use crate::syntax::tree::Cst;
use crate::syntax::tree::TreeV;
use crate::syntax::tree::shape_elem;
use crate::syntax::tree::shape_ok;

verus! {

// =================
// === Kind sets ===
// =================

/// Keywords that get a space around them.
pub open spec fn is_keyword_kind(k: u16) -> bool {
    ||| k == AS_KW
    ||| k == ASYNC_KW
    ||| k == AWAIT_KW
    ||| k == BOX_KW
    ||| k == BREAK_KW
    ||| k == CONST_KW
    ||| k == CONTINUE_KW
    ||| k == CRATE_KW
    ||| k == DYN_KW
    ||| k == ELSE_KW
    ||| k == ENUM_KW
    ||| k == EXTERN_KW
    ||| k == FALSE_KW
    ||| k == FN_KW
    ||| k == FOR_KW
    ||| k == IF_KW
    ||| k == IMPL_KW
    ||| k == IN_KW
    ||| k == LET_KW
    ||| k == LOOP_KW
    ||| k == MACRO_KW
    ||| k == MATCH_KW
    ||| k == MOD_KW
    ||| k == MOVE_KW
    ||| k == MUT_KW
    ||| k == PUB_KW
    ||| k == REF_KW
    ||| k == RETURN_KW
    ||| k == SELF_KW
    ||| k == SELF_TYPE_KW
    ||| k == STATIC_KW
    ||| k == STRUCT_KW
    ||| k == SUPER_KW
    ||| k == TRAIT_KW
    ||| k == TRUE_KW
    ||| k == TYPE_KW
    ||| k == UNSAFE_KW
    ||| k == USE_KW
    ||| k == WHERE_KW
    ||| k == WHILE_KW
    ||| k == YIELD_KW
    ||| k == AUTO_KW
    ||| k == DEFAULT_KW
    ||| k == SAFE_KW
    ||| k == UNION_KW
}

pub fn is_keyword_kind_exec(k: u16) -> (b: bool)
    ensures
        b == is_keyword_kind(k),
{
    k == AS_KW
        || k == ASYNC_KW
        || k == AWAIT_KW
        || k == BOX_KW
        || k == BREAK_KW
        || k == CONST_KW
        || k == CONTINUE_KW
        || k == CRATE_KW
        || k == DYN_KW
        || k == ELSE_KW
        || k == ENUM_KW
        || k == EXTERN_KW
        || k == FALSE_KW
        || k == FN_KW
        || k == FOR_KW
        || k == IF_KW
        || k == IMPL_KW
        || k == IN_KW
        || k == LET_KW
        || k == LOOP_KW
        || k == MACRO_KW
        || k == MATCH_KW
        || k == MOD_KW
        || k == MOVE_KW
        || k == MUT_KW
        || k == PUB_KW
        || k == REF_KW
        || k == RETURN_KW
        || k == SELF_KW
        || k == SELF_TYPE_KW
        || k == STATIC_KW
        || k == STRUCT_KW
        || k == SUPER_KW
        || k == TRAIT_KW
        || k == TRUE_KW
        || k == TYPE_KW
        || k == UNSAFE_KW
        || k == USE_KW
        || k == WHERE_KW
        || k == WHILE_KW
        || k == YIELD_KW
        || k == AUTO_KW
        || k == DEFAULT_KW
        || k == SAFE_KW
        || k == UNION_KW
}

/// Literal tokens (`SyntaxKind::is_literal`).
pub open spec fn is_literal_kind(k: u16) -> bool {
    ||| k == BYTE
    ||| k == BYTE_STRING
    ||| k == CHAR
    ||| k == C_STRING
    ||| k == FLOAT_NUMBER
    ||| k == INT_NUMBER
    ||| k == STRING
}

pub fn is_literal_kind_exec(k: u16) -> (b: bool)
    ensures
        b == is_literal_kind(k),
{
    k == BYTE
        || k == BYTE_STRING
        || k == CHAR
        || k == C_STRING
        || k == FLOAT_NUMBER
        || k == INT_NUMBER
        || k == STRING
}

/// Compound assignment operators.
pub open spec fn is_compound_assign(k: u16) -> bool {
    ||| k == PLUSEQ
    ||| k == MINUSEQ
    ||| k == STAREQ
    ||| k == SLASHEQ
    ||| k == PERCENTEQ
    ||| k == AMPEQ
    ||| k == PIPEEQ
    ||| k == CARETEQ
    ||| k == SHLEQ
    ||| k == SHREQ
}

pub fn is_compound_assign_exec(k: u16) -> (b: bool)
    ensures
        b == is_compound_assign(k),
{
    k == PLUSEQ
        || k == MINUSEQ
        || k == STAREQ
        || k == SLASHEQ
        || k == PERCENTEQ
        || k == AMPEQ
        || k == PIPEEQ
        || k == CARETEQ
        || k == SHLEQ
        || k == SHREQ
}

/// Arithmetic and bitwise operator tokens.
pub open spec fn is_binary_op_token(k: u16) -> bool {
    ||| k == PLUS
    ||| k == MINUS
    ||| k == STAR
    ||| k == SLASH
    ||| k == PERCENT
    ||| k == AMP
    ||| k == PIPE
    ||| k == CARET
}

pub fn is_binary_op_token_exec(k: u16) -> (b: bool)
    ensures
        b == is_binary_op_token(k),
{
    k == PLUS
        || k == MINUS
        || k == STAR
        || k == SLASH
        || k == PERCENT
        || k == AMP
        || k == PIPE
        || k == CARET
}

/// Tokens after which an operator inside a token tree is taken as unary.
pub open spec fn is_unary_context_kind(k: u16) -> bool {
    ||| k == L_PAREN
    ||| k == L_BRACK
    ||| k == L_CURLY
    ||| k == COMMA
    ||| k == SEMICOLON
    ||| k == EQ
    ||| k == COLON
    ||| k == FAT_ARROW
    ||| k == THIN_ARROW
    ||| k == BANG
    ||| k == PIPE
    ||| k == PLUSEQ
    ||| k == MINUSEQ
    ||| k == STAREQ
    ||| k == SLASHEQ
    ||| k == PERCENTEQ
    ||| k == AMPEQ
    ||| k == PIPEEQ
    ||| k == CARETEQ
    ||| k == SHLEQ
    ||| k == SHREQ
    ||| k == RETURN_KW
    ||| k == MOVE_KW
    ||| k == EQ2
    ||| k == NEQ
    ||| k == LTEQ
    ||| k == GTEQ
    ||| k == L_ANGLE
    ||| k == R_ANGLE
    ||| k == AMP2
    ||| k == PIPE2
    ||| k == PLUS
    ||| k == MINUS
    ||| k == STAR
    ||| k == SLASH
    ||| k == PERCENT
    ||| k == AMP
    ||| k == CARET
    ||| k == SHL
    ||| k == SHR
}

pub fn is_unary_context_kind_exec(k: u16) -> (b: bool)
    ensures
        b == is_unary_context_kind(k),
{
    k == L_PAREN
        || k == L_BRACK
        || k == L_CURLY
        || k == COMMA
        || k == SEMICOLON
        || k == EQ
        || k == COLON
        || k == FAT_ARROW
        || k == THIN_ARROW
        || k == BANG
        || k == PIPE
        || k == PLUSEQ
        || k == MINUSEQ
        || k == STAREQ
        || k == SLASHEQ
        || k == PERCENTEQ
        || k == AMPEQ
        || k == PIPEEQ
        || k == CARETEQ
        || k == SHLEQ
        || k == SHREQ
        || k == RETURN_KW
        || k == MOVE_KW
        || k == EQ2
        || k == NEQ
        || k == LTEQ
        || k == GTEQ
        || k == L_ANGLE
        || k == R_ANGLE
        || k == AMP2
        || k == PIPE2
        || k == PLUS
        || k == MINUS
        || k == STAR
        || k == SLASH
        || k == PERCENT
        || k == AMP
        || k == CARET
        || k == SHL
        || k == SHR
}

/// Nodes in which `-`, `*`, `&` and `!` are unary.
pub open spec fn is_unary_parent_kind(k: u16) -> bool {
    ||| k == PREFIX_EXPR
    ||| k == REF_EXPR
    ||| k == REF_PAT
    ||| k == REF_TYPE
    ||| k == PTR_TYPE
    ||| k == SELF_PARAM
}

pub fn is_unary_parent_kind_exec(k: u16) -> (b: bool)
    ensures
        b == is_unary_parent_kind(k),
{
    k == PREFIX_EXPR
        || k == REF_EXPR
        || k == REF_PAT
        || k == REF_TYPE
        || k == PTR_TYPE
        || k == SELF_PARAM
}

/// Nodes in which `<` and `>` delimit generics.
pub open spec fn is_generic_parent_kind(k: u16) -> bool {
    ||| k == GENERIC_ARG_LIST
    ||| k == GENERIC_PARAM_LIST
    ||| k == TYPE_BOUND_LIST
    ||| k == TYPE_ANCHOR
}

pub fn is_generic_parent_kind_exec(k: u16) -> (b: bool)
    ensures
        b == is_generic_parent_kind(k),
{
    k == GENERIC_ARG_LIST
        || k == GENERIC_PARAM_LIST
        || k == TYPE_BOUND_LIST
        || k == TYPE_ANCHOR
}

pub open spec fn is_word_like(k: u16) -> bool {
    is_literal_kind(k) || k == IDENT || k == LIFETIME_IDENT || k == UNDERSCORE || is_keyword_kind(k)
}

pub fn is_word_like_exec(k: u16) -> (b: bool)
    ensures
        b == is_word_like(k),
{
    is_literal_kind_exec(k) || k == IDENT || k == LIFETIME_IDENT || k == UNDERSCORE
        || is_keyword_kind_exec(k)
}

// ======================
// === Token contexts ===
// ======================

/// A token that is addressed with a parent: a token of a well-shaped tree.
pub open spec fn tok_ok(tv: TreeV, i: int) -> bool {
    shape_ok(tv) && 1 <= i < tv.elems.len()
}

/// The token sits directly inside a `TOKEN_TREE`.
pub open spec fn in_tt(tv: TreeV, i: int) -> bool {
    parent_kind(tv, i) == TOKEN_TREE
}

/// A `:` between a macro metavariable `$name` and its fragment specifier.
pub open spec fn metavar_colon(tv: TreeV, c: int) -> bool {
    match prev_nonws(tv, c) {
        Some(q) => (kind_at(tv, q) == IDENT || is_keyword_kind(kind_at(tv, q))) && prev_nonws_is(
            tv,
            q,
            DOLLAR,
        ),
        None => false,
    }
}

pub open spec fn likely_unary_in_tt(tv: TreeV, i: int) -> bool {
    match prev_nonws(tv, i) {
        Some(q) => is_unary_context_kind(kind_at(tv, q)),
        None => true,
    }
}

pub open spec fn is_unary(tv: TreeV, i: int) -> bool {
    let k = kind_at(tv, i);
    &&& (k == MINUS || k == STAR || k == AMP || k == BANG)
    &&& (is_unary_parent_kind(parent_kind(tv, i)) || (parent_kind(tv, i) == TOKEN_TREE
        && likely_unary_in_tt(tv, i)))
}

pub open spec fn in_generic(tv: TreeV, i: int) -> bool {
    is_generic_parent_kind(parent_kind(tv, i))
}

pub open spec fn in_closure_params(tv: TreeV, i: int) -> bool {
    parent_kind(tv, i) == PARAM_LIST
}

/// The token is the first child of its parent.
pub open spec fn first_in_parent(tv: TreeV, i: int) -> bool {
    tv.elems[i].prev_sib is None
}

/// `*` or `+` after `)` or `,` in a token tree: a macro repetition operator.
pub open spec fn macro_rep_op(tv: TreeV, i: int) -> bool {
    let k = kind_at(tv, i);
    &&& (k == STAR || k == PLUS)
    &&& in_tt(tv, i)
    &&& match prev_nonws(tv, i) {
        Some(q) => kind_at(tv, q) == R_PAREN || kind_at(tv, q) == COMMA,
        None => false,
    }
}

pub open spec fn double_colon(tv: TreeV, i: int) -> bool {
    kind_at(tv, i) == COLON2 || (kind_at(tv, i) == COLON && prev_nonws_is(tv, i, COLON))
}

pub open spec fn after_double_colon(tv: TreeV, i: int) -> bool {
    match prev_nonws(tv, i) {
        Some(q) => double_colon(tv, q),
        None => false,
    }
}

/// Scanning tokens backwards from index `j` with `depth` unmatched `>`: whether the
/// matching `<` follows a `::`.
pub open spec fn turbofish_scan(tv: TreeV, j: int, depth: nat) -> bool
    decreases j + 1,
{
    if j < 0 || j >= tv.elems.len() {
        false
    } else if !tv.elems[j].is_token {
        turbofish_scan(tv, j - 1, depth)
    } else if tv.elems[j].kind == R_ANGLE {
        turbofish_scan(tv, j - 1, depth + 1)
    } else if tv.elems[j].kind == L_ANGLE {
        if depth > 1 {
            turbofish_scan(tv, j - 1, (depth - 1) as nat)
        } else {
            after_double_colon(tv, j)
        }
    } else {
        turbofish_scan(tv, j - 1, depth)
    }
}

/// A `<` or `>` of a turbofish `::<..>` inside a token tree.
pub open spec fn turbofish_angle(tv: TreeV, i: int) -> bool {
    &&& parent_kind(tv, i) == TOKEN_TREE
    &&& if kind_at(tv, i) == L_ANGLE {
        after_double_colon(tv, i)
    } else if kind_at(tv, i) == R_ANGLE {
        turbofish_scan(tv, i - 1, 1)
    } else {
        false
    }
}

/// The token after `i` (whitespace included) has kind `k`.
pub open spec fn next_token_is(tv: TreeV, i: int, k: u16) -> bool {
    match next_token_from(tv, i + 1) {
        Some(x) => kind_at(tv, x) == k,
        None => false,
    }
}

pub open spec fn prev_nonws_not(tv: TreeV, i: int, k: u16) -> bool {
    match prev_nonws(tv, i) {
        Some(q) => kind_at(tv, q) != k,
        None => true,
    }
}

pub open spec fn prev_nonws_eq_or_minus(tv: TreeV, i: int) -> bool {
    prev_nonws_is(tv, i, EQ) || prev_nonws_is(tv, i, MINUS)
}

proof fn lemma_tok_parent(tv: TreeV, i: int)
    requires
        tok_ok(tv, i),
    ensures
        0 <= tv.elems[i].parent < i,
{
    assert(shape_elem(tv, i));
}

fn parent_kind_exec(t: &Cst, i: usize) -> (k: u16)
    requires
        tok_ok(t@, i as int),
    ensures
        k == parent_kind(t@, i as int),
{
    proof {
        lemma_tok_parent(t@, i as int);
    }
    t.elems[t.elems[i].parent].kind
}

fn in_tt_exec(t: &Cst, i: usize) -> (b: bool)
    requires
        tok_ok(t@, i as int),
    ensures
        b == in_tt(t@, i as int),
{
    parent_kind_exec(t, i) == TOKEN_TREE
}

fn metavar_colon_exec(t: &Cst, c: usize) -> (b: bool)
    requires
        tok_ok(t@, c as int),
    ensures
        b == metavar_colon(t@, c as int),
{
    match prev_nonws_at(t, c) {
        Some(q) => {
            let k = t.elems[q].kind;
            (k == IDENT || is_keyword_kind_exec(k)) && prev_nonws_kind_is(t, q, DOLLAR)
        },
        None => false,
    }
}

fn likely_unary_in_tt_exec(t: &Cst, i: usize) -> (b: bool)
    requires
        tok_ok(t@, i as int),
    ensures
        b == likely_unary_in_tt(t@, i as int),
{
    match prev_nonws_at(t, i) {
        Some(q) => is_unary_context_kind_exec(t.elems[q].kind),
        None => true,
    }
}

fn is_unary_exec(t: &Cst, i: usize) -> (b: bool)
    requires
        tok_ok(t@, i as int),
    ensures
        b == is_unary(t@, i as int),
{
    let k = t.elems[i].kind;
    if !(k == MINUS || k == STAR || k == AMP || k == BANG) {
        return false;
    }
    let pk = parent_kind_exec(t, i);
    is_unary_parent_kind_exec(pk) || (pk == TOKEN_TREE && likely_unary_in_tt_exec(t, i))
}

fn in_generic_exec(t: &Cst, i: usize) -> (b: bool)
    requires
        tok_ok(t@, i as int),
    ensures
        b == in_generic(t@, i as int),
{
    is_generic_parent_kind_exec(parent_kind_exec(t, i))
}

fn macro_rep_op_exec(t: &Cst, i: usize) -> (b: bool)
    requires
        tok_ok(t@, i as int),
    ensures
        b == macro_rep_op(t@, i as int),
{
    let k = t.elems[i].kind;
    if !((k == STAR || k == PLUS) && in_tt_exec(t, i)) {
        return false;
    }
    match prev_nonws_at(t, i) {
        Some(q) => t.elems[q].kind == R_PAREN || t.elems[q].kind == COMMA,
        None => false,
    }
}

fn double_colon_exec(t: &Cst, i: usize) -> (b: bool)
    requires
        tok_ok(t@, i as int),
    ensures
        b == double_colon(t@, i as int),
{
    let k = t.elems[i].kind;
    k == COLON2 || (k == COLON && prev_nonws_kind_is(t, i, COLON))
}

fn after_double_colon_exec(t: &Cst, i: usize) -> (b: bool)
    requires
        tok_ok(t@, i as int),
    ensures
        b == after_double_colon(t@, i as int),
{
    match prev_nonws_at(t, i) {
        Some(q) => double_colon_exec(t, q),
        None => false,
    }
}

fn turbofish_angle_exec(t: &Cst, i: usize) -> (b: bool)
    requires
        tok_ok(t@, i as int),
    ensures
        b == turbofish_angle(t@, i as int),
{
    if parent_kind_exec(t, i) != TOKEN_TREE {
        return false;
    }
    let k = t.elems[i].kind;
    if k == L_ANGLE {
        return after_double_colon_exec(t, i);
    }
    if k != R_ANGLE {
        return false;
    }
    let mut j = i;
    let mut depth: usize = 1;
    while j > 0
        invariant
            tok_ok(t@, i as int),
            j <= i,
            1 <= depth <= 1 + i - j,
            turbofish_angle(t@, i as int) == turbofish_scan(t@, i - 1, 1),
            turbofish_scan(t@, j - 1, depth as nat) == turbofish_scan(t@, i - 1, 1),
        decreases j,
    {
        let e = t.elems[j - 1];
        if e.is_token {
            if e.kind == R_ANGLE {
                depth = depth + 1;
            } else if e.kind == L_ANGLE {
                if depth > 1 {
                    depth = depth - 1;
                } else {
                    assert(depth == 1);
                    assert(turbofish_scan(t@, j - 1, depth as nat) == after_double_colon(
                        t@,
                        j - 1,
                    ));
                    return after_double_colon_exec(t, j - 1);
                }
            }
        }
        j = j - 1;
    }
    false
}

fn next_token_is_exec(t: &Cst, i: usize, k: u16) -> (b: bool)
    requires
        tok_ok(t@, i as int),
    ensures
        b == next_token_is(t@, i as int, k),
{
    match next_token_at(t, i + 1) {
        Some(x) => t.elems[x].kind == k,
        None => false,
    }
}

fn prev_nonws_not_exec(t: &Cst, i: usize, k: u16) -> (b: bool)
    requires
        tok_ok(t@, i as int),
    ensures
        b == prev_nonws_not(t@, i as int, k),
{
    match prev_nonws_at(t, i) {
        Some(q) => t.elems[q].kind != k,
        None => true,
    }
}

// =======================
// === compute_spacing ===
// =======================

/// Whether a space goes between the adjacent non-whitespace tokens `p` and `n` (else
/// nothing does).
pub open spec fn spaced(tv: TreeV, p: int, n: int) -> bool {
    let pk = kind_at(tv, p);
    let nk = kind_at(tv, n);
    if pk == COLON2 || nk == COLON2 {
        false
    } else if pk == COLON && nk == COLON {
        false
    } else if pk == DOT || nk == DOT {
        false
    } else if pk == DOT2 || pk == DOT2EQ || pk == DOT3 || nk == DOT2 || nk == DOT2EQ || nk == DOT3 {
        false
    } else if pk == L_PAREN || pk == L_BRACK {
        false
    } else if nk == R_PAREN || nk == R_BRACK {
        false
    } else if nk == COMMA || nk == SEMICOLON {
        false
    } else if nk == QUESTION {
        false
    } else if pk == POUND {
        false
    } else if pk == DOLLAR && in_tt(tv, p) {
        false
    } else if nk == COLON && in_tt(tv, n) && metavar_colon(tv, n) {
        false
    } else if pk == COLON && in_tt(tv, p) && metavar_colon(tv, p) {
        false
    } else if (nk == STAR || nk == PLUS) && in_tt(tv, n) && (pk == R_PAREN || pk == COMMA) {
        false
    } else if pk == AMP && nk == L_ANGLE && in_tt(tv, p) {
        false
    } else if (pk == STAR || pk == PLUS) && nk == R_ANGLE && in_tt(tv, p) && prev_nonws_not(
        tv,
        p,
        R_ANGLE,
    ) {
        false
    } else if nk == BANG && pk == IDENT {
        false
    } else if pk == BANG && (nk == L_PAREN || nk == L_BRACK) {
        false
    } else if (pk == EQ || pk == MINUS) && nk == R_ANGLE && in_tt(tv, p) {
        false
    } else if pk == IDENT && nk == L_PAREN {
        false
    } else if pk == R_PAREN && nk == L_PAREN {
        false
    } else if nk == L_BRACK && (pk == IDENT || pk == R_PAREN || pk == R_BRACK || pk == R_ANGLE) {
        false
    } else if pk == PUB_KW && nk == L_PAREN && parent_kind(tv, p) == VISIBILITY {
        false
    } else if pk == FN_KW && nk == L_PAREN && parent_kind(tv, p) == FN_PTR_TYPE {
        false
    } else if (pk == MINUS || pk == STAR || pk == AMP || pk == BANG) && is_unary(tv, p)
        && !macro_rep_op(tv, p) {
        false
    } else if pk == AMP && nk == LIFETIME_IDENT {
        false
    } else if pk == L_ANGLE && (in_generic(tv, p) || turbofish_angle(tv, p)) {
        false
    } else if nk == R_ANGLE && (in_generic(tv, n) || turbofish_angle(tv, n)) {
        false
    } else if nk == L_ANGLE && in_generic(tv, n) && parent_kind(tv, n) != TYPE_ANCHOR {
        false
    } else if pk == R_ANGLE && nk == L_PAREN && parent_kind(tv, p) == TOKEN_TREE
        && turbofish_angle(tv, p) {
        false
    } else if pk == PIPE && nk == PIPE {
        false
    } else if pk == PIPE && in_closure_params(tv, p) && first_in_parent(tv, p) {
        false
    } else if nk == PIPE && in_closure_params(tv, n) && !first_in_parent(tv, n) {
        false
    } else if nk == COLON {
        false
    } else if pk == AT || nk == AT {
        false
    } else if pk == L_CURLY && nk == R_CURLY {
        false
    } else if pk == COMMA || pk == SEMICOLON {
        true
    } else if pk == COLON {
        !prev_nonws_is(tv, p, COLON)
    } else if (pk == EQ || nk == EQ) && (parent_kind(tv, p) == TYPE_PARAM || parent_kind(tv, n)
        == TYPE_PARAM) {
        false
    } else if pk == EQ || nk == EQ {
        true
    } else if is_compound_assign(pk) || is_compound_assign(nk) {
        true
    } else if pk == EQ2 || pk == NEQ || pk == LTEQ || pk == GTEQ || nk == EQ2 || nk == NEQ || nk
        == LTEQ || nk == GTEQ {
        true
    } else if pk == AMP2 || pk == PIPE2 || nk == AMP2 || nk == PIPE2 {
        true
    } else if pk == FAT_ARROW || pk == THIN_ARROW || nk == FAT_ARROW || nk == THIN_ARROW {
        true
    } else if pk == SHL || pk == SHR || nk == SHL || nk == SHR {
        true
    } else if in_tt(tv, p) && pk == L_ANGLE && nk == L_ANGLE {
        false
    } else if in_tt(tv, p) && pk == R_ANGLE && nk == R_ANGLE {
        false
    } else if pk == L_ANGLE && !in_tt(tv, p) {
        true
    } else if nk == L_ANGLE && !in_tt(tv, n) {
        true
    } else if nk == L_ANGLE && in_tt(tv, n) && next_token_is(tv, n, L_ANGLE) && is_word_like(pk) {
        true
    } else if pk == L_ANGLE && in_tt(tv, p) && prev_nonws_is(tv, p, L_ANGLE) {
        true
    } else if nk == R_ANGLE && !in_tt(tv, n) {
        true
    } else if pk == R_ANGLE && !in_tt(tv, p) && (!in_generic(tv, p) || is_word_like(nk)) {
        true
    } else if nk == R_ANGLE && in_tt(tv, n) && next_token_is(tv, n, R_ANGLE) && is_word_like(pk) {
        true
    } else if pk == R_ANGLE && in_tt(tv, p) && prev_nonws_is(tv, p, R_ANGLE) {
        true
    } else if pk == R_ANGLE && in_tt(tv, p) && prev_nonws_eq_or_minus(tv, p) {
        true
    } else if is_binary_op_token(pk) && !is_unary(tv, p) {
        true
    } else if is_binary_op_token(nk) && !is_unary(tv, n) {
        true
    } else if nk == L_CURLY || pk == L_CURLY || nk == R_CURLY || pk == R_CURLY {
        true
    } else if is_keyword_kind(pk) && !(nk == R_ANGLE && in_tt(tv, n)) {
        true
    } else if is_keyword_kind(nk) && !(pk == L_ANGLE && in_tt(tv, p)) {
        true
    } else if pk == BANG && is_word_like(nk) {
        true
    } else if pk == COMMENT || nk == COMMENT {
        true
    } else if pk == LIFETIME_IDENT && (nk == L_BRACK || nk == L_PAREN) {
        true
    } else if is_word_like(pk) && is_word_like(nk) {
        true
    } else {
        false
    }
}

/// The horizontal spacing between two adjacent non-whitespace tokens on one line.
#[verifier::rlimit(100)]
pub fn compute_spacing(t: &Cst, p: usize, n: usize) -> (space: bool)
    requires
        tok_ok(t@, p as int),
        tok_ok(t@, n as int),
    ensures
        space == spaced(t@, p as int, n as int),
{
    let pk = t.elems[p].kind;
    let nk = t.elems[n].kind;
    if pk == COLON2 || nk == COLON2 {
        return false;
    }
    if pk == COLON && nk == COLON {
        return false;
    }
    if pk == DOT || nk == DOT {
        return false;
    }
    if pk == DOT2 || pk == DOT2EQ || pk == DOT3 || nk == DOT2 || nk == DOT2EQ || nk == DOT3 {
        return false;
    }
    if pk == L_PAREN || pk == L_BRACK {
        return false;
    }
    if nk == R_PAREN || nk == R_BRACK {
        return false;
    }
    if nk == COMMA || nk == SEMICOLON {
        return false;
    }
    if nk == QUESTION {
        return false;
    }
    if pk == POUND {
        return false;
    }
    let p_tt = in_tt_exec(t, p);
    let n_tt = in_tt_exec(t, n);
    if pk == DOLLAR && p_tt {
        return false;
    }
    if nk == COLON && n_tt && metavar_colon_exec(t, n) {
        return false;
    }
    if pk == COLON && p_tt && metavar_colon_exec(t, p) {
        return false;
    }
    if (nk == STAR || nk == PLUS) && n_tt && (pk == R_PAREN || pk == COMMA) {
        return false;
    }
    if pk == AMP && nk == L_ANGLE && p_tt {
        return false;
    }
    if (pk == STAR || pk == PLUS) && nk == R_ANGLE && p_tt && prev_nonws_not_exec(t, p, R_ANGLE) {
        return false;
    }
    if nk == BANG && pk == IDENT {
        return false;
    }
    if pk == BANG && (nk == L_PAREN || nk == L_BRACK) {
        return false;
    }
    if (pk == EQ || pk == MINUS) && nk == R_ANGLE && p_tt {
        return false;
    }
    if pk == IDENT && nk == L_PAREN {
        return false;
    }
    if pk == R_PAREN && nk == L_PAREN {
        return false;
    }
    if nk == L_BRACK && (pk == IDENT || pk == R_PAREN || pk == R_BRACK || pk == R_ANGLE) {
        return false;
    }
    let ppk = parent_kind_exec(t, p);
    let npk = parent_kind_exec(t, n);
    if pk == PUB_KW && nk == L_PAREN && ppk == VISIBILITY {
        return false;
    }
    if pk == FN_KW && nk == L_PAREN && ppk == FN_PTR_TYPE {
        return false;
    }
    if (pk == MINUS || pk == STAR || pk == AMP || pk == BANG) && is_unary_exec(t, p)
        && !macro_rep_op_exec(t, p) {
        return false;
    }
    if pk == AMP && nk == LIFETIME_IDENT {
        return false;
    }
    if pk == L_ANGLE && (in_generic_exec(t, p) || turbofish_angle_exec(t, p)) {
        return false;
    }
    if nk == R_ANGLE && (in_generic_exec(t, n) || turbofish_angle_exec(t, n)) {
        return false;
    }
    if nk == L_ANGLE && in_generic_exec(t, n) && npk != TYPE_ANCHOR {
        return false;
    }
    if pk == R_ANGLE && nk == L_PAREN && ppk == TOKEN_TREE && turbofish_angle_exec(t, p) {
        return false;
    }
    if pk == PIPE && nk == PIPE {
        return false;
    }
    if pk == PIPE && ppk == PARAM_LIST && t.elems[p].prev_sib.is_none() {
        return false;
    }
    if nk == PIPE && npk == PARAM_LIST && !t.elems[n].prev_sib.is_none() {
        return false;
    }
    if nk == COLON {
        return false;
    }
    if pk == AT || nk == AT {
        return false;
    }
    if pk == L_CURLY && nk == R_CURLY {
        return false;
    }
    if pk == COMMA || pk == SEMICOLON {
        return true;
    }
    if pk == COLON {
        return !prev_nonws_kind_is(t, p, COLON);
    }
    if (pk == EQ || nk == EQ) && (ppk == TYPE_PARAM || npk == TYPE_PARAM) {
        return false;
    }
    if pk == EQ || nk == EQ {
        return true;
    }
    if is_compound_assign_exec(pk) || is_compound_assign_exec(nk) {
        return true;
    }
    if pk == EQ2 || pk == NEQ || pk == LTEQ || pk == GTEQ || nk == EQ2 || nk == NEQ || nk == LTEQ
        || nk == GTEQ {
        return true;
    }
    if pk == AMP2 || pk == PIPE2 || nk == AMP2 || nk == PIPE2 {
        return true;
    }
    if pk == FAT_ARROW || pk == THIN_ARROW || nk == FAT_ARROW || nk == THIN_ARROW {
        return true;
    }
    if pk == SHL || pk == SHR || nk == SHL || nk == SHR {
        return true;
    }
    if p_tt && pk == L_ANGLE && nk == L_ANGLE {
        return false;
    }
    if p_tt && pk == R_ANGLE && nk == R_ANGLE {
        return false;
    }
    if pk == L_ANGLE && !p_tt {
        return true;
    }
    if nk == L_ANGLE && !n_tt {
        return true;
    }
    if nk == L_ANGLE && n_tt && next_token_is_exec(t, n, L_ANGLE) && is_word_like_exec(pk) {
        return true;
    }
    if pk == L_ANGLE && p_tt && prev_nonws_kind_is(t, p, L_ANGLE) {
        return true;
    }
    if nk == R_ANGLE && !n_tt {
        return true;
    }
    if pk == R_ANGLE && !p_tt && (!in_generic_exec(t, p) || is_word_like_exec(nk)) {
        return true;
    }
    if nk == R_ANGLE && n_tt && next_token_is_exec(t, n, R_ANGLE) && is_word_like_exec(pk) {
        return true;
    }
    if pk == R_ANGLE && p_tt && prev_nonws_kind_is(t, p, R_ANGLE) {
        return true;
    }
    if pk == R_ANGLE && p_tt && (prev_nonws_kind_is(t, p, EQ) || prev_nonws_kind_is(t, p, MINUS)) {
        return true;
    }
    if is_binary_op_token_exec(pk) && !is_unary_exec(t, p) {
        return true;
    }
    if is_binary_op_token_exec(nk) && !is_unary_exec(t, n) {
        return true;
    }
    if nk == L_CURLY || pk == L_CURLY || nk == R_CURLY || pk == R_CURLY {
        return true;
    }
    if is_keyword_kind_exec(pk) && !(nk == R_ANGLE && n_tt) {
        return true;
    }
    if is_keyword_kind_exec(nk) && !(pk == L_ANGLE && p_tt) {
        return true;
    }
    if pk == BANG && is_word_like_exec(nk) {
        return true;
    }
    if pk == COMMENT || nk == COMMENT {
        return true;
    }
    if pk == LIFETIME_IDENT && (nk == L_BRACK || nk == L_PAREN) {
        return true;
    }
    if is_word_like_exec(pk) && is_word_like_exec(nk) {
        return true;
    }
    false
}

// ============
// === Laws ===
// ============

/// One of the ten compound-assignment tokens: `+=`, `-=`, `*=`, `/=`, `%=`, `&=`, `|=`, `^=`,
/// `<<=`, `>>=`.
pub open spec fn compound_assign_token(k: u16) -> bool {
    k == PLUSEQ || k == MINUSEQ || k == STAREQ || k == SLASHEQ || k == PERCENTEQ || k == AMPEQ
        || k == PIPEEQ || k == CARETEQ || k == SHLEQ || k == SHREQ
}

/// A compound assignment gets a space on both sides: after a name, a number or a closing
/// bracket, and before a name, a number or an opening parenthesis.
pub proof fn law_compound_assign_spaced(tv: TreeV, p: int, n: int)
    ensures
        compound_assign_token(kind_at(tv, p)) && (kind_at(tv, n) == IDENT || kind_at(tv, n)
            == INT_NUMBER || kind_at(tv, n) == L_PAREN) ==> spaced(tv, p, n),
        compound_assign_token(kind_at(tv, n)) && (kind_at(tv, p) == IDENT || kind_at(tv, p)
            == INT_NUMBER || kind_at(tv, p) == R_PAREN || kind_at(tv, p) == R_BRACK) ==> spaced(
            tv,
            p,
            n,
        ),
{
}

/// A comparison, logical, shift or arrow operator: `==`, `!=`, `<=`, `>=`, `&&`, `||`, `<<`,
/// `>>`, `=>`, `->`.
pub open spec fn spaced_operator_token(k: u16) -> bool {
    k == EQ2 || k == NEQ || k == LTEQ || k == GTEQ || k == AMP2 || k == PIPE2 || k == SHL || k
        == SHR || k == FAT_ARROW || k == THIN_ARROW
}

/// Comparison, logical, shift and arrow operators get a space on both sides when they
/// stand between names or numbers.
pub proof fn law_operators_spaced(tv: TreeV, p: int, n: int)
    ensures
        spaced_operator_token(kind_at(tv, p)) && (kind_at(tv, n) == IDENT || kind_at(tv, n)
            == INT_NUMBER) ==> spaced(tv, p, n),
        spaced_operator_token(kind_at(tv, n)) && (kind_at(tv, p) == IDENT || kind_at(tv, p)
            == INT_NUMBER) ==> spaced(tv, p, n),
{
}

} // verus!
