use vstd::prelude::*;

use crate::config::Config;
use crate::pass::edit::Edit;
use crate::pass::edit::apply_all;
use crate::pass::edit::apply_edits;
use crate::pass::edit::sort_desc;
use crate::pass::edit::sort_edits_desc;
use crate::pass::edit::view_edits;
use crate::syntax::kind::COMMA;
use crate::syntax::kind::L_BRACK;
use crate::syntax::kind::L_CURLY;
use crate::syntax::kind::L_PAREN;
use crate::syntax::kind::MACRO_CALL;
use crate::syntax::kind::PARAM;
use crate::syntax::kind::PARAM_LIST;
use crate::syntax::kind::SELF_PARAM;
use crate::syntax::kind::RECORD_EXPR_FIELD_LIST;
use crate::syntax::kind::R_BRACK;
use crate::syntax::kind::R_CURLY;
use crate::syntax::kind::R_PAREN;
use crate::syntax::kind::STMT_LIST;
use crate::syntax::kind::TOKEN_TREE;
use crate::syntax::kind::WHITESPACE;
use crate::syntax::nav::child_list;
use crate::syntax::nav::children_of;
use crate::syntax::nav::kind_at;
use crate::syntax::nav::next_sib_index;
use crate::syntax::nav::siblings_from;
use crate::syntax::nav::parent_kind;
use crate::syntax::tree::Cst;
use crate::syntax::tree::TreeV;
use crate::syntax::tree::elem_ok;
use crate::syntax::tree::parse_cst;
use crate::syntax::tree::parsed_tree;
use crate::syntax::tree::wf;
use crate::text::contains_char;
use crate::text::contains_char_vec;
use crate::text::find_char;
use crate::text::find_from;
use crate::text::rfind_before;
use crate::text::rfind_char;
use crate::text::break_free;
use crate::text::byte_len;
use crate::text::lemma_split_join;
use crate::text::byte_len_of;
use crate::text::copy_vec;
use crate::text::ends_with;
use crate::text::ends_with_vec;
use crate::text::join_lines;
use crate::text::join_lines_vec;
use crate::text::leading_ws;
use crate::text::leading_ws_vec;
use crate::text::push_all;
use crate::text::split_lines;
use crate::text::split_lines_vec;
use crate::text::starts_with;
use crate::text::starts_with_vec;
use crate::text::sub_vec;
use crate::text::trim;
use crate::text::trim_start;
use crate::text::trim_start_vec;
use crate::text::trim_vec;
use crate::text::view_lines;

verus! {

// =================================
// === expand_long_inline_blocks ===
// =================================

/// The number of nodes among `cs[..k]`.
pub open spec fn count_nodes(tv: TreeV, cs: Seq<int>, k: int) -> nat
    decreases k,
{
    if k <= 0 {
        0
    } else {
        count_nodes(tv, cs, k - 1) + if tv.elems[cs[k - 1]].is_token {
            0nat
        } else {
            1nat
        }
    }
}

/// Whether a token-tree child is content (not whitespace, braces or parentheses).
pub open spec fn is_content_kind(k: u16) -> bool {
    !(k == WHITESPACE || k == L_CURLY || k == R_CURLY || k == L_PAREN || k == R_PAREN)
}

/// The number of content elements among `cs[..k]`.
pub open spec fn count_content(tv: TreeV, cs: Seq<int>, k: int) -> nat
    decreases k,
{
    if k <= 0 {
        0
    } else {
        count_content(tv, cs, k - 1) + if is_content_kind(kind_at(tv, cs[k - 1])) {
            1nat
        } else {
            0nat
        }
    }
}

/// A node that can be spread over several lines: a non-empty block, a parameter or field
/// list with at least two entries, or a braced (or macro-call) token tree with content.
pub open spec fn expandable(tv: TreeV, i: int) -> bool {
    let k = kind_at(tv, i);
    let cs = child_list(tv, i);
    if k == STMT_LIST {
        count_nodes(tv, cs, cs.len() as int) >= 1
    } else if k == PARAM_LIST || k == RECORD_EXPR_FIELD_LIST {
        count_nodes(tv, cs, cs.len() as int) >= 2
    } else if k == TOKEN_TREE {
        let has_first = cs.len() > 0;
        let has_curly = has_first && kind_at(tv, cs[0]) == L_CURLY;
        let macro_paren = has_first && kind_at(tv, cs[0]) == L_PAREN && i > 0 && parent_kind(tv, i)
            == MACRO_CALL;
        (has_curly || macro_paren) && count_content(tv, cs, cs.len() as int) >= 1
    } else {
        false
    }
}

/// The start of the line that holds offset `lo`.
pub open spec fn line_start_of(src: Seq<char>, lo: int) -> int {
    match rfind_before(src, '\n', lo) {
        Some(p) => p + 1,
        None => 0,
    }
}

/// The end of the line that holds offset `hi`.
pub open spec fn line_end_of(src: Seq<char>, hi: int) -> int {
    match find_from(src, '\n', hi) {
        Some(p) => p,
        None => src.len() as int,
    }
}

pub open spec fn is_open_kind(k: u16) -> bool {
    k == L_PAREN || k == L_BRACK || k == L_CURLY
}

pub open spec fn is_close_kind(k: u16) -> bool {
    k == R_PAREN || k == R_BRACK || k == R_CURLY
}

/// A parameter: an entry of a parameter list, which takes a trailing comma.
pub open spec fn is_entry_kind(k: u16) -> bool {
    k == PARAM || k == SELF_PARAM
}

/// A line break, after a comma when `comma` holds.
pub open spec fn break_text(comma: bool) -> Seq<char> {
    if comma {
        seq![',', '\n']
    } else {
        seq!['\n']
    }
}

/// The line break that child `cs[idx]` of an expanded node asks for: whitespace becomes a
/// line break (in token trees only after `{` or `,` and before `}`), and an opening or
/// closing bracket that touches content gets one on its inner side. In a parameter list
/// (`with_comma`), the last parameter gets a comma before the break that closes the list.
pub open spec fn child_edit(tv: TreeV, cs: Seq<int>, idx: int, commas_only: bool, with_comma: bool) -> Seq<
    (int, int, Seq<char>),
> {
    let c = cs[idx];
    let ck = kind_at(tv, c);
    let e = tv.elems[c];
    if ck == WHITESPACE {
        let should = if commas_only {
            (idx > 0 && (kind_at(tv, cs[idx - 1]) == L_CURLY || kind_at(tv, cs[idx - 1]) == COMMA))
                || (idx + 1 < cs.len() && kind_at(tv, cs[idx + 1]) == R_CURLY)
        } else {
            true
        };
        let comma = with_comma && idx > 0 && is_entry_kind(kind_at(tv, cs[idx - 1])) && idx + 1
            < cs.len() && is_close_kind(kind_at(tv, cs[idx + 1]));
        if should {
            seq![(e.lo as int, e.hi as int, break_text(comma))]
        } else {
            Seq::empty()
        }
    } else if is_open_kind(ck) && idx + 1 < cs.len() && kind_at(tv, cs[idx + 1]) != WHITESPACE {
        seq![(e.hi as int, e.hi as int, seq!['\n'])]
    } else if is_close_kind(ck) && idx > 0 && kind_at(tv, cs[idx - 1]) != WHITESPACE {
        let comma = with_comma && is_entry_kind(kind_at(tv, cs[idx - 1]));
        seq![(e.lo as int, e.lo as int, break_text(comma))]
    } else {
        Seq::empty()
    }
}

pub open spec fn child_edits(tv: TreeV, cs: Seq<int>, k: int, commas_only: bool, with_comma: bool) -> Seq<
    (int, int, Seq<char>),
>
    decreases k,
{
    if k <= 0 {
        Seq::empty()
    } else {
        child_edits(tv, cs, k - 1, commas_only, with_comma) + child_edit(
            tv,
            cs,
            k - 1,
            commas_only,
            with_comma,
        )
    }
}

/// The line breaks for node `i`, if it is expandable, written on one line, and that line
/// is longer than `max` bytes.
pub open spec fn node_expand_edits(tv: TreeV, src: Seq<char>, i: int, max: nat) -> Seq<
    (int, int, Seq<char>),
> {
    let e = tv.elems[i];
    if e.is_token || !expandable(tv, i) {
        Seq::empty()
    } else if contains_char(src.subrange(e.lo as int, e.hi as int), '\n') {
        Seq::empty()
    } else if byte_len(
        src.subrange(line_start_of(src, e.lo as int), line_end_of(src, e.hi as int)),
    ) <= max {
        Seq::empty()
    } else {
        let cs = child_list(tv, i);
        let k = kind_at(tv, i);
        child_edits(tv, cs, cs.len() as int, k == TOKEN_TREE, k == PARAM_LIST)
    }
}

pub open spec fn expand_edits(tv: TreeV, src: Seq<char>, i: int, max: nat) -> Seq<
    (int, int, Seq<char>),
>
    decreases i,
{
    if i <= 0 {
        Seq::empty()
    } else {
        expand_edits(tv, src, i - 1, max) + node_expand_edits(tv, src, i - 1, max)
    }
}

/// Breaks single-line blocks, parameter lists, field lists and macro bodies onto several
/// lines when the line that holds them is longer than `max` bytes.
pub open spec fn long_blocks_expanded(src: Seq<char>, max: nat) -> Seq<char> {
    match parsed_tree(src) {
        Some(tv) => {
            let es = expand_edits(tv, src, tv.elems.len() as int, max);
            if es.len() == 0 {
                src
            } else {
                apply_edits(src, sort_desc(es))
            }
        },
        None => src,
    }
}

fn newline_edit(pos: usize) -> (e: Edit)
    ensures
        e.start == pos,
        e.end == pos,
        e.text@ == seq!['\n'],
{
    let mut v: Vec<char> = Vec::new();
    v.push('\n');
    Edit { start: pos, end: pos, text: v }
}

fn is_entry_kind_exec(k: u16) -> (b: bool)
    ensures
        b == is_entry_kind(k),
{
    k == PARAM || k == SELF_PARAM
}

fn is_close_kind_exec(k: u16) -> (b: bool)
    ensures
        b == is_close_kind(k),
{
    k == R_PAREN || k == R_BRACK || k == R_CURLY
}

fn break_text_vec(comma: bool) -> (v: Vec<char>)
    ensures
        v@ == break_text(comma),
{
    let mut v: Vec<char> = Vec::new();
    if comma {
        v.push(',');
    }
    v.push('\n');
    assert(v@ =~= break_text(comma));
    v
}

/// Appends the line breaks that expanding node `i` of a parsed tree asks for.
pub fn node_edits(t: &Cst, src: &Vec<char>, i: usize, max: usize, edits: &mut Vec<Edit>)
    requires
        wf(t@, src@),
        i < t.elems@.len(),
    ensures
        view_edits(final(edits)@) == view_edits(old(edits)@) + node_expand_edits(
            t@,
            src@,
            i as int,
            max as nat,
        ),
{
    let ghost tv = t@;
    let ghost before = view_edits(edits@);
    let e = t.elems[i];
    if i > 0 {
        assert(elem_ok(tv, i as int, src@));
    }
    proof {
        crate::syntax::tree::lemma_wf_shape(tv, src@);
        crate::syntax::indentation::lemma_end_bounded(tv, i as int);
    }
    if e.is_token {
        return ;
    }
    let cs = children_of(t, i);
    let ghost cv = cs@.map_values(|x: usize| x as int);
    let k = e.kind;
    let expandable_here = if k == STMT_LIST || k == PARAM_LIST || k == RECORD_EXPR_FIELD_LIST {
        let mut nodes: usize = 0;
        let mut j: usize = 0;
        while j < cs.len()
            invariant
                j <= cs@.len(),
                cv == cs@.map_values(|x: usize| x as int),
                forall|q: int| 0 <= q < cs@.len() ==> i < #[trigger] cs@[q] < t.elems@.len(),
                tv == t@,
                nodes == count_nodes(tv, cv, j as int),
                nodes <= j,
            decreases cs@.len() - j,
        {
            if !t.elems[cs[j]].is_token {
                nodes = nodes + 1;
            }
            j = j + 1;
        }
        assert(cv.len() == cs@.len());
        if k == STMT_LIST {
            nodes >= 1
        } else {
            nodes >= 2
        }
    } else if k == TOKEN_TREE {
        let has_first = cs.len() > 0;
        let has_curly = has_first && t.elems[cs[0]].kind == L_CURLY;
        let macro_paren = has_first && t.elems[cs[0]].kind == L_PAREN && i > 0 && t.elems[e.parent].kind
            == MACRO_CALL;
        let mut content: usize = 0;
        let mut j: usize = 0;
        while j < cs.len()
            invariant
                j <= cs@.len(),
                cv == cs@.map_values(|x: usize| x as int),
                forall|q: int| 0 <= q < cs@.len() ==> i < #[trigger] cs@[q] < t.elems@.len(),
                tv == t@,
                content == count_content(tv, cv, j as int),
                content <= j,
            decreases cs@.len() - j,
        {
            let ck = t.elems[cs[j]].kind;
            if !(ck == WHITESPACE || ck == L_CURLY || ck == R_CURLY || ck == L_PAREN || ck
                == R_PAREN) {
                content = content + 1;
            }
            j = j + 1;
        }
        (has_curly || macro_paren) && content >= 1
    } else {
        false
    };
    assert(expandable_here == expandable(tv, i as int));
    if !expandable_here {
        return ;
    }
    let text = crate::text::sub_vec(src, e.lo, e.hi);
    if contains_char_vec(&text, '\n') {
        return ;
    }
    let line_start = match rfind_char(src, '\n', e.lo) {
        Some(p) => p + 1,
        None => 0,
    };
    let line_end = match find_char(src, '\n', e.hi) {
        Some(p) => p,
        None => src.len(),
    };
    proof {
        if let Some(p) = rfind_before(src@, '\n', e.lo as int) {
            lemma_rfind_before_bound(src@, '\n', e.lo as int);
        }
        lemma_find_from_bound(src@, '\n', e.hi as int);
    }
    let line = crate::text::sub_vec(src, line_start, line_end);
    if byte_len_of(&line) <= max as u128 {
        return ;
    }
    let commas_only = k == TOKEN_TREE;
    let with_comma = k == PARAM_LIST;
    let mut idx: usize = 0;
    while idx < cs.len()
        invariant
            idx <= cs@.len(),
            cv == cs@.map_values(|x: usize| x as int),
            cv == child_list(tv, i as int),
            tv == t@,
            wf(tv, src@),
            forall|q: int| 0 <= q < cs@.len() ==> i < #[trigger] cs@[q] < t.elems@.len(),
            view_edits(edits@) == before + child_edits(tv, cv, idx as int, commas_only, with_comma),
        decreases cs@.len() - idx,
    {
        let c = cs[idx];
        let ce = t.elems[c];
        assert(elem_ok(tv, c as int, src@));
        let ghost prev_edits = view_edits(edits@);
        if ce.kind == WHITESPACE {
            let should = if commas_only {
                (idx > 0 && (t.elems[cs[idx - 1]].kind == L_CURLY || t.elems[cs[idx - 1]].kind
                    == COMMA)) || (idx + 1 < cs.len() && t.elems[cs[idx + 1]].kind == R_CURLY)
            } else {
                true
            };
            let comma = with_comma && idx > 0 && is_entry_kind_exec(t.elems[cs[idx - 1]].kind) && idx
                + 1 < cs.len() && is_close_kind_exec(t.elems[cs[idx + 1]].kind);
            if should {
                edits.push(Edit { start: ce.lo, end: ce.hi, text: break_text_vec(comma) });
            }
        } else if (ce.kind == L_PAREN || ce.kind == L_BRACK || ce.kind == L_CURLY) && idx + 1
            < cs.len() && t.elems[cs[idx + 1]].kind != WHITESPACE {
            edits.push(newline_edit(ce.hi));
        } else if (ce.kind == R_PAREN || ce.kind == R_BRACK || ce.kind == R_CURLY) && idx > 0
            && t.elems[cs[idx - 1]].kind != WHITESPACE {
            let comma = with_comma && is_entry_kind_exec(t.elems[cs[idx - 1]].kind);
            edits.push(Edit { start: ce.lo, end: ce.lo, text: break_text_vec(comma) });
        }
        assert(view_edits(edits@) =~= prev_edits + child_edit(
            tv,
            cv,
            idx as int,
            commas_only,
            with_comma,
        ));
        idx = idx + 1;
    }
}

pub proof fn lemma_rfind_before_bound(s: Seq<char>, c: char, j: int)
    ensures
        rfind_before(s, c, j) matches Some(p) ==> 0 <= p < j && p < s.len(),
    decreases j,
{
    if j > 0 && j <= s.len() && s[j - 1] != c {
        lemma_rfind_before_bound(s, c, j - 1);
    }
}

pub proof fn lemma_find_from_bound(s: Seq<char>, c: char, k: int)
    ensures
        find_from(s, c, k) matches Some(p) ==> k <= p < s.len(),
    decreases s.len() - k,
{
    if 0 <= k < s.len() && s[k] != c {
        lemma_find_from_bound(s, c, k + 1);
    }
}

/// Breaks single-line blocks, parameter lists, field lists and macro bodies onto several
/// lines when their line is longer than the line length.
pub fn expand_long_inline_blocks(source: &Vec<char>, config: &Config) -> (r: Vec<char>)
    ensures
        r@ == long_blocks_expanded(source@, config.max_line_length as nat),
{
    let t = match parse_cst(source) {
        Some(t) => t,
        None => {
            return copy_vec(source);
        },
    };
    let ghost tv = t@;
    let max = config.max_line_length;
    let mut edits: Vec<Edit> = Vec::new();
    let n = t.elems.len();
    let mut i: usize = 0;
    assert(view_edits(edits@) =~= expand_edits(tv, source@, 0, max as nat));
    while i < n
        invariant
            n == t.elems@.len(),
            tv == t@,
            wf(tv, source@),
            i <= n,
            view_edits(edits@) == expand_edits(tv, source@, i as int, max as nat),
        decreases n - i,
    {
        node_edits(&t, source, i, max, &mut edits);
        i = i + 1;
    }
    if edits.len() == 0 {
        return copy_vec(source);
    }
    let sorted = sort_edits_desc(edits);
    apply_all(source, &sorted)
}

// ===============================
// === collapse_opening_braces ===
// ===============================

pub open spec fn where_kw() -> Seq<char> {
    seq!['w', 'h', 'e', 'r', 'e']
}

/// The lines with `tail` appended to the last one.
pub open spec fn extend_last(r: Seq<Seq<char>>, tail: Seq<char>) -> Seq<Seq<char>> {
    r.update(r.len() - 1, r.last() + tail)
}

/// The output lines for `lines[i..]`, given the output lines so far: a line holding only `{`
/// joins the previous line when the result fits in `max` bytes, and a line starting with `where` joins it too when the result fits
/// in `max` bytes (else only the keyword moves up).
pub open spec fn braces_from(lines: Seq<Seq<char>>, i: int, result: Seq<Seq<char>>, max: nat) -> Seq<
    Seq<char>,
>
    decreases lines.len() - i,
{
    if i < 0 || i >= lines.len() {
        result
    } else {
        let line = lines[i];
        let t = trim(line);
        if result.len() > 0 && t == seq!['{'] && trim(result.last()).len() > 0 && !ends_with(
            trim(result.last()),
            seq!['{'],
        ) && byte_len(result.last()) + 2 <= max {
            braces_from(lines, i + 1, extend_last(result, seq![' ', '{']), max)
        } else if result.len() > 0 && starts_with(t, where_kw()) && trim(result.last()).len() > 0 {
            if byte_len(result.last()) + 1 + byte_len(t) <= max {
                braces_from(lines, i + 1, extend_last(result, seq![' '] + t), max)
            } else {
                let after = trim_start(t.skip(5));
                let r1 = extend_last(result, seq![' '] + where_kw());
                let r2 = if after.len() > 0 {
                    r1.push(leading_ws(line) + after)
                } else {
                    r1
                };
                braces_from(lines, i + 1, r2, max)
            }
        } else {
            braces_from(lines, i + 1, result.push(line), max)
        }
    }
}

pub open spec fn braces_collapsed(s: Seq<char>, max: nat) -> Seq<char> {
    join_lines(braces_from(split_lines(s), 0, Seq::empty(), max))
}

fn append_to_last(result: &mut Vec<Vec<char>>, tail: &[char])
    requires
        old(result)@.len() > 0,
    ensures
        view_lines(final(result)@) == extend_last(view_lines(old(result)@), tail@),
{
    let ghost before = view_lines(result@);
    let mut last = result.pop().unwrap();
    push_all(&mut last, tail);
    result.push(last);
    assert(view_lines(result@) =~= extend_last(before, tail@));
}

/// Moves a lone `{` back onto the line before it when it fits, and a `where` line onto the signature
/// (or its bounds onto a line of their own when the merged line would be too long).
pub fn collapse_opening_braces(source: &Vec<char>, config: &Config) -> (r: Vec<char>)
    ensures
        r@ == braces_collapsed(source@, config.max_line_length as nat),
{
    let max = config.max_line_length;
    let lines = split_lines_vec(source);
    let ghost ls = view_lines(lines@);
    let mut result: Vec<Vec<char>> = Vec::new();
    let mut i: usize = 0;
    assert(view_lines(result@) =~= Seq::<Seq<char>>::empty());
    while i < lines.len()
        invariant
            i <= lines@.len(),
            ls == view_lines(lines@),
            ls == split_lines(source@),
            braces_from(ls, i as int, view_lines(result@), max as nat) == braces_from(
                ls,
                0,
                Seq::empty(),
                max as nat,
            ),
        decreases lines@.len() - i,
    {
        let line = &lines[i];
        let t = trim_vec(line);
        let ghost before = view_lines(result@);
        assert(line@ == ls[i as int]);
        let mut done = false;
        if result.len() > 0 {
            let prev_t = trim_vec(&result[result.len() - 1]);
            assert(prev_t@ == trim(before.last()));
            let t_is_brace = t.len() == 1 && t[0] == '{';
            assert(t_is_brace == (t@ == seq!['{'])) by {
                if t@.len() == 1 && t@[0] == '{' {
                    assert(t@ =~= seq!['{']);
                }
            }
            let lbrace: [char; 1] = ['{'];
            assert(lbrace@ =~= seq!['{']);
            let where_kw_arr: [char; 5] = ['w', 'h', 'e', 'r', 'e'];
            assert(where_kw_arr@ =~= where_kw());
            let prev_len = byte_len_of(&result[result.len() - 1]);
            proof {
                crate::text::lemma_byte_len_bounds(before.last());
            }
            if t_is_brace && prev_t.len() > 0 && !ends_with_vec(&prev_t, &lbrace) && prev_len + 2
                <= max as u128 {
                let sp_brace: [char; 2] = [' ', '{'];
                assert(sp_brace@ =~= seq![' ', '{']);
                append_to_last(&mut result, &sp_brace);
                done = true;
                assert(braces_from(ls, i as int, before, max as nat) == braces_from(ls, i + 1, view_lines(result@), max as nat));
            } else if starts_with_vec(&t, &where_kw_arr) && prev_t.len() > 0 {
                let t_len = byte_len_of(&t);
                proof {
                    crate::text::lemma_byte_len_bounds(before.last());
                    crate::text::lemma_byte_len_bounds(t@);
                }
                if prev_len + 1 + t_len <= max as u128 {
                    let mut tail: Vec<char> = Vec::new();
                    tail.push(' ');
                    push_all(&mut tail, t.as_slice());
                    assert(tail@ =~= seq![' '] + t@);
                    append_to_last(&mut result, tail.as_slice());
                    assert(braces_from(ls, i as int, before, max as nat) == braces_from(ls, i + 1, view_lines(result@), max as nat));
                } else {
                    let rest = sub_vec(&t, 5, t.len());
                    let after = trim_start_vec(&rest);
                    let sp_where: [char; 6] = [' ', 'w', 'h', 'e', 'r', 'e'];
                    assert(sp_where@ =~= seq![' '] + where_kw());
                    append_to_last(&mut result, &sp_where);
                    assert(rest@ =~= t@.skip(5));
                    let ghost r1 = view_lines(result@);
                    if after.len() > 0 {
                        let mut l = leading_ws_vec(line);
                        push_all(&mut l, after.as_slice());
                        result.push(l);
                        assert(view_lines(result@) =~= r1.push(leading_ws(ls[i as int]) + after@));
                    }
                    assert(braces_from(ls, i as int, before, max as nat) == braces_from(ls, i + 1, view_lines(result@), max as nat));
                }
                done = true;
            }
        }
        if !done {
            result.push(copy_vec(line));
            assert(view_lines(result@) =~= before.push(ls[i as int]));
        }
        assert(braces_from(ls, i as int, before, max as nat) == braces_from(ls, i + 1, view_lines(result@), max as nat));
        i = i + 1;
    }
    join_lines_vec(&result)
}

// ============
// === Laws ===
// ============

/// Element `c` is a whitespace token that covers exactly `a..b`.
pub open spec fn is_ws_token_span(tv: TreeV, c: int, a: int, b: int) -> bool {
    &&& kind_at(tv, c) == WHITESPACE
    &&& tv.elems[c].lo == a
    &&& tv.elems[c].hi == b
}

/// What an expansion edit may do: put one line break (after a comma that closes a parameter
/// list) at a point, or in place of one whole whitespace token.
pub open spec fn expand_edit_ok(tv: TreeV, e: (int, int, Seq<char>)) -> bool {
    &&& e.2 == seq!['\n'] || e.2 == seq![',', '\n']
    &&& e.0 == e.1 || exists|c: int| 0 <= c < tv.elems.len() && #[trigger] is_ws_token_span(tv, c, e.0, e.1)
}

proof fn lemma_siblings_bound(tv: TreeV, j: int, stop: int)
    ensures
        forall|k: int|
            0 <= k < siblings_from(tv, j, stop).len() ==> 0 <= #[trigger] siblings_from(tv, j, stop)[k]
                < tv.elems.len(),
    decreases stop - j,
{
    if !(j < 0 || j >= stop || j >= tv.elems.len() || tv.elems[j].end <= j) {
        let nx = next_sib_index(tv, j, stop);
        lemma_siblings_bound(tv, nx, stop);
        let rest = siblings_from(tv, nx, stop);
        assert forall|k: int| 0 <= k < siblings_from(tv, j, stop).len() implies 0
            <= #[trigger] siblings_from(tv, j, stop)[k] < tv.elems.len() by {
            if k > 0 {
                assert(siblings_from(tv, j, stop)[k] == rest[k - 1]);
            }
        }
    }
}

proof fn lemma_child_edits_ok(tv: TreeV, cs: Seq<int>, k: int, commas_only: bool, with_comma: bool)
    requires
        k <= cs.len(),
        forall|q: int| 0 <= q < cs.len() ==> 0 <= #[trigger] cs[q] < tv.elems.len(),
    ensures
        forall|m: int|
            0 <= m < child_edits(tv, cs, k, commas_only, with_comma).len() ==> expand_edit_ok(
                tv,
                #[trigger] child_edits(tv, cs, k, commas_only, with_comma)[m],
            ),
    decreases k,
{
    if k > 0 {
        lemma_child_edits_ok(tv, cs, k - 1, commas_only, with_comma);
        let prev = child_edits(tv, cs, k - 1, commas_only, with_comma);
        let cur = child_edit(tv, cs, k - 1, commas_only, with_comma);
        let c = cs[k - 1];
        if kind_at(tv, c) == WHITESPACE && cur.len() > 0 {
            assert(is_ws_token_span(tv, c, tv.elems[c].lo as int, tv.elems[c].hi as int));
        }
        assert forall|m: int| 0 <= m < (prev + cur).len() implies expand_edit_ok(tv, #[trigger] (prev + cur)[m]) by {
            if m < prev.len() {
                assert((prev + cur)[m] == prev[m]);
            } else {
                assert((prev + cur)[m] == cur[m - prev.len()]);
            }
        }
    }
}

proof fn lemma_expand_edits_ok(tv: TreeV, src: Seq<char>, i: int, max: nat)
    requires
        i <= tv.elems.len(),
    ensures
        forall|m: int|
            0 <= m < expand_edits(tv, src, i, max).len() ==> expand_edit_ok(
                tv,
                #[trigger] expand_edits(tv, src, i, max)[m],
            ),
    decreases i,
{
    if i > 0 {
        lemma_expand_edits_ok(tv, src, i - 1, max);
        let prev = expand_edits(tv, src, i - 1, max);
        let cur = node_expand_edits(tv, src, i - 1, max);
        let cs = child_list(tv, i - 1);
        lemma_siblings_bound(tv, i, tv.elems[i - 1].end as int);
        let kk = kind_at(tv, i - 1);
        lemma_child_edits_ok(tv, cs, cs.len() as int, kk == TOKEN_TREE, kk == PARAM_LIST);
        assert forall|m: int| 0 <= m < (prev + cur).len() implies expand_edit_ok(tv, #[trigger] (prev + cur)[m]) by {
            if m < prev.len() {
                assert((prev + cur)[m] == prev[m]);
            } else {
                assert((prev + cur)[m] == cur[m - prev.len()]);
            }
        }
    }
}

/// Expanding long blocks only ever puts a single line break (after a comma closing a
/// parameter list) at a point of the text, or in place of one whole whitespace token.
pub proof fn law_expand_only_breaks_lines(src: Seq<char>, max: nat)
    ensures
        parsed_tree(src) matches Some(tv) ==> ({
            let es = expand_edits(tv, src, tv.elems.len() as int, max);
            forall|m: int| 0 <= m < es.len() ==> expand_edit_ok(tv, #[trigger] es[m])
        }),
{
    if let Some(tv) = parsed_tree(src) {
        lemma_expand_edits_ok(tv, src, tv.elems.len() as int, max);
    }
}

/// A line that starts with `where` (after indentation) and follows a non-blank line is
/// joined onto that line, after one space, whenever the joined line fits in `max` bytes.
pub proof fn law_where_joined_when_it_fits(
    lines: Seq<Seq<char>>,
    i: int,
    result: Seq<Seq<char>>,
    max: nat,
)
    requires
        0 <= i < lines.len(),
        result.len() > 0,
        trim(result.last()).len() > 0,
        starts_with(trim(lines[i]), seq!['w', 'h', 'e', 'r', 'e']),
        byte_len(result.last()) + 1 + byte_len(trim(lines[i])) <= max,
    ensures
        braces_from(lines, i, result, max) == braces_from(
            lines,
            i + 1,
            result.update(result.len() - 1, result.last() + seq![' '] + trim(lines[i])),
            max,
        ),
{
    let t = trim(lines[i]);
    assert(t.take(5) =~= seq!['w', 'h', 'e', 'r', 'e']);
    assert(t != seq!['{']) by {
        if t == seq!['{'] {
            assert(t.len() == 1);
        }
    }
    assert(where_kw() =~= seq!['w', 'h', 'e', 'r', 'e']);
    assert(result.last() + (seq![' '] + t) =~= result.last() + seq![' '] + t);
    assert(extend_last(result, seq![' '] + t) =~= result.update(
        result.len() - 1,
        result.last() + seq![' '] + t,
    ));
}

/// A signature line followed by a `where` line becomes one line, the two joined by a space,
/// when that line fits in `max` bytes.
pub proof fn law_where_line_joined_to_signature(sig: Seq<char>, w: Seq<char>, max: nat)
    requires
        break_free(sig),
        break_free(w),
        trim(sig).len() > 0,
        starts_with(trim(w), seq!['w', 'h', 'e', 'r', 'e']),
        byte_len(sig) + 1 + byte_len(trim(w)) <= max,
    ensures
        braces_collapsed(sig + seq!['\n'] + w, max) == sig + seq![' '] + trim(w),
{
    let ls = seq![sig, w];
    assert(join_lines(ls.drop_last()) == sig) by {
        assert(ls.drop_last() =~= seq![sig]);
    }
    assert(join_lines(ls) =~= sig + seq!['\n'] + w);
    lemma_split_join(ls);
    let r1 = Seq::<Seq<char>>::empty().push(sig);
    assert(braces_from(ls, 0, Seq::empty(), max) == braces_from(ls, 1, r1, max));
    law_where_joined_when_it_fits(ls, 1, r1, max);
    let r2 = r1.update(0, sig + seq![' '] + trim(w));
    assert(r2 =~= seq![sig + seq![' '] + trim(w)]);
    assert(braces_from(ls, 2, r2, max) == r2);
}

/// A line holding only `{` joins the non-blank line before it (unless that line already
/// ends with `{`) exactly when the joined line fits in `max` bytes; otherwise it stays on
/// its own line.
pub proof fn law_lone_brace_joined_iff_fits(
    lines: Seq<Seq<char>>,
    i: int,
    result: Seq<Seq<char>>,
    max: nat,
)
    requires
        0 <= i < lines.len(),
        result.len() > 0,
        trim(result.last()).len() > 0,
        !ends_with(trim(result.last()), seq!['{']),
        trim(lines[i]) == seq!['{'],
    ensures
        byte_len(result.last()) + 2 <= max ==> braces_from(lines, i, result, max) == braces_from(
            lines,
            i + 1,
            result.update(result.len() - 1, result.last() + seq![' ', '{']),
            max,
        ),
        byte_len(result.last()) + 2 > max ==> braces_from(lines, i, result, max) == braces_from(
            lines,
            i + 1,
            result.push(lines[i]),
            max,
        ),
{
    assert(!starts_with(trim(lines[i]), where_kw())) by {
        if starts_with(trim(lines[i]), where_kw()) {
            assert(trim(lines[i]).len() >= 5);
        }
    }
}

} // verus!
