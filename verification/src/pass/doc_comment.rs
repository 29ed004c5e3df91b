use vstd::prelude::*;

use crate::config::Config;
use crate::text::break_free;
use crate::text::byte_len;
use crate::text::is_ws;
use crate::text::lemma_skip_ws;
use crate::text::lemma_skip_ws_back;
use crate::text::lemma_split_join;
use crate::text::lemma_split_lines_breaks;
use crate::text::skip_ws;
use crate::text::skip_ws_back;
use crate::text::byte_len_of;
use crate::text::chars_of;
use crate::text::copy_vec;
use crate::text::join_lines;
use crate::text::join_lines_vec;
use crate::text::leading_ws;
use crate::text::leading_ws_vec;
use crate::text::push_all;
use crate::text::push_line;
use crate::text::split_lines;
use crate::text::split_lines_vec;
use crate::text::starts_with;
use crate::text::starts_with_vec;
use crate::text::string_from_chars;
use crate::text::sub_vec;
use crate::text::trim;
use crate::text::trim_end;
use crate::text::trim_end_vec;
use crate::text::trim_vec;
use crate::text::view_lines;

verus! {

// ===========================
// === format_doc_comments ===
// ===========================

/// The CommonMark text that comrak renders for `markdown` with line width `width`.
pub uninterp spec fn commonmark_render(markdown: Seq<char>, width: usize) -> Seq<char>;

/// Calls `comrak::markdown_to_commonmark` with default options but for `render.width`,
/// which is set to `width`. The contract only names the result: comrak's rendering is not
/// restated here.
#[verifier::external_body]
fn render_commonmark(markdown: &str, width: usize) -> (r: String)
    ensures
        r@ == commonmark_render(markdown@, width),
{
    let mut options = comrak::Options::default();
    options.render.width = width;
    comrak::markdown_to_commonmark(markdown, &options)
}

pub open spec fn outer_doc() -> Seq<char> {
    seq!['/', '/', '/']
}

pub open spec fn inner_doc() -> Seq<char> {
    seq!['/', '/', '!']
}

/// The doc-comment marker that a trimmed line starts with, if any.
pub open spec fn doc_prefix(t: Seq<char>) -> Option<Seq<char>> {
    if starts_with(t, outer_doc()) {
        Some(outer_doc())
    } else if starts_with(t, inner_doc()) {
        Some(inner_doc())
    } else {
        None
    }
}

/// The end of the block of lines from `i` whose trimmed text starts with `p`.
pub open spec fn block_end(lines: Seq<Seq<char>>, i: int, p: Seq<char>) -> int
    decreases lines.len() - i,
{
    if 0 <= i < lines.len() && starts_with(trim(lines[i]), p) {
        block_end(lines, i + 1, p)
    } else {
        i
    }
}

pub proof fn lemma_block_end(lines: Seq<Seq<char>>, i: int, p: Seq<char>)
    requires
        0 <= i <= lines.len(),
    ensures
        i <= block_end(lines, i, p) <= lines.len(),
    decreases lines.len() - i,
{
    if i < lines.len() && starts_with(trim(lines[i]), p) {
        lemma_block_end(lines, i + 1, p);
    }
}

/// A doc line's content: the trimmed line after its marker and one optional space.
pub open spec fn doc_content(line: Seq<char>, p: Seq<char>) -> Seq<char> {
    let after = trim(line).skip(p.len() as int);
    if after.len() > 0 && after[0] == ' ' {
        after.skip(1)
    } else {
        after
    }
}

/// The contents of the doc lines `lines[a..b]`.
pub open spec fn block_contents(lines: Seq<Seq<char>>, a: int, b: int, p: Seq<char>) -> Seq<
    Seq<char>,
>
    decreases b - a,
{
    if b <= a {
        Seq::empty()
    } else {
        block_contents(lines, a, b - 1, p).push(doc_content(lines[b - 1], p))
    }
}

/// The width left for comment text on a line with this indentation:
/// `max - indent - (marker + space)`, saturating at zero.
pub open spec fn available_width(max: nat, indent: Seq<char>) -> nat {
    let a: nat = if max >= byte_len(indent) {
        (max - byte_len(indent)) as nat
    } else {
        0
    };
    if a >= 4 {
        (a - 4) as nat
    } else {
        0
    }
}

/// The doc lines made of the rendered text `r[..k]`: the marker alone for an empty line,
/// else the marker, a space and the line, all at the block's indentation.
pub open spec fn doc_lines_upto(indent: Seq<char>, p: Seq<char>, rs: Seq<Seq<char>>, k: int) -> Seq<
    Seq<char>,
>
    decreases k,
{
    if k <= 0 {
        Seq::empty()
    } else {
        let line = rs[k - 1];
        doc_lines_upto(indent, p, rs, k - 1).push(
            if line.len() == 0 {
                indent + p
            } else {
                indent + p + seq![' '] + line
            },
        )
    }
}

/// The doc lines for rendered Markdown (its trailing whitespace dropped).
pub open spec fn doc_lines(indent: Seq<char>, p: Seq<char>, rendered: Seq<char>) -> Seq<Seq<char>> {
    let rs = split_lines(trim_end(rendered));
    doc_lines_upto(indent, p, rs, rs.len() as int)
}

/// The output lines for `lines[i..]`, given the output so far: each block of doc lines is
/// reflowed by the Markdown renderer to the width its indentation leaves (at least 20),
/// and kept as it is when less is left.
pub open spec fn docs_from(lines: Seq<Seq<char>>, i: int, result: Seq<Seq<char>>, max: nat) -> Seq<
    Seq<char>,
>
    decreases lines.len() - i,
{
    if i < 0 || i >= lines.len() {
        result
    } else {
        match doc_prefix(trim(lines[i])) {
            None => docs_from(lines, i + 1, result.push(lines[i]), max),
            Some(p) => {
                let indent = leading_ws(lines[i]);
                let j = block_end(lines, i, p);
                proof {
                    lemma_block_end(lines, i + 1, p);
                }
                let md = join_lines(block_contents(lines, i, j, p));
                let w = available_width(max, indent);
                if j <= i {
                    result
                } else if w < 20 {
                    docs_from(lines, j, result + lines.subrange(i, j), max)
                } else {
                    docs_from(
                        lines,
                        j,
                        result + doc_lines(indent, p, commonmark_render(md, w as usize)),
                        max,
                    )
                }
            },
        }
    }
}

/// Reflows `///` and `//!` comment blocks as Markdown within the line length.
pub open spec fn doc_comments_formatted(s: Seq<char>, max: nat) -> Seq<char> {
    join_lines(docs_from(split_lines(s), 0, Seq::empty(), max))
}

/// The doc comment lines for text that the Markdown renderer gave back.
pub fn doc_comment_lines(indent: &Vec<char>, prefix: &Vec<char>, rendered: &Vec<char>) -> (r: Vec<
    Vec<char>,
>)
    ensures
        view_lines(r@) == doc_lines(indent@, prefix@, rendered@),
{
    let te = trim_end_vec(rendered);
    let rs = split_lines_vec(&te);
    let ghost rv = view_lines(rs@);
    let mut r: Vec<Vec<char>> = Vec::new();
    let mut k: usize = 0;
    assert(view_lines(r@) =~= doc_lines_upto(indent@, prefix@, rv, 0));
    while k < rs.len()
        invariant
            k <= rs@.len(),
            rv == view_lines(rs@),
            view_lines(r@) == doc_lines_upto(indent@, prefix@, rv, k as int),
        decreases rs@.len() - k,
    {
        let mut l = copy_vec(indent);
        push_all(&mut l, prefix.as_slice());
        if rs[k].len() > 0 {
            l.push(' ');
            push_all(&mut l, rs[k].as_slice());
        }
        let ghost lv = l@;
        push_line(&mut r, l);
        assert(lv == if rv[k as int].len() == 0 {
            indent@ + prefix@
        } else {
            indent@ + prefix@ + seq![' '] + rv[k as int]
        });
        k = k + 1;
    }
    r
}

fn doc_content_vec(line: &Vec<char>, plen: usize) -> (r: Vec<char>)
    requires
        plen <= trim(line@).len(),
    ensures
        r@ == ({
            let after = trim(line@).skip(plen as int);
            if after.len() > 0 && after[0] == ' ' {
                after.skip(1)
            } else {
                after
            }
        }),
{
    let t = trim_vec(line);
    let after = sub_vec(&t, plen, t.len());
    if after.len() > 0 && after[0] == ' ' {
        sub_vec(&after, 1, after.len())
    } else {
        after
    }
}

fn available_width_of(max: usize, indent: &Vec<char>) -> (w: usize)
    ensures
        w == available_width(max as nat, indent@),
{
    let ib = byte_len_of(indent);
    let a: u128 = if max as u128 >= ib {
        max as u128 - ib
    } else {
        0
    };
    if a >= 4 {
        (a - 4) as usize
    } else {
        0
    }
}

/// Reflows `///` and `//!` comment blocks as Markdown within the line length.
pub fn format_doc_comments(source: &Vec<char>, config: &Config) -> (r: Vec<char>)
    ensures
        r@ == doc_comments_formatted(source@, config.max_line_length as nat),
{
    let max = config.max_line_length;
    let lines = split_lines_vec(source);
    let ghost ls = view_lines(lines@);
    let n = lines.len();
    let outer: [char; 3] = ['/', '/', '/'];
    let inner: [char; 3] = ['/', '/', '!'];
    assert(outer@ =~= outer_doc());
    assert(inner@ =~= inner_doc());
    let mut result: Vec<Vec<char>> = Vec::new();
    let mut i: usize = 0;
    assert(view_lines(result@) =~= Seq::<Seq<char>>::empty());
    while i < n
        invariant
            n == lines@.len(),
            ls == view_lines(lines@),
            ls == split_lines(source@),
            i <= n,
            outer@ == outer_doc(),
            inner@ == inner_doc(),
            docs_from(ls, i as int, view_lines(result@), max as nat) == docs_from(
                ls,
                0,
                Seq::empty(),
                max as nat,
            ),
        decreases n - i,
    {
        let t = trim_vec(&lines[i]);
        let ghost before = view_lines(result@);
        let prefix: Vec<char> = if starts_with_vec(&t, &outer) {
            let mut p: Vec<char> = Vec::new();
            push_all(&mut p, &outer);
            p
        } else if starts_with_vec(&t, &inner) {
            let mut p: Vec<char> = Vec::new();
            push_all(&mut p, &inner);
            p
        } else {
            result.push(copy_vec(&lines[i]));
            assert(view_lines(result@) =~= before.push(ls[i as int]));
            i = i + 1;
            continue ;
        };
        assert(doc_prefix(trim(ls[i as int])) == Some(prefix@));
        let indent = leading_ws_vec(&lines[i]);
        let block_start = i;
        let mut block: Vec<Vec<char>> = Vec::new();
        let ghost p = prefix@;
        proof {
            lemma_block_end(ls, i as int, p);
        }
        assert(view_lines(block@) =~= block_contents(ls, block_start as int, i as int, p));
        while i < n && starts_with_vec(&trim_vec(&lines[i]), prefix.as_slice())
            invariant
                n == lines@.len(),
                ls == view_lines(lines@),
                block_start <= i <= n,
                p == prefix@,
                p.len() == 3,
                block_end(ls, i as int, p) == block_end(ls, block_start as int, p),
                view_lines(block@) == block_contents(ls, block_start as int, i as int, p),
            decreases n - i,
        {
            let c = doc_content_vec(&lines[i], 3);
            let ghost b0 = view_lines(block@);
            block.push(c);
            assert(view_lines(block@) =~= b0.push(doc_content(ls[i as int], p)));
            i = i + 1;
        }
        assert(i as int == block_end(ls, block_start as int, p));
        let md = join_lines_vec(&block);
        let w = available_width_of(max, &indent);
        assert(i > block_start);
        if w < 20 {
            let mut k = block_start;
            let ghost r0 = view_lines(result@);
            while k < i
                invariant
                    block_start <= k <= i <= n,
                    n == lines@.len(),
                    ls == view_lines(lines@),
                    view_lines(result@) == r0 + ls.subrange(block_start as int, k as int),
                decreases i - k,
            {
                let ghost rr = view_lines(result@);
                push_line(&mut result, copy_vec(&lines[k]));
                assert(view_lines(result@) =~= r0 + ls.subrange(block_start as int, k + 1));
                k = k + 1;
            }
        } else {
            let md_s = string_from_chars(md.as_slice());
            let rendered_s = render_commonmark(md_s.as_str(), w);
            let rendered = chars_of(rendered_s.as_str());
            let out_lines = doc_comment_lines(&indent, &prefix, &rendered);
            let mut k: usize = 0;
            let ghost r0 = view_lines(result@);
            while k < out_lines.len()
                invariant
                    k <= out_lines@.len(),
                    view_lines(result@) == r0 + view_lines(out_lines@).take(k as int),
                decreases out_lines@.len() - k,
            {
                push_line(&mut result, copy_vec(&out_lines[k]));
                assert(view_lines(result@) =~= r0 + view_lines(out_lines@).take(k + 1));
                k = k + 1;
            }
            assert(view_lines(out_lines@).take(out_lines@.len() as int) =~= view_lines(out_lines@));
        }
    }
    join_lines_vec(&result)
}

// ============
// === Laws ===
// ============

/// Every line of a reflowed doc block starts with the block's indentation and its marker,
/// and there is one line per line of the rendered text.
pub proof fn law_doc_lines_keep_marker(indent: Seq<char>, p: Seq<char>, rendered: Seq<char>)
    ensures
        doc_lines(indent, p, rendered).len() == split_lines(trim_end(rendered)).len(),
        forall|i: int|
            0 <= i < doc_lines(indent, p, rendered).len() ==> starts_with(
                #[trigger] doc_lines(indent, p, rendered)[i],
                indent + p,
            ),
{
    let rs = split_lines(trim_end(rendered));
    lemma_doc_lines_upto(indent, p, rs, rs.len() as int);
}

proof fn lemma_doc_lines_upto(indent: Seq<char>, p: Seq<char>, rs: Seq<Seq<char>>, k: int)
    requires
        0 <= k <= rs.len(),
    ensures
        doc_lines_upto(indent, p, rs, k).len() == k,
        forall|i: int|
            0 <= i < k ==> starts_with(#[trigger] doc_lines_upto(indent, p, rs, k)[i], indent + p),
    decreases k,
{
    if k > 0 {
        lemma_doc_lines_upto(indent, p, rs, k - 1);
        let prev = doc_lines_upto(indent, p, rs, k - 1);
        let cur = doc_lines_upto(indent, p, rs, k);
        assert forall|i: int| 0 <= i < k implies starts_with(#[trigger] cur[i], indent + p) by {
            if i < k - 1 {
                assert(cur[i] == prev[i]);
            } else {
                let line = rs[k - 1];
                if line.len() == 0 {
                    assert(cur[i] == indent + p);
                    assert((indent + p).take((indent + p).len() as int) =~= indent + p);
                } else {
                    assert(cur[i] == indent + p + seq![' '] + line);
                    assert((indent + p + seq![' '] + line).take((indent + p).len() as int) =~= indent
                        + p);
                }
            }
        }
    }
}

/// The lines that are not doc comments, in order.
pub open spec fn plain_lines(ls: Seq<Seq<char>>) -> Seq<Seq<char>>
    decreases ls.len(),
{
    if ls.len() == 0 {
        ls
    } else if doc_prefix(trim(ls.last())) is Some {
        plain_lines(ls.drop_last())
    } else {
        plain_lines(ls.drop_last()).push(ls.last())
    }
}

proof fn lemma_plain_concat(a: Seq<Seq<char>>, b: Seq<Seq<char>>)
    ensures
        plain_lines(a + b) == plain_lines(a) + plain_lines(b),
    decreases b.len(),
{
    if b.len() == 0 {
        assert(a + b =~= a);
        assert(plain_lines(a) + plain_lines(b) =~= plain_lines(a));
    } else {
        lemma_plain_concat(a, b.drop_last());
        assert((a + b).drop_last() =~= a + b.drop_last());
        assert((a + b).last() == b.last());
        if doc_prefix(trim(b.last())) is None {
            assert(plain_lines(a) + plain_lines(b.drop_last()).push(b.last()) =~= (plain_lines(a)
                + plain_lines(b.drop_last())).push(b.last()));
        }
    }
}

proof fn lemma_plain_all_doc(ls: Seq<Seq<char>>)
    requires
        forall|k: int| 0 <= k < ls.len() ==> doc_prefix(trim(#[trigger] ls[k])) is Some,
    ensures
        plain_lines(ls) == Seq::<Seq<char>>::empty(),
    decreases ls.len(),
{
    if ls.len() > 0 {
        let d = ls.drop_last();
        assert forall|k: int| 0 <= k < d.len() implies doc_prefix(trim(#[trigger] d[k])) is Some by {
            assert(d[k] == ls[k]);
        }
        assert(doc_prefix(trim(ls[ls.len() - 1])) is Some);
        lemma_plain_all_doc(d);
    }
}

proof fn lemma_block_lines_doc(lines: Seq<Seq<char>>, i: int, p: Seq<char>)
    requires
        0 <= i <= lines.len(),
    ensures
        forall|k: int| i <= k < block_end(lines, i, p) ==> starts_with(trim(#[trigger] lines[k]), p),
    decreases lines.len() - i,
{
    if i < lines.len() && starts_with(trim(lines[i]), p) {
        lemma_block_lines_doc(lines, i + 1, p);
    }
}

proof fn lemma_marker_doc(t: Seq<char>, p: Seq<char>)
    requires
        p == outer_doc() || p == inner_doc(),
        starts_with(t, p),
    ensures
        doc_prefix(t) is Some,
{
}

/// A line made of whitespace, a doc marker and more text is a doc line.
proof fn lemma_marked_line_doc(indent: Seq<char>, p: Seq<char>, rest: Seq<char>)
    requires
        forall|k: int| 0 <= k < indent.len() ==> is_ws(#[trigger] indent[k]),
        p == outer_doc() || p == inner_doc(),
    ensures
        doc_prefix(trim(indent + p + rest)) is Some,
{
    let s = indent + p + rest;
    let n = indent.len() as int;
    assert(s[n] == '/');
    assert(s[n + 2] == p[2]);
    assert(!is_ws('/'));
    assert(!is_ws('!'));
    lemma_skip_ws(s, 0, s.len() as int);
    let a = skip_ws(s, 0, s.len() as int);
    if a < n {
        assert(s[a] == indent[a]);
    }
    assert(a == n);
    lemma_skip_ws_back(s, a, s.len() as int);
    let b = skip_ws_back(s, a, s.len() as int);
    if b < n + 3 {
        assert(is_ws(s[n + 2]));
    }
    let t = trim(s);
    assert(t.take(3) =~= p);
    lemma_marker_doc(t, p);
}

proof fn lemma_leading_ws_all_ws(line: Seq<char>)
    ensures
        forall|k: int| 0 <= k < leading_ws(line).len() ==> is_ws(#[trigger] leading_ws(line)[k]),
{
    lemma_skip_ws(line, 0, line.len() as int);
    assert forall|k: int| 0 <= k < leading_ws(line).len() implies is_ws(#[trigger] leading_ws(line)[k]) by {
        assert(leading_ws(line)[k] == line[k]);
    }
}

proof fn lemma_doc_lines_are_doc(indent: Seq<char>, p: Seq<char>, rendered: Seq<char>)
    requires
        forall|k: int| 0 <= k < indent.len() ==> is_ws(#[trigger] indent[k]),
        p == outer_doc() || p == inner_doc(),
    ensures
        forall|k: int|
            0 <= k < doc_lines(indent, p, rendered).len() ==> doc_prefix(
                trim(#[trigger] doc_lines(indent, p, rendered)[k]),
            ) is Some,
        forall|k: int|
            0 <= k < doc_lines(indent, p, rendered).len() ==> break_free(
                #[trigger] doc_lines(indent, p, rendered)[k],
            ) || !break_free(indent),
        doc_lines(indent, p, rendered).len() >= 1,
{
    let rs = split_lines(trim_end(rendered));
    lemma_split_lines_breaks(trim_end(rendered));
    lemma_doc_lines_upto(indent, p, rs, rs.len() as int);
    lemma_doc_lines_upto_shape(indent, p, rs, rs.len() as int);
    let ds = doc_lines(indent, p, rendered);
    assert forall|k: int| 0 <= k < ds.len() implies doc_prefix(trim(#[trigger] ds[k])) is Some by {
        let line = rs[k];
        if line.len() == 0 {
            assert(ds[k] == indent + p);
            assert(indent + p + Seq::<char>::empty() =~= indent + p);
            lemma_marked_line_doc(indent, p, Seq::empty());
        } else {
            assert(ds[k] == indent + p + seq![' '] + line);
            assert(indent + p + (seq![' '] + line) =~= indent + p + seq![' '] + line);
            lemma_marked_line_doc(indent, p, seq![' '] + line);
        }
    }
    assert forall|k: int| 0 <= k < ds.len() implies break_free(#[trigger] ds[k]) || !break_free(indent) by {
        if break_free(indent) {
            let line = rs[k];
            assert(break_free(line));
            if line.len() == 0 {
                assert(ds[k] == indent + p);
                assert forall|m: int| 0 <= m < ds[k].len() implies #[trigger] ds[k][m] != '\n' by {
                    if m < indent.len() {
                        assert(ds[k][m] == indent[m]);
                    }
                }
            } else {
                let d = indent + p + seq![' '] + line;
                assert(ds[k] == d);
                assert forall|m: int| 0 <= m < d.len() implies #[trigger] d[m] != '\n' by {
                    if m < indent.len() {
                        assert(d[m] == indent[m]);
                    } else if m >= indent.len() + 4 {
                        assert(d[m] == line[m - indent.len() - 4]);
                    }
                }
            }
        }
    }
}

proof fn lemma_doc_lines_upto_shape(indent: Seq<char>, p: Seq<char>, rs: Seq<Seq<char>>, k: int)
    requires
        0 <= k <= rs.len(),
    ensures
        forall|i: int|
            0 <= i < k ==> #[trigger] doc_lines_upto(indent, p, rs, k)[i] == (if rs[i].len() == 0 {
                indent + p
            } else {
                indent + p + seq![' '] + rs[i]
            }),
    decreases k,
{
    if k > 0 {
        lemma_doc_lines_upto_shape(indent, p, rs, k - 1);
        lemma_doc_lines_upto(indent, p, rs, k - 1);
        let prev = doc_lines_upto(indent, p, rs, k - 1);
        assert forall|i: int| 0 <= i < k implies #[trigger] doc_lines_upto(indent, p, rs, k)[i] == (if rs[i].len() == 0 {
            indent + p
        } else {
            indent + p + seq![' '] + rs[i]
        }) by {
            if i < k - 1 {
                assert(doc_lines_upto(indent, p, rs, k)[i] == prev[i]);
            }
        }
    }
}

proof fn lemma_docs_from_plain(lines: Seq<Seq<char>>, i: int, result: Seq<Seq<char>>, max: nat)
    requires
        0 <= i <= lines.len(),
    ensures
        plain_lines(docs_from(lines, i, result, max)) == plain_lines(result) + plain_lines(
            lines.subrange(i, lines.len() as int),
        ),
    decreases lines.len() - i,
{
    let n = lines.len() as int;
    if i >= n {
        assert(lines.subrange(i, n) =~= Seq::<Seq<char>>::empty());
        assert(plain_lines(result) + plain_lines(Seq::<Seq<char>>::empty()) =~= plain_lines(result));
    } else {
        let l = lines[i];
        assert(lines.subrange(i, n) =~= seq![l] + lines.subrange(i + 1, n));
        lemma_plain_concat(seq![l], lines.subrange(i + 1, n));
        assert(seq![l].drop_last() =~= Seq::<Seq<char>>::empty());
        assert(seq![l].last() == l);
        match doc_prefix(trim(l)) {
            None => {
                assert(docs_from(lines, i, result, max) == docs_from(lines, i + 1, result.push(l), max));
                assert(plain_lines(seq![l]) == plain_lines(Seq::<Seq<char>>::empty()).push(l));
                lemma_docs_from_plain(lines, i + 1, result.push(l), max);
                assert(plain_lines(result.push(l)) == plain_lines(result).push(l)) by {
                    assert(result.push(l).drop_last() =~= result);
                }
                assert(Seq::<Seq<char>>::empty().push(l) =~= seq![l]);
                assert(plain_lines(result).push(l) + plain_lines(lines.subrange(i + 1, n))
                    =~= plain_lines(result) + (seq![l] + plain_lines(lines.subrange(i + 1, n))));
            },
            Some(p) => {
                let indent = leading_ws(l);
                let j = block_end(lines, i, p);
                lemma_block_end(lines, i, p);
                lemma_block_lines_doc(lines, i, p);
                assert(starts_with(trim(l), p));
                lemma_block_end(lines, i + 1, p);
                assert(j == block_end(lines, i + 1, p));
                assert(j > i);
                let md = join_lines(block_contents(lines, i, j, p));
                let w = available_width(max, indent);
                assert(p == outer_doc() || p == inner_doc());
                assert forall|k: int| 0 <= k < lines.subrange(i, j).len() implies doc_prefix(
                    trim(#[trigger] lines.subrange(i, j)[k]),
                ) is Some by {
                    assert(lines.subrange(i, j)[k] == lines[i + k]);
                    assert(starts_with(trim(lines[i + k]), p));
                    lemma_marker_doc(trim(lines[i + k]), p);
                }
                lemma_plain_all_doc(lines.subrange(i, j));
                assert(lines.subrange(i, n) =~= lines.subrange(i, j) + lines.subrange(j, n));
                lemma_plain_concat(lines.subrange(i, j), lines.subrange(j, n));
                let added = if w < 20 {
                    lines.subrange(i, j)
                } else {
                    doc_lines(indent, p, commonmark_render(md, w as usize))
                };
                if w >= 20 {
                    lemma_leading_ws_all_ws(l);
                    lemma_doc_lines_are_doc(indent, p, commonmark_render(md, w as usize));
                    lemma_plain_all_doc(added);
                }
                assert(doc_prefix(trim(lines[i])) == Some(p));
                assert(docs_from(lines, i, result, max) == docs_from(lines, j, result + added, max));
                lemma_docs_from_plain(lines, j, result + added, max);
                lemma_plain_concat(result, added);
                assert(plain_lines(result) + Seq::<Seq<char>>::empty() =~= plain_lines(result));
                assert(Seq::<Seq<char>>::empty() + plain_lines(lines.subrange(j, n)) =~= plain_lines(
                    lines.subrange(j, n),
                ));
                assert(plain_lines(added) == Seq::<Seq<char>>::empty());
                assert(plain_lines(lines.subrange(i, n)) == plain_lines(lines.subrange(j, n)));
                assert(plain_lines(result + added) == plain_lines(result));
                assert(plain_lines(docs_from(lines, i, result, max)) == plain_lines(result) + plain_lines(
                    lines.subrange(j, n),
                ));
            },
        }
    }
}

proof fn lemma_docs_from_break_free(lines: Seq<Seq<char>>, i: int, result: Seq<Seq<char>>, max: nat)
    requires
        0 <= i <= lines.len(),
        forall|k: int| 0 <= k < lines.len() ==> break_free(#[trigger] lines[k]),
        forall|k: int| 0 <= k < result.len() ==> break_free(#[trigger] result[k]),
        i < lines.len() || result.len() > 0,
    ensures
        docs_from(lines, i, result, max).len() >= 1,
        forall|k: int|
            0 <= k < docs_from(lines, i, result, max).len() ==> break_free(
                #[trigger] docs_from(lines, i, result, max)[k],
            ),
    decreases lines.len() - i,
{
    let n = lines.len() as int;
    if i < n {
        let l = lines[i];
        match doc_prefix(trim(l)) {
            None => {
                let r2 = result.push(l);
                assert forall|k: int| 0 <= k < r2.len() implies break_free(#[trigger] r2[k]) by {
                    if k < result.len() {
                        assert(r2[k] == result[k]);
                    }
                }
                lemma_docs_from_break_free(lines, i + 1, r2, max);
            },
            Some(p) => {
                let indent = leading_ws(l);
                let j = block_end(lines, i, p);
                lemma_block_end(lines, i, p);
                lemma_block_lines_doc(lines, i, p);
                assert(starts_with(trim(l), p));
                let md = join_lines(block_contents(lines, i, j, p));
                let w = available_width(max, indent);
                let added = if w < 20 {
                    lines.subrange(i, j)
                } else {
                    doc_lines(indent, p, commonmark_render(md, w as usize))
                };
                assert(break_free(l));
                lemma_skip_ws(l, 0, l.len() as int);
                lemma_block_end(lines, i + 1, p);
                assert(break_free(indent)) by {
                    assert forall|m: int| 0 <= m < indent.len() implies #[trigger] indent[m] != '\n' by {
                        assert(indent[m] == l[m]);
                    }
                }
                if w >= 20 {
                    lemma_leading_ws_all_ws(l);
                    lemma_doc_lines_are_doc(indent, p, commonmark_render(md, w as usize));
                }
                let r2 = result + added;
                assert forall|k: int| 0 <= k < r2.len() implies break_free(#[trigger] r2[k]) by {
                    if k < result.len() {
                        assert(r2[k] == result[k]);
                    } else if w < 20 {
                        assert(r2[k] == lines[i + k - result.len()]);
                    } else {
                        assert(r2[k] == added[k - result.len()]);
                    }
                }
                assert(r2.len() > 0);
                lemma_docs_from_break_free(lines, j, r2, max);
            },
        }
    }
}

/// Reflowing doc comments leaves every other line of the text as it was, in order: only
/// lines that start with `///` or `//!` (after indentation) are rewritten, and what
/// replaces them starts with the same marker.
pub proof fn law_doc_reflow_keeps_other_lines(s: Seq<char>, max: nat)
    ensures
        plain_lines(split_lines(doc_comments_formatted(s, max))) == plain_lines(split_lines(s)),
{
    let lines = split_lines(s);
    lemma_split_lines_breaks(s);
    lemma_docs_from_break_free(lines, 0, Seq::empty(), max);
    lemma_split_join(docs_from(lines, 0, Seq::empty(), max));
    lemma_docs_from_plain(lines, 0, Seq::empty(), max);
    assert(lines.subrange(0, lines.len() as int) =~= lines);
    assert(plain_lines(Seq::<Seq<char>>::empty()) + plain_lines(lines) =~= plain_lines(lines));
}

} // verus!
