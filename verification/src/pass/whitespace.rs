use vstd::prelude::*;

use crate::config::Config;
use crate::syntax::indentation::emit_indent;
use crate::syntax::indentation::line_start_level;
use crate::syntax::indentation::repeat_seq;
use crate::syntax::kind::COMMENT;
use crate::syntax::kind::STRING;
use crate::syntax::kind::WHITESPACE;
use crate::syntax::nav::kind_at;
use crate::syntax::nav::token_indices;
use crate::syntax::nav::token_list;
use crate::syntax::nav::tokens_upto;
use crate::syntax::spacing::compute_spacing;
use crate::syntax::spacing::spaced;
use crate::syntax::string::reindent_string;
use crate::syntax::string::reindent_string_token;
use crate::syntax::string::current_line;
use crate::syntax::string::lead_bytes;
use crate::syntax::string::min_lead;
use crate::syntax::string::string_body;
use crate::syntax::tree::Cst;
use crate::syntax::tree::TreeV;
use crate::syntax::tree::lemma_parsed_tiling;
use crate::syntax::tree::lemma_wf_shape;
use crate::syntax::tree::parse_cst;
use crate::syntax::tree::parsed_tree;
use crate::syntax::tree::shape_ok;
use crate::syntax::tree::texts_upto;
use crate::text::contains_char;
use crate::text::contains_char_vec;
use crate::text::copy_vec;
use crate::text::push_all;
use crate::text::spaces;
use crate::text::trim_end;
use crate::text::trim_end_vec;
use crate::text::byte_len;
use crate::text::leading_ws;
use crate::text::lemma_skip_ws;
use crate::text::lemma_skip_ws_back;
use crate::text::skip_ws;
use crate::text::skip_ws_back;
use crate::text::split_lines;
use crate::text::trim;
use crate::text::is_ws;
use crate::text::lemma_join_split;
use crate::text::join_lines;
use crate::text::break_free;
use crate::text::lemma_nl_break_free;
use crate::text::lemma_split_lines_breaks;
use crate::text::newlines_of;

verus! {

// =========================
// === format_whitespace ===
// =========================

/// The end of the run of whitespace tokens that starts at `toks[j]`.
pub open spec fn ws_run_end(tv: TreeV, toks: Seq<int>, j: int) -> int
    decreases toks.len() - j,
{
    if 0 <= j < toks.len() && kind_at(tv, toks[j]) == WHITESPACE {
        ws_run_end(tv, toks, j + 1)
    } else {
        j
    }
}

pub proof fn lemma_ws_run_end(tv: TreeV, toks: Seq<int>, j: int)
    requires
        0 <= j <= toks.len(),
    ensures
        j <= ws_run_end(tv, toks, j) <= toks.len(),
    decreases toks.len() - j,
{
    if 0 <= j < toks.len() && kind_at(tv, toks[j]) == WHITESPACE {
        lemma_ws_run_end(tv, toks, j + 1);
    }
}

/// The text of the tokens `toks[a..b]`.
pub open spec fn ws_text(tv: TreeV, toks: Seq<int>, a: int, b: int) -> Seq<char>
    decreases b - a,
{
    if b <= a {
        Seq::empty()
    } else {
        ws_text(tv, toks, a, b - 1) + tv.texts[toks[b - 1]]
    }
}

/// A non-whitespace token as it is written out: comments lose trailing whitespace, and
/// multi-line strings are re-indented.
pub open spec fn token_out(out: Seq<char>, tv: TreeV, tk: int, iw: nat) -> Seq<char> {
    let text = tv.texts[tk];
    if kind_at(tv, tk) == COMMENT {
        out + trim_end(text)
    } else if kind_at(tv, tk) == STRING && contains_char(text, '\n') {
        reindent_string(out, text, iw)
    } else {
        out + text
    }
}

/// The whitespace written between token `toks[i]` and the next non-whitespace token
/// `toks[j]` (if any), given the whitespace text `ws` between them: its line breaks and the
/// next line's indentation, or else the computed horizontal spacing.
pub open spec fn gap_out(out: Seq<char>, tv: TreeV, toks: Seq<int>, i: int, j: int, iw: nat) -> Seq<
    char,
> {
    let ws = ws_text(tv, toks, i + 1, j);
    if j < toks.len() {
        if contains_char(ws, '\n') {
            out + newlines_of(ws) + repeat_seq(spaces(iw), line_start_level(tv, toks[j]))
        } else if spaced(tv, toks[i], toks[j]) {
            out.push(' ')
        } else {
            out
        }
    } else if contains_char(ws, '\n') {
        out + newlines_of(ws)
    } else {
        out
    }
}

/// The output for the tokens `toks[i..]`, given the output so far.
pub open spec fn whitespace_from(tv: TreeV, toks: Seq<int>, i: int, out: Seq<char>, iw: nat) -> Seq<
    char,
>
    decreases toks.len() - i,
{
    if i < 0 || i >= toks.len() {
        out
    } else if kind_at(tv, toks[i]) == WHITESPACE {
        whitespace_from(tv, toks, i + 1, out, iw)
    } else {
        let j = ws_run_end(tv, toks, i + 1);
        proof {
            lemma_ws_run_end(tv, toks, i + 1);
        }
        whitespace_from(tv, toks, j, gap_out(token_out(out, tv, toks[i], iw), tv, toks, i, j, iw), iw)
    }
}

/// Normalizes spacing and indentation from the syntax tree: every line break of the source
/// is kept, each line is indented from the tree, and the spacing inside a line follows
/// `spaced`.
pub open spec fn whitespace_formatted(src: Seq<char>, iw: nat) -> Seq<char> {
    match parsed_tree(src) {
        Some(tv) => {
            let toks = token_list(tv);
            if toks.len() == 0 {
                src
            } else {
                whitespace_from(tv, toks, 0, Seq::empty(), iw)
            }
        },
        None => src,
    }
}

fn push_newlines(out: &mut Vec<char>, ws: &Vec<char>)
    ensures
        final(out)@ == old(out)@ + newlines_of(ws@),
{
    let mut k: usize = 0;
    while k < ws.len()
        invariant
            k <= ws@.len(),
            out@ == old(out)@ + newlines_of(ws@.take(k as int)),
        decreases ws@.len() - k,
    {
        assert(ws@.take(k + 1).drop_last() =~= ws@.take(k as int));
        if ws[k] == '\n' {
            out.push('\n');
        }
        assert(out@ =~= old(out)@ + newlines_of(ws@.take(k + 1)));
        k = k + 1;
    }
    assert(ws@.take(ws@.len() as int) =~= ws@);
}

/// Writes out the tokens of a parsed tree with normalized spacing and indentation (the
/// whitespace pass after parsing).
pub fn format_tokens(t: &Cst, toks: &Vec<usize>, config: &Config) -> (out: Vec<char>)
    requires
        shape_ok(t@),
        config.indent_width > 0,
        toks@.map_values(|x: usize| x as int) == token_list(t@),
        forall|k: int|
            0 <= k < toks@.len() ==> #[trigger] toks@[k] < t.elems@.len()
                && t.elems@[toks@[k] as int].is_token,
    ensures
        out@ == whitespace_from(t@, token_list(t@), 0, Seq::empty(), config.indent_width as nat),
{
    let ghost tv = t@;
    let ghost ts = token_list(t@);
    let iw = config.indent_width;
    let indent = crate::text::space_run(iw);
    let mut output: Vec<char> = Vec::new();
    let n = toks.len();
    let mut i: usize = 0;
    while i < n
        invariant
            n == toks@.len(),
            tv == t@,
            ts == token_list(t@),
            ts == toks@.map_values(|x: usize| x as int),
            shape_ok(t@),
            iw == config.indent_width,
            iw > 0,
            indent@ == spaces(iw as nat),
            i <= n,
            forall|k: int|
                0 <= k < toks@.len() ==> #[trigger] toks@[k] < t.elems@.len()
                    && t.elems@[toks@[k] as int].is_token,
            whitespace_from(tv, ts, i as int, output@, iw as nat) == whitespace_from(
                tv,
                ts,
                0,
                Seq::empty(),
                iw as nat,
            ),
        decreases n - i,
    {
        let tk = toks[i];
        assert(ts[i as int] == tk as int);
        if t.elems[tk].kind == WHITESPACE {
            i = i + 1;
            continue ;
        }
        let ghost before = output@;
        let text = &t.texts[tk];
        if t.elems[tk].kind == COMMENT {
            let te = trim_end_vec(text);
            push_all(&mut output, te.as_slice());
        } else if t.elems[tk].kind == STRING && contains_char_vec(text, '\n') {
            reindent_string_token(&mut output, text, iw);
        } else {
            push_all(&mut output, text.as_slice());
        }
        assert(output@ == token_out(before, tv, tk as int, iw as nat));
        let ghost out1 = output@;
        let mut ws_text_v: Vec<char> = Vec::new();
        let mut j = i + 1;
        proof {
            lemma_ws_run_end(tv, ts, i + 1);
        }
        while j < n && t.elems[toks[j]].kind == WHITESPACE
            invariant
                n == toks@.len(),
                tv == t@,
                ts == toks@.map_values(|x: usize| x as int),
                i < j <= n,
                shape_ok(t@),
                forall|k: int|
                    0 <= k < toks@.len() ==> #[trigger] toks@[k] < t.elems@.len()
                        && t.elems@[toks@[k] as int].is_token,
                ws_run_end(tv, ts, j as int) == ws_run_end(tv, ts, i + 1),
                ws_text_v@ == ws_text(tv, ts, i + 1, j as int),
            decreases n - j,
        {
            let ghost before_ws = ws_text_v@;
            assert(ts[j as int] == toks@[j as int] as int);
            assert(t.texts@[toks@[j as int] as int]@ == tv.texts[ts[j as int]]);
            push_all(&mut ws_text_v, t.texts[toks[j]].as_slice());
            assert(ws_text_v@ == ws_text(tv, ts, i + 1, j + 1));
            j = j + 1;
        }
        assert(j as int == ws_run_end(tv, ts, i + 1));
        let has_newline = contains_char_vec(&ws_text_v, '\n');
        if j < n {
            let next = toks[j];
            assert(t.elems@[0].is_token == false);
            if has_newline {
                push_newlines(&mut output, &ws_text_v);
                emit_indent(&mut output, t, next, &indent);
            } else if compute_spacing(t, tk, next) {
                output.push(' ');
            }
        } else if has_newline {
            push_newlines(&mut output, &ws_text_v);
        }
        assert(output@ == gap_out(out1, tv, ts, i as int, j as int, iw as nat));
        i = j;
    }
    output
}

/// Normalizes horizontal spacing and indentation from the syntax tree, keeping the line breaks.
pub fn format_whitespace(source: &Vec<char>, config: &Config) -> (r: Vec<char>)
    requires
        config.indent_width > 0,
    ensures
        r@ == whitespace_formatted(source@, config.indent_width as nat),
{
    match parse_cst(source) {
        Some(t) => {
            proof {
                lemma_wf_shape(t@, source@);
            }
            let toks = token_indices(&t);
            if toks.len() == 0 {
                return copy_vec(source);
            }
            format_tokens(&t, &toks, config)
        },
        None => copy_vec(source),
    }
}

// ============
// === Laws ===
// ============

proof fn lemma_nl_concat(a: Seq<char>, b: Seq<char>)
    ensures
        newlines_of(a + b) == newlines_of(a) + newlines_of(b),
    decreases b.len(),
{
    if b.len() == 0 {
        assert(a + b =~= a);
        assert(newlines_of(a) + newlines_of(b) =~= newlines_of(a));
    } else {
        lemma_nl_concat(a, b.drop_last());
        assert((a + b).drop_last() =~= a + b.drop_last());
        assert((a + b).last() == b.last());
        if b.last() == '\n' {
            assert(newlines_of(a) + newlines_of(b.drop_last()).push('\n') =~= (newlines_of(a)
                + newlines_of(b.drop_last())).push('\n'));
        }
    }
}

proof fn lemma_no_newline_char(s: Seq<char>)
    requires
        !contains_char(s, '\n'),
    ensures
        newlines_of(s).len() == 0,
{
    assert(break_free(s));
    lemma_nl_break_free(s);
}

proof fn lemma_repeat_break_free(s: Seq<char>, n: nat)
    requires
        break_free(s),
    ensures
        break_free(repeat_seq(s, n)),
    decreases n,
{
    if n > 0 {
        lemma_repeat_break_free(s, (n - 1) as nat);
        let r = repeat_seq(s, (n - 1) as nat);
        assert forall|k: int| 0 <= k < (r + s).len() implies #[trigger] (r + s)[k] != '\n' by {
            if k < r.len() {
                assert((r + s)[k] == r[k]);
            } else {
                assert((r + s)[k] == s[k - r.len()]);
            }
        }
    }
}

proof fn lemma_trim_break_free(line: Seq<char>)
    requires
        break_free(line),
    ensures
        break_free(trim(line)),
{
    let a = skip_ws(line, 0, line.len() as int);
    lemma_skip_ws(line, 0, line.len() as int);
    lemma_skip_ws_back(line, a, line.len() as int);
    let t = trim(line);
    assert forall|k: int| 0 <= k < t.len() implies #[trigger] t[k] != '\n' by {
        assert(t[k] == line[a + k]);
    }
}

proof fn lemma_string_body_breaks(
    lines: Seq<Seq<char>>,
    lo: int,
    hi: int,
    min: nat,
    content_indent: Seq<char>,
)
    requires
        lo <= hi,
        forall|k: int| lo <= k < hi ==> break_free(#[trigger] lines[k]),
        break_free(content_indent),
    ensures
        newlines_of(string_body(lines, lo, hi, min, content_indent)).len() == hi - lo,
    decreases hi - lo,
{
    if hi > lo {
        lemma_string_body_breaks(lines, lo, hi - 1, min, content_indent);
        let prev = string_body(lines, lo, hi - 1, min, content_indent);
        let line = lines[hi - 1];
        assert(prev.push('\n').drop_last() =~= prev);
        assert(newlines_of(prev.push('\n')).len() == newlines_of(prev).len() + 1);
        if trim(line).len() != 0 {
            let rel: nat = if lead_bytes(line) >= min {
                (lead_bytes(line) - min) as nat
            } else {
                0
            };
            lemma_trim_break_free(line);
            lemma_nl_break_free(content_indent);
            lemma_nl_break_free(spaces(rel));
            lemma_nl_break_free(trim(line));
            lemma_nl_concat(prev.push('\n'), content_indent);
            lemma_nl_concat(prev.push('\n') + content_indent, spaces(rel));
            lemma_nl_concat(prev.push('\n') + content_indent + spaces(rel), trim(line));
        }
    } else {
        assert(string_body(lines, lo, hi, min, content_indent) =~= Seq::<char>::empty());
    }
}

/// Re-indenting a multi-line string keeps its line breaks.
proof fn lemma_reindent_breaks(out: Seq<char>, text: Seq<char>, iw: nat)
    ensures
        newlines_of(reindent_string(out, text, iw)).len() == newlines_of(out).len() + newlines_of(
            text,
        ).len(),
{
    let lines = split_lines(text);
    lemma_split_lines_breaks(text);
    if lines.len() <= 1 {
        lemma_nl_concat(out, text);
    } else {
        let visual = byte_len(leading_ws(current_line(out)));
        let level = visual / iw;
        let indent = spaces(iw);
        let last = lines.len() - 1;
        let just_quote = trim(lines[last]) == seq!['"'];
        let content_end = if just_quote {
            last
        } else {
            last + 1
        };
        let min = match min_lead(lines, 1, content_end) {
            Some(m) => m,
            None => 0,
        };
        lemma_repeat_break_free(indent, level + 1);
        lemma_repeat_break_free(indent, level);
        let body = string_body(lines, 1, content_end, min, repeat_seq(indent, level + 1));
        lemma_string_body_breaks(lines, 1, content_end, min, repeat_seq(indent, level + 1));
        let closing = if just_quote {
            seq!['\n'] + repeat_seq(indent, level) + seq!['"']
        } else {
            Seq::empty()
        };
        assert(break_free(lines[0]));
        lemma_nl_break_free(lines[0]);
        lemma_nl_concat(out, lines[0]);
        lemma_nl_concat(out + lines[0], body);
        lemma_nl_concat(out + lines[0] + body, closing);
        if just_quote {
            lemma_nl_concat(seq!['\n'], repeat_seq(indent, level));
            lemma_nl_concat(seq!['\n'] + repeat_seq(indent, level), seq!['"']);
            lemma_nl_break_free(repeat_seq(indent, level));
            assert(seq!['\n'].drop_last() =~= Seq::<char>::empty());
            assert(seq!['"'].drop_last() =~= Seq::<char>::empty());
            assert(seq!['\n'].last() == '\n');
            assert(seq!['"'].last() == '"');
            assert(newlines_of(Seq::<char>::empty()) =~= Seq::<char>::empty());
            assert(newlines_of(seq!['\n']).len() == 1);
            assert(newlines_of(seq!['"']).len() == 0);
        } else {
            assert(newlines_of(closing) =~= Seq::<char>::empty());
        }
    }
}

proof fn lemma_ws_text_concat(tv: TreeV, toks: Seq<int>, a: int, b: int, c: int)
    requires
        a <= b <= c,
    ensures
        ws_text(tv, toks, a, c) == ws_text(tv, toks, a, b) + ws_text(tv, toks, b, c),
    decreases c - b,
{
    if c > b {
        lemma_ws_text_concat(tv, toks, a, b, c - 1);
        assert(ws_text(tv, toks, a, b) + ws_text(tv, toks, b, c - 1) + tv.texts[toks[c - 1]]
            =~= ws_text(tv, toks, a, b) + (ws_text(tv, toks, b, c - 1) + tv.texts[toks[c - 1]]));
    } else {
        assert(ws_text(tv, toks, a, b) + ws_text(tv, toks, b, c) =~= ws_text(tv, toks, a, b));
    }
}

proof fn lemma_skip_opening(tv: TreeV, toks: Seq<int>, i: int, out: Seq<char>, iw: nat)
    requires
        0 <= i <= toks.len(),
    ensures
        whitespace_from(tv, toks, i, out, iw) == whitespace_from(
            tv,
            toks,
            ws_run_end(tv, toks, i),
            out,
            iw,
        ),
    decreases toks.len() - i,
{
    if i < toks.len() && kind_at(tv, toks[i]) == WHITESPACE {
        lemma_skip_opening(tv, toks, i + 1, out, iw);
    }
}

proof fn lemma_ws_run_end_stops(tv: TreeV, toks: Seq<int>, j: int)
    requires
        0 <= j <= toks.len(),
    ensures
        ws_run_end(tv, toks, j) < toks.len() ==> kind_at(tv, toks[ws_run_end(tv, toks, j)])
            != WHITESPACE,
    decreases toks.len() - j,
{
    if j < toks.len() && kind_at(tv, toks[j]) == WHITESPACE {
        lemma_ws_run_end_stops(tv, toks, j + 1);
    }
}

/// No comment among `toks` loses a line break when its trailing whitespace is dropped.
pub open spec fn comments_keep_breaks(tv: TreeV, toks: Seq<int>) -> bool {
    forall|k: int|
        0 <= k < toks.len() && #[trigger] kind_at(tv, toks[k]) == COMMENT ==> newlines_of(
            trim_end(tv.texts[toks[k]]),
        ).len() == newlines_of(tv.texts[toks[k]]).len()
}

proof fn lemma_gap_breaks(out: Seq<char>, tv: TreeV, toks: Seq<int>, i: int, j: int, iw: nat)
    ensures
        newlines_of(gap_out(out, tv, toks, i, j, iw)).len() == newlines_of(out).len()
            + newlines_of(ws_text(tv, toks, i + 1, j)).len(),
{
    let ws = ws_text(tv, toks, i + 1, j);
    if contains_char(ws, '\n') {
        lemma_nl_concat(out, newlines_of(ws));
        if j < toks.len() {
            let ind = repeat_seq(spaces(iw), line_start_level(tv, toks[j]));
            lemma_repeat_break_free(spaces(iw), line_start_level(tv, toks[j]));
            lemma_nl_break_free(ind);
            lemma_nl_concat(out + newlines_of(ws), ind);
        }
        lemma_newlines_idempotent(ws);
    } else {
        lemma_no_newline_char(ws);
        if j < toks.len() && spaced(tv, toks[i], toks[j]) {
            assert(out.push(' ').drop_last() =~= out);
        }
    }
}

proof fn lemma_newlines_idempotent(s: Seq<char>)
    ensures
        newlines_of(newlines_of(s)) == newlines_of(s),
    decreases s.len(),
{
    if s.len() > 0 {
        lemma_newlines_idempotent(s.drop_last());
        if s.last() == '\n' {
            assert(newlines_of(s).drop_last() =~= newlines_of(s.drop_last()));
        }
    }
}

proof fn lemma_token_breaks(out: Seq<char>, tv: TreeV, tk: int, iw: nat)
    requires
        kind_at(tv, tk) == COMMENT ==> newlines_of(trim_end(tv.texts[tk])).len() == newlines_of(
            tv.texts[tk],
        ).len(),
    ensures
        newlines_of(token_out(out, tv, tk, iw)).len() == newlines_of(out).len() + newlines_of(
            tv.texts[tk],
        ).len(),
{
    let text = tv.texts[tk];
    if kind_at(tv, tk) == COMMENT {
        lemma_nl_concat(out, trim_end(text));
    } else if kind_at(tv, tk) == STRING && contains_char(text, '\n') {
        lemma_reindent_breaks(out, text, iw);
    } else {
        lemma_nl_concat(out, text);
    }
}

proof fn lemma_whitespace_from_breaks(tv: TreeV, toks: Seq<int>, i: int, out: Seq<char>, iw: nat)
    requires
        0 <= i <= toks.len(),
        i < toks.len() ==> kind_at(tv, toks[i]) != WHITESPACE,
        comments_keep_breaks(tv, toks),
    ensures
        newlines_of(whitespace_from(tv, toks, i, out, iw)).len() == newlines_of(out).len()
            + newlines_of(ws_text(tv, toks, i, toks.len() as int)).len(),
    decreases toks.len() - i,
{
    if i == toks.len() {
        assert(ws_text(tv, toks, i, i) =~= Seq::<char>::empty());
        assert(newlines_of(Seq::<char>::empty()) =~= Seq::<char>::empty());
    } else {
        let j = ws_run_end(tv, toks, i + 1);
        lemma_ws_run_end(tv, toks, i + 1);
        lemma_ws_run_end_stops(tv, toks, i + 1);
        let tk = toks[i];
        assert(kind_at(tv, toks[i]) == COMMENT ==> newlines_of(trim_end(tv.texts[toks[i]])).len()
            == newlines_of(tv.texts[toks[i]]).len());
        let out1 = token_out(out, tv, tk, iw);
        let out2 = gap_out(out1, tv, toks, i, j, iw);
        lemma_token_breaks(out, tv, tk, iw);
        lemma_gap_breaks(out1, tv, toks, i, j, iw);
        lemma_whitespace_from_breaks(tv, toks, j, out2, iw);
        let n = toks.len() as int;
        lemma_ws_text_concat(tv, toks, i, i + 1, n);
        lemma_ws_text_concat(tv, toks, i + 1, j, n);
        assert(ws_text(tv, toks, i, i) =~= Seq::<char>::empty());
        assert(ws_text(tv, toks, i, i + 1) =~= tv.texts[tk]);
        lemma_nl_concat(tv.texts[tk], ws_text(tv, toks, i + 1, n));
        lemma_nl_concat(ws_text(tv, toks, i + 1, j), ws_text(tv, toks, j, n));
    }
}

proof fn lemma_ws_text_push(tv: TreeV, toks: Seq<int>, x: int, m: int)
    requires
        0 <= m <= toks.len(),
    ensures
        ws_text(tv, toks.push(x), 0, m) == ws_text(tv, toks, 0, m),
    decreases m,
{
    if m > 0 {
        lemma_ws_text_push(tv, toks, x, m - 1);
        assert(toks.push(x)[m - 1] == toks[m - 1]);
    }
}

proof fn lemma_tokens_text(tv: TreeV, k: int)
    requires
        0 <= k <= tv.elems.len(),
        forall|i: int| 0 <= i < tv.elems.len() && !(#[trigger] tv.elems[i]).is_token ==> tv.texts[i].len() == 0,
    ensures
        ws_text(tv, tokens_upto(tv, k), 0, tokens_upto(tv, k).len() as int) == texts_upto(
            tv.texts,
            k,
        ),
    decreases k,
{
    if k > 0 {
        lemma_tokens_text(tv, k - 1);
        let prev = tokens_upto(tv, k - 1);
        if tv.elems[k - 1].is_token {
            lemma_ws_text_push(tv, prev, k - 1, prev.len() as int);
            assert(prev.push(k - 1)[prev.len() as int] == k - 1);
        } else {
            assert(tv.texts[k - 1] =~= Seq::<char>::empty());
            assert(texts_upto(tv.texts, k - 1) + tv.texts[k - 1] =~= texts_upto(tv.texts, k - 1));
        }
    } else {
        assert(ws_text(tv, tokens_upto(tv, 0), 0, 0) =~= Seq::<char>::empty());
    }
}

/// The whitespace tokens that open the source, before its first other token.
pub open spec fn opening_whitespace(src: Seq<char>) -> Seq<char> {
    match parsed_tree(src) {
        Some(tv) => {
            let toks = token_list(tv);
            ws_text(tv, toks, 0, ws_run_end(tv, toks, 0))
        },
        None => Seq::empty(),
    }
}

/// No comment of the parsed source ends in whitespace that holds a line break (only a
/// block comment left open at the end of the file can).
pub open spec fn comment_breaks_kept(src: Seq<char>) -> bool {
    match parsed_tree(src) {
        Some(tv) => comments_keep_breaks(tv, token_list(tv)),
        None => true,
    }
}

/// The whitespace pass keeps every line break of the source except those in the
/// whitespace that opens it, which it drops; that whitespace is a prefix of the source.
pub proof fn law_whitespace_keeps_line_breaks(src: Seq<char>, iw: nat)
    requires
        comment_breaks_kept(src),
    ensures
        src.take(opening_whitespace(src).len() as int) == opening_whitespace(src),
        newlines_of(whitespace_formatted(src, iw)).len() + newlines_of(opening_whitespace(src)).len()
            == newlines_of(src).len(),
{
    match parsed_tree(src) {
        Some(tv) => {
            let toks = token_list(tv);
            let n = toks.len() as int;
            lemma_parsed_tiling(src);
            lemma_tokens_text(tv, tv.elems.len() as int);
            assert(ws_text(tv, toks, 0, n) == src);
            lemma_ws_run_end(tv, toks, 0);
            let r0 = ws_run_end(tv, toks, 0);
            lemma_ws_run_end_stops(tv, toks, 0);
            lemma_ws_text_concat(tv, toks, 0, r0, n);
            lemma_nl_concat(ws_text(tv, toks, 0, r0), ws_text(tv, toks, r0, n));
            assert(src.take(ws_text(tv, toks, 0, r0).len() as int) =~= ws_text(tv, toks, 0, r0));
            if n > 0 {
                lemma_skip_opening(tv, toks, 0, Seq::empty(), iw);
                lemma_whitespace_from_breaks(tv, toks, r0, Seq::empty(), iw);
                assert(newlines_of(Seq::<char>::empty()) =~= Seq::<char>::empty());
            } else {
                assert(ws_text(tv, toks, 0, 0) =~= Seq::<char>::empty());
                assert(newlines_of(Seq::<char>::empty()) =~= Seq::<char>::empty());
            }
        },
        None => {
            assert(src.take(0) =~= Seq::<char>::empty());
            assert(newlines_of(Seq::<char>::empty()) =~= Seq::<char>::empty());
        },
    }
}

/// A character that the lexer or `str::trim` counts as whitespace.
pub open spec fn is_space_char(c: char) -> bool {
    is_ws(c) || c == '\u{200E}' || c == '\u{200F}'
}

/// The text without its whitespace characters: what the code says, apart from its layout.
pub open spec fn visible(s: Seq<char>) -> Seq<char>
    decreases s.len(),
{
    if s.len() == 0 {
        s
    } else if is_space_char(s.last()) {
        visible(s.drop_last())
    } else {
        visible(s.drop_last()).push(s.last())
    }
}

proof fn lemma_visible_concat(a: Seq<char>, b: Seq<char>)
    ensures
        visible(a + b) == visible(a) + visible(b),
    decreases b.len(),
{
    if b.len() == 0 {
        assert(a + b =~= a);
        assert(visible(a) + visible(b) =~= visible(a));
    } else {
        lemma_visible_concat(a, b.drop_last());
        assert((a + b).drop_last() =~= a + b.drop_last());
        assert((a + b).last() == b.last());
        if !is_space_char(b.last()) {
            assert(visible(a) + visible(b.drop_last()).push(b.last()) =~= (visible(a) + visible(
                b.drop_last(),
            )).push(b.last()));
        }
    }
}

/// Only whitespace in `s`.
pub open spec fn all_space(s: Seq<char>) -> bool {
    forall|k: int| 0 <= k < s.len() ==> is_space_char(#[trigger] s[k])
}

proof fn lemma_visible_all_space(s: Seq<char>)
    requires
        all_space(s),
    ensures
        visible(s) == Seq::<char>::empty(),
    decreases s.len(),
{
    if s.len() > 0 {
        assert(is_space_char(s[s.len() - 1]));
        lemma_visible_all_space(s.drop_last());
    }
}

proof fn lemma_visible_trim(s: Seq<char>)
    ensures
        visible(trim(s)) == visible(s),
        visible(trim_end(s)) == visible(s),
{
    let n = s.len() as int;
    let a = skip_ws(s, 0, n);
    lemma_skip_ws(s, 0, n);
    lemma_skip_ws_back(s, a, n);
    let b = skip_ws_back(s, a, n);
    assert(s =~= s.subrange(0, a) + s.subrange(a, b) + s.subrange(b, n));
    assert(all_space(s.subrange(0, a))) by {
        assert forall|k: int| 0 <= k < a implies is_space_char(#[trigger] s.subrange(0, a)[k]) by {
            assert(s.subrange(0, a)[k] == s[k]);
        }
    }
    assert(all_space(s.subrange(b, n))) by {
        assert forall|k: int| 0 <= k < n - b implies is_space_char(#[trigger] s.subrange(b, n)[k]) by {
            assert(s.subrange(b, n)[k] == s[b + k]);
        }
    }
    lemma_visible_all_space(s.subrange(0, a));
    lemma_visible_all_space(s.subrange(b, n));
    lemma_visible_concat(s.subrange(0, a) + s.subrange(a, b), s.subrange(b, n));
    lemma_visible_concat(s.subrange(0, a), s.subrange(a, b));
    assert(Seq::<char>::empty() + visible(s.subrange(a, b)) + Seq::<char>::empty() =~= visible(
        s.subrange(a, b),
    ));
    // trim_end
    lemma_skip_ws_back(s, 0, n);
    let c = skip_ws_back(s, 0, n);
    assert(s =~= s.subrange(0, c) + s.subrange(c, n));
    assert(all_space(s.subrange(c, n))) by {
        assert forall|k: int| 0 <= k < n - c implies is_space_char(#[trigger] s.subrange(c, n)[k]) by {
            assert(s.subrange(c, n)[k] == s[c + k]);
        }
    }
    lemma_visible_all_space(s.subrange(c, n));
    lemma_visible_concat(s.subrange(0, c), s.subrange(c, n));
    assert(visible(s.subrange(0, c)) + Seq::<char>::empty() =~= visible(s.subrange(0, c)));
}

proof fn lemma_spaces_all_space(n: nat)
    ensures
        all_space(spaces(n)),
{
}

proof fn lemma_repeat_all_space(s: Seq<char>, n: nat)
    requires
        all_space(s),
    ensures
        all_space(repeat_seq(s, n)),
    decreases n,
{
    if n > 0 {
        lemma_repeat_all_space(s, (n - 1) as nat);
        let r = repeat_seq(s, (n - 1) as nat);
        assert forall|k: int| 0 <= k < (r + s).len() implies is_space_char(#[trigger] (r + s)[k]) by {
            if k < r.len() {
                assert((r + s)[k] == r[k]);
            } else {
                assert((r + s)[k] == s[k - r.len()]);
            }
        }
    }
}

/// The visible text of the lines `lines[a..b]`, end to end.
pub open spec fn visible_lines(lines: Seq<Seq<char>>, a: int, b: int) -> Seq<char>
    decreases b - a,
{
    if b <= a {
        Seq::empty()
    } else {
        visible_lines(lines, a, b - 1) + visible(lines[b - 1])
    }
}

proof fn lemma_visible_join(ls: Seq<Seq<char>>)
    ensures
        visible(join_lines(ls)) == visible_lines(ls, 0, ls.len() as int),
    decreases ls.len(),
{
    if ls.len() == 1 {
        assert(visible_lines(ls, 0, 0) =~= Seq::<char>::empty());
        assert(Seq::<char>::empty() + visible(ls[0]) =~= visible(ls[0]));
    } else if ls.len() > 1 {
        let d = ls.drop_last();
        lemma_visible_join(d);
        lemma_visible_lines_prefix(ls, d.len() as int);
        lemma_visible_concat(join_lines(d) + seq!['\n'], ls.last());
        lemma_visible_concat(join_lines(d), seq!['\n']);
        assert(seq!['\n'].drop_last() =~= Seq::<char>::empty());
        assert(is_space_char('\n'));
        lemma_visible_newline();
        assert(visible(join_lines(d)) + Seq::<char>::empty() =~= visible(join_lines(d)));
    } else {
        assert(visible_lines(ls, 0, 0) =~= Seq::<char>::empty());
    }
}

proof fn lemma_visible_lines_prefix(ls: Seq<Seq<char>>, m: int)
    requires
        0 <= m <= ls.len(),
    ensures
        visible_lines(ls.take(m), 0, m) == visible_lines(ls, 0, m),
        visible_lines(ls.drop_last(), 0, m) == visible_lines(ls, 0, m) || m == ls.len(),
    decreases m,
{
    if m > 0 {
        lemma_visible_lines_prefix(ls, m - 1);
        assert(ls.take(m)[m - 1] == ls[m - 1]);
        lemma_visible_lines_take(ls, m - 1, m);
        if m < ls.len() {
            assert(ls.drop_last()[m - 1] == ls[m - 1]);
            lemma_visible_lines_drop(ls, m - 1);
        }
    }
}

proof fn lemma_visible_lines_take(ls: Seq<Seq<char>>, k: int, m: int)
    requires
        0 <= k <= m <= ls.len(),
    ensures
        visible_lines(ls.take(m), 0, k) == visible_lines(ls, 0, k),
    decreases k,
{
    if k > 0 {
        lemma_visible_lines_take(ls, k - 1, m);
        assert(ls.take(m)[k - 1] == ls[k - 1]);
    }
}

proof fn lemma_visible_lines_drop(ls: Seq<Seq<char>>, k: int)
    requires
        0 <= k < ls.len(),
    ensures
        visible_lines(ls.drop_last(), 0, k) == visible_lines(ls, 0, k),
    decreases k,
{
    if k > 0 {
        lemma_visible_lines_drop(ls, k - 1);
        assert(ls.drop_last()[k - 1] == ls[k - 1]);
    }
}

proof fn lemma_visible_lines_split(lines: Seq<Seq<char>>, a: int, b: int, c: int)
    requires
        a <= b <= c,
    ensures
        visible_lines(lines, a, c) == visible_lines(lines, a, b) + visible_lines(lines, b, c),
    decreases c - b,
{
    if c > b {
        lemma_visible_lines_split(lines, a, b, c - 1);
        assert(visible_lines(lines, a, b) + visible_lines(lines, b, c - 1) + visible(lines[c - 1])
            =~= visible_lines(lines, a, b) + (visible_lines(lines, b, c - 1) + visible(lines[c - 1])));
    } else {
        assert(visible_lines(lines, a, b) + visible_lines(lines, b, c) =~= visible_lines(lines, a, b));
    }
}

proof fn lemma_string_body_visible(
    lines: Seq<Seq<char>>,
    lo: int,
    hi: int,
    min: nat,
    content_indent: Seq<char>,
)
    requires
        lo <= hi,
        all_space(content_indent),
    ensures
        visible(string_body(lines, lo, hi, min, content_indent)) == visible_lines(lines, lo, hi),
    decreases hi - lo,
{
    if hi > lo {
        lemma_string_body_visible(lines, lo, hi - 1, min, content_indent);
        let prev = string_body(lines, lo, hi - 1, min, content_indent);
        let line = lines[hi - 1];
        lemma_visible_trim(line);
        assert(prev.push('\n') == prev + seq!['\n']);
        lemma_visible_concat(prev, seq!['\n']);
        assert(seq!['\n'].drop_last() =~= Seq::<char>::empty());
        lemma_visible_newline();
        assert(visible(prev) + Seq::<char>::empty() =~= visible(prev));
        if trim(line).len() == 0 {
            assert(visible(trim(line)) =~= Seq::<char>::empty());
            assert(visible_lines(lines, lo, hi - 1) + Seq::<char>::empty() =~= visible_lines(lines, lo, hi - 1));
        } else {
            let rel: nat = if lead_bytes(line) >= min {
                (lead_bytes(line) - min) as nat
            } else {
                0
            };
            lemma_visible_all_space(content_indent);
            lemma_visible_all_space(spaces(rel));
            lemma_visible_concat(prev.push('\n'), content_indent);
            lemma_visible_concat(prev.push('\n') + content_indent, spaces(rel));
            lemma_visible_concat(prev.push('\n') + content_indent + spaces(rel), trim(line));
        }
    } else {
        assert(string_body(lines, lo, hi, min, content_indent) =~= Seq::<char>::empty());
    }
}

/// Re-indenting a multi-line string keeps every character that is not whitespace, in order.
proof fn lemma_reindent_visible(out: Seq<char>, text: Seq<char>, iw: nat)
    ensures
        visible(reindent_string(out, text, iw)) == visible(out) + visible(text),
{
    let lines = split_lines(text);
    lemma_split_lines_breaks(text);
    lemma_join_split(text);
    if lines.len() <= 1 {
        lemma_visible_concat(out, text);
    } else {
        let visual = byte_len(leading_ws(current_line(out)));
        let level = visual / iw;
        let indent = spaces(iw);
        let last = lines.len() - 1;
        let just_quote = trim(lines[last]) == seq!['"'];
        let content_end = if just_quote {
            last
        } else {
            last + 1
        };
        let min = match min_lead(lines, 1, content_end) {
            Some(m) => m,
            None => 0,
        };
        lemma_repeat_all_space(indent, level + 1);
        lemma_repeat_all_space(indent, level);
        let body = string_body(lines, 1, content_end, min, repeat_seq(indent, level + 1));
        lemma_string_body_visible(lines, 1, content_end, min, repeat_seq(indent, level + 1));
        let closing = if just_quote {
            seq!['\n'] + repeat_seq(indent, level) + seq!['"']
        } else {
            Seq::empty()
        };
        lemma_visible_concat(out, lines[0]);
        lemma_visible_concat(out + lines[0], body);
        lemma_visible_concat(out + lines[0] + body, closing);
        lemma_visible_join(lines);
        lemma_visible_lines_split(lines, 0, 1, lines.len() as int);
        assert(visible_lines(lines, 0, 0) =~= Seq::<char>::empty());
        assert(visible_lines(lines, 0, 1) =~= visible(lines[0]));
        if just_quote {
            lemma_visible_lines_split(lines, 1, last, lines.len() as int);
            assert(visible_lines(lines, last, last) =~= Seq::<char>::empty());
            lemma_visible_trim(lines[last]);
            assert(visible_lines(lines, last, last + 1) =~= visible(lines[last]));
            lemma_visible_concat(seq!['\n'], repeat_seq(indent, level));
            lemma_visible_concat(seq!['\n'] + repeat_seq(indent, level), seq!['"']);
            lemma_visible_all_space(repeat_seq(indent, level));
            assert(seq!['\n'].drop_last() =~= Seq::<char>::empty());
            assert(seq!['"'].drop_last() =~= Seq::<char>::empty());
            lemma_visible_newline();
            assert(!is_space_char('"'));
            assert(visible(seq!['"']) =~= seq!['"']);
            assert(visible(trim(lines[last])) =~= seq!['"']) by {
                assert(seq!['"'].last() == '"');
            }
            assert(visible(closing) =~= seq!['"']);
            assert(visible(out) + visible(lines[0]) + visible_lines(lines, 1, last) + seq!['"']
                =~= visible(out) + (visible(lines[0]) + (visible_lines(lines, 1, last) + visible(lines[last]))));
        } else {
            assert(visible(closing) =~= Seq::<char>::empty());
            assert(visible(out) + visible(lines[0]) + visible_lines(lines, 1, content_end) + Seq::<char>::empty()
                =~= visible(out) + (visible(lines[0]) + visible_lines(lines, 1, content_end)));
        }
    }
}

/// Every whitespace token among `toks` holds only whitespace characters.
pub open spec fn ws_tokens_blank(tv: TreeV, toks: Seq<int>) -> bool {
    forall|k: int|
        0 <= k < toks.len() && #[trigger] kind_at(tv, toks[k]) == WHITESPACE ==> all_space(
            tv.texts[toks[k]],
        )
}

proof fn lemma_ws_run_visible(tv: TreeV, toks: Seq<int>, a: int, b: int)
    requires
        0 <= a <= b <= toks.len(),
        ws_tokens_blank(tv, toks),
        forall|k: int| a <= k < b ==> kind_at(tv, #[trigger] toks[k]) == WHITESPACE,
    ensures
        visible(ws_text(tv, toks, a, b)) == Seq::<char>::empty(),
    decreases b - a,
{
    if b > a {
        lemma_ws_run_visible(tv, toks, a, b - 1);
        assert(kind_at(tv, toks[b - 1]) == WHITESPACE);
        lemma_visible_all_space(tv.texts[toks[b - 1]]);
        lemma_visible_concat(ws_text(tv, toks, a, b - 1), tv.texts[toks[b - 1]]);
        assert(Seq::<char>::empty() + Seq::<char>::empty() =~= Seq::<char>::empty());
    }
}

proof fn lemma_ws_run_end_all_ws(tv: TreeV, toks: Seq<int>, j: int)
    requires
        0 <= j <= toks.len(),
    ensures
        forall|k: int| j <= k < ws_run_end(tv, toks, j) ==> kind_at(tv, #[trigger] toks[k]) == WHITESPACE,
    decreases toks.len() - j,
{
    if j < toks.len() && kind_at(tv, toks[j]) == WHITESPACE {
        lemma_ws_run_end_all_ws(tv, toks, j + 1);
    }
}

proof fn lemma_gap_visible(out: Seq<char>, tv: TreeV, toks: Seq<int>, i: int, j: int, iw: nat)
    ensures
        visible(gap_out(out, tv, toks, i, j, iw)) == visible(out),
{
    let ws = ws_text(tv, toks, i + 1, j);
    assert(all_space(newlines_of(ws))) by {
        lemma_newlines_only(ws);
    }
    lemma_visible_all_space(newlines_of(ws));
    if contains_char(ws, '\n') {
        lemma_visible_concat(out, newlines_of(ws));
        assert(visible(out) + Seq::<char>::empty() =~= visible(out));
        if j < toks.len() {
            let ind = repeat_seq(spaces(iw), line_start_level(tv, toks[j]));
            lemma_repeat_all_space(spaces(iw), line_start_level(tv, toks[j]));
            lemma_visible_all_space(ind);
            lemma_visible_concat(out + newlines_of(ws), ind);
        }
    } else if j < toks.len() && spaced(tv, toks[i], toks[j]) {
        assert(out.push(' ').drop_last() =~= out);
    }
}

proof fn lemma_newlines_only(s: Seq<char>)
    ensures
        forall|k: int| 0 <= k < newlines_of(s).len() ==> #[trigger] newlines_of(s)[k] == '\n',
    decreases s.len(),
{
    if s.len() > 0 {
        lemma_newlines_only(s.drop_last());
        let p = newlines_of(s.drop_last());
        if s.last() == '\n' {
            assert forall|k: int| 0 <= k < newlines_of(s).len() implies #[trigger] newlines_of(s)[k]
                == '\n' by {
                if k < p.len() {
                    assert(newlines_of(s)[k] == p[k]);
                }
            }
        }
    }
}

proof fn lemma_visible_newline()
    ensures
        visible(seq!['\n']) == Seq::<char>::empty(),
{
    let s = seq!['\n'];
    assert(s.last() == '\n');
    assert(is_ws('\n'));
    assert(is_space_char(s.last()));
    assert(s.drop_last() =~= Seq::<char>::empty());
    assert(visible(Seq::<char>::empty()) =~= Seq::<char>::empty());
}

proof fn lemma_token_visible(out: Seq<char>, tv: TreeV, tk: int, iw: nat)
    ensures
        visible(token_out(out, tv, tk, iw)) == visible(out) + visible(tv.texts[tk]),
{
    let text = tv.texts[tk];
    if kind_at(tv, tk) == COMMENT {
        lemma_visible_concat(out, trim_end(text));
        lemma_visible_trim(text);
    } else if kind_at(tv, tk) == STRING && contains_char(text, '\n') {
        lemma_reindent_visible(out, text, iw);
    } else {
        lemma_visible_concat(out, text);
    }
}

proof fn lemma_whitespace_from_visible(tv: TreeV, toks: Seq<int>, i: int, out: Seq<char>, iw: nat)
    requires
        0 <= i <= toks.len(),
        ws_tokens_blank(tv, toks),
    ensures
        visible(whitespace_from(tv, toks, i, out, iw)) == visible(out) + visible(
            ws_text(tv, toks, i, toks.len() as int),
        ),
    decreases toks.len() - i,
{
    let n = toks.len() as int;
    if i == n {
        assert(ws_text(tv, toks, i, i) =~= Seq::<char>::empty());
        assert(visible(out) + visible(Seq::<char>::empty()) =~= visible(out));
    } else if kind_at(tv, toks[i]) == WHITESPACE {
        lemma_whitespace_from_visible(tv, toks, i + 1, out, iw);
        lemma_ws_text_concat(tv, toks, i, i + 1, n);
        lemma_ws_run_visible(tv, toks, i, i + 1);
        lemma_visible_concat(ws_text(tv, toks, i, i + 1), ws_text(tv, toks, i + 1, n));
        assert(Seq::<char>::empty() + visible(ws_text(tv, toks, i + 1, n)) =~= visible(
            ws_text(tv, toks, i + 1, n),
        ));
    } else {
        let j = ws_run_end(tv, toks, i + 1);
        lemma_ws_run_end(tv, toks, i + 1);
        lemma_ws_run_end_all_ws(tv, toks, i + 1);
        let tk = toks[i];
        let out1 = token_out(out, tv, tk, iw);
        let out2 = gap_out(out1, tv, toks, i, j, iw);
        lemma_token_visible(out, tv, tk, iw);
        lemma_gap_visible(out1, tv, toks, i, j, iw);
        lemma_whitespace_from_visible(tv, toks, j, out2, iw);
        lemma_ws_text_concat(tv, toks, i, i + 1, n);
        lemma_ws_text_concat(tv, toks, i + 1, j, n);
        assert(ws_text(tv, toks, i, i) =~= Seq::<char>::empty());
        assert(ws_text(tv, toks, i, i + 1) =~= tv.texts[tk]);
        lemma_ws_run_visible(tv, toks, i + 1, j);
        lemma_visible_concat(tv.texts[tk], ws_text(tv, toks, i + 1, n));
        lemma_visible_concat(ws_text(tv, toks, i + 1, j), ws_text(tv, toks, j, n));
        assert(Seq::<char>::empty() + visible(ws_text(tv, toks, j, n)) =~= visible(
            ws_text(tv, toks, j, n),
        ));
        assert(visible(out) + visible(tv.texts[tk]) + visible(ws_text(tv, toks, j, n)) =~= visible(
            out,
        ) + (visible(tv.texts[tk]) + visible(ws_text(tv, toks, j, n))));
    }
}

/// The parser's whitespace tokens for `src` hold only whitespace characters.
pub open spec fn parsed_ws_blank(src: Seq<char>) -> bool {
    match parsed_tree(src) {
        Some(tv) => ws_tokens_blank(tv, token_list(tv)),
        None => true,
    }
}

/// The whitespace pass changes only the layout: with every whitespace character dropped,
/// its output is the source (when the parser's whitespace tokens hold only whitespace).
pub proof fn law_whitespace_keeps_code(src: Seq<char>, iw: nat)
    requires
        parsed_ws_blank(src),
    ensures
        visible(whitespace_formatted(src, iw)) == visible(src),
{
    match parsed_tree(src) {
        Some(tv) => {
            let toks = token_list(tv);
            let n = toks.len() as int;
            lemma_parsed_tiling(src);
            lemma_tokens_text(tv, tv.elems.len() as int);
            assert(ws_text(tv, toks, 0, n) == src);
            if n > 0 {
                lemma_whitespace_from_visible(tv, toks, 0, Seq::empty(), iw);
                assert(visible(Seq::<char>::empty()) + visible(src) =~= visible(src));
            }
        },
        None => {},
    }
}

} // verus!
