use vstd::prelude::*;

use crate::syntax::indentation::push_repeat;
use crate::syntax::indentation::repeat_seq;
use crate::text::byte_len;
use crate::text::byte_len_of;
use crate::text::is_blank;
use crate::text::is_blank_vec;
use crate::text::leading_ws;
use crate::text::leading_ws_vec;
use crate::text::push_all;
use crate::text::spaces;
use crate::text::split_lines;
use crate::text::split_lines_vec;
use crate::text::trim;
use crate::text::trim_vec;
use crate::text::view_lines;

verus! {

// =============================
// === reindent_string_token ===
// =============================

/// The index just after the last `'\n'` of `s.take(j)`, or 0.
pub open spec fn line_start_before(s: Seq<char>, j: int) -> int
    decreases j,
{
    if j <= 0 {
        0
    } else if s[j - 1] == '\n' {
        j
    } else {
        line_start_before(s, j - 1)
    }
}

/// The text after the last `'\n'` of `s`.
pub open spec fn current_line(s: Seq<char>) -> Seq<char> {
    s.subrange(line_start_before(s, s.len() as int), s.len() as int)
}

/// The number of bytes of a line's leading whitespace.
pub open spec fn lead_bytes(line: Seq<char>) -> nat {
    byte_len(leading_ws(line))
}

/// The smallest `lead_bytes` among the non-blank lines of `lines[lo..hi]`.
pub open spec fn min_lead(lines: Seq<Seq<char>>, lo: int, hi: int) -> Option<nat>
    decreases hi - lo,
{
    if hi <= lo {
        None
    } else {
        let rest = min_lead(lines, lo, hi - 1);
        if is_blank(lines[hi - 1]) {
            rest
        } else {
            let m = lead_bytes(lines[hi - 1]);
            match rest {
                Some(r) => Some(if r <= m {
                    r
                } else {
                    m
                }),
                None => Some(m),
            }
        }
    }
}

/// The re-indented content lines `lines[lo..hi]`, each after a `'\n'`: blank lines become
/// empty, others get `content_indent` plus their indentation beyond `min`.
pub open spec fn string_body(
    lines: Seq<Seq<char>>,
    lo: int,
    hi: int,
    min: nat,
    content_indent: Seq<char>,
) -> Seq<char>
    decreases hi - lo,
{
    if hi <= lo {
        Seq::empty()
    } else {
        let prev = string_body(lines, lo, hi - 1, min, content_indent);
        let line = lines[hi - 1];
        if trim(line).len() == 0 {
            prev.push('\n')
        } else {
            let rel: nat = if lead_bytes(line) >= min {
                (lead_bytes(line) - min) as nat
            } else {
                0
            };
            prev.push('\n') + content_indent + spaces(rel) + trim(line)
        }
    }
}

/// Appends a multi-line string literal re-indented to the level of the line it starts on:
/// content lines one level deeper, a closing quote on its own line at the line's level, and
/// relative indentation kept.
pub open spec fn reindent_string(out: Seq<char>, text: Seq<char>, indent_width: nat) -> Seq<char> {
    let lines = split_lines(text);
    if lines.len() <= 1 {
        out + text
    } else {
        let visual = byte_len(leading_ws(current_line(out)));
        let level = visual / indent_width;
        let indent = spaces(indent_width);
        let last = lines.len() - 1;
        let just_quote = trim(lines[last]) == seq!['"'];
        let content_end = if just_quote {
            last
        } else {
            last + 1
        };
        let min = match min_lead(lines, 1, content_end) {
            Some(m) => m,
            None => 0,
        };
        let body = string_body(lines, 1, content_end, min, repeat_seq(indent, level + 1));
        let closing = if just_quote {
            seq!['\n'] + repeat_seq(indent, level) + seq!['"']
        } else {
            Seq::empty()
        };
        out + lines[0] + body + closing
    }
}

pub open spec fn opt_nat(o: Option<u128>) -> Option<nat> {
    match o {
        Some(m) => Some(m as nat),
        None => None,
    }
}

fn current_line_start(out: &Vec<char>) -> (k: usize)
    ensures
        k == line_start_before(out@, out@.len() as int),
        k <= out@.len(),
{
    let mut j = out.len();
    while j > 0 && out[j - 1] != '\n'
        invariant
            j <= out@.len(),
            line_start_before(out@, j as int) == line_start_before(out@, out@.len() as int),
        decreases j,
    {
        j = j - 1;
    }
    j
}

fn lead_bytes_of(line: &Vec<char>) -> (n: u128)
    ensures
        n == lead_bytes(line@),
        n <= 4 * (usize::MAX as int),
{
    let l = leading_ws_vec(line);
    byte_len_of(&l)
}

fn push_spaces(out: &mut Vec<char>, n: u128)
    ensures
        final(out)@ == old(out)@ + spaces(n as nat),
{
    let mut k: u128 = 0;
    while k < n
        invariant
            k <= n,
            out@ =~= old(out)@ + spaces(k as nat),
        decreases n - k,
    {
        out.push(' ');
        k = k + 1;
    }
}

/// Appends a multi-line string literal re-indented to the level of the line it starts on.
pub fn reindent_string_token(out: &mut Vec<char>, text: &Vec<char>, indent_width: usize)
    requires
        indent_width > 0,
    ensures
        final(out)@ == reindent_string(old(out)@, text@, indent_width as nat),
{
    let lines = split_lines_vec(text);
    let ghost ls = view_lines(lines@);
    if lines.len() <= 1 {
        push_all(out, text.as_slice());
        return ;
    }
    let start = current_line_start(out);
    let ghost cur = out@.subrange(start as int, out@.len() as int);
    assert(cur == current_line(old(out)@));
    let mut cur_v: Vec<char> = Vec::new();
    crate::text::push_range(&mut cur_v, out, start, out.len());
    assert(cur_v@ =~= cur);
    let visual = lead_bytes_of(&cur_v);
    let level: u128 = visual / (indent_width as u128);
    assert(level as nat == byte_len(leading_ws(current_line(old(out)@))) / (indent_width as nat));
    let indent = crate::text::space_run(indent_width);
    let mut content_indent: Vec<char> = Vec::new();
    push_repeat(&mut content_indent, &indent, level + 1);
    assert(content_indent@ =~= repeat_seq(indent@, (level + 1) as nat));
    let last_idx = lines.len() - 1;
    let tl = trim_vec(&lines[last_idx]);
    let just_quote = tl.len() == 1 && tl[0] == '"';
    assert(just_quote == (trim(ls[last_idx as int]) == seq!['"'])) by {
        if tl@.len() == 1 && tl@[0] == '"' {
            assert(tl@ =~= seq!['"']);
        }
    }
    let content_end = if just_quote {
        last_idx
    } else {
        last_idx + 1
    };
    // smallest leading indentation of the non-blank content lines
    let mut min_found: Option<u128> = None;
    let mut k: usize = 1;
    while k < content_end
        invariant
            1 <= k <= content_end <= lines@.len(),
            ls == view_lines(lines@),
            opt_nat(min_found) == min_lead(ls, 1, k as int),
            min_found matches Some(m) ==> m <= 4 * (usize::MAX as int),
        decreases content_end - k,
    {
        if !is_blank_vec(&lines[k]) {
            let m = lead_bytes_of(&lines[k]);
            min_found = match min_found {
                Some(r) => Some(
                    if r <= m {
                        r
                    } else {
                        m
                    },
                ),
                None => Some(m),
            };
        }
        k = k + 1;
    }
    let min: u128 = match min_found {
        Some(m) => m,
        None => 0,
    };
    assert(min as nat == match min_lead(ls, 1, content_end as int) {
        Some(m) => m,
        None => 0,
    });
    push_all(out, lines[0].as_slice());
    let ghost head = out@;
    let mut k: usize = 1;
    while k < content_end
        invariant
            1 <= k <= content_end <= lines@.len(),
            ls == view_lines(lines@),
            out@ == head + string_body(ls, 1, k as int, min as nat, content_indent@),
        decreases content_end - k,
    {
        out.push('\n');
        let line = &lines[k];
        let trimmed = trim_vec(line);
        if trimmed.len() > 0 {
            let leading = lead_bytes_of(line);
            let rel: u128 = if leading >= min {
                leading - min
            } else {
                0
            };
            push_all(out, content_indent.as_slice());
            push_spaces(out, rel);
            push_all(out, trimmed.as_slice());
        }
        proof {
            let sb = string_body(ls, 1, k + 1, min as nat, content_indent@);
            assert(out@ =~= head + sb);
        }
        k = k + 1;
    }
    if just_quote {
        out.push('\n');
        push_repeat(out, &indent, level);
        out.push('"');
    }
    proof {
        let closing = if just_quote {
            seq!['\n'] + repeat_seq(indent@, level as nat) + seq!['"']
        } else {
            Seq::empty()
        };
        assert(out@ =~= old(out)@ + ls[0] + string_body(ls, 1, content_end as int, min as nat, content_indent@) + closing);
        assert(indent@ == spaces(indent_width as nat));
        assert(ls == split_lines(text@));
        assert(ls.len() > 1);
    }
}

} // verus!
