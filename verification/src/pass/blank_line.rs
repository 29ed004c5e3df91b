use vstd::prelude::*;

use crate::pass::section_header::is_section_border;
use crate::pass::section_header::section_border;
use crate::text::is_blank;
use crate::text::is_blank_vec;
use crate::text::break_free;
use crate::text::join_lines;
use crate::text::lemma_join_split;
use crate::text::lemma_split_join;
use crate::text::lemma_split_lines_breaks;
use crate::text::join_lines_vec;
use crate::text::split_lines;
use crate::text::split_lines_vec;
use crate::text::lemma_skip_ws_back;
use crate::text::skip_ws;
use crate::text::trim;
use crate::text::trim_vec;
use crate::text::view_lines;
use crate::text::copy_vec;

verus! {

// ============================
// === collapse_blank_lines ===
// ============================

/// `n` empty lines.
pub open spec fn empty_lines(n: nat) -> Seq<Seq<char>> {
    Seq::new(n, |i: int| Seq::<char>::empty())
}

pub open spec fn min_nat(a: nat, b: nat) -> nat {
    if a <= b {
        a
    } else {
        b
    }
}

/// How many blank lines may stand before a line: two before a section border, else one.
pub open spec fn max_blanks_before(line: Seq<char>) -> nat {
    if section_border(trim(line)) {
        2
    } else {
        1
    }
}

/// The lines that collapsing blank runs produces from `lines[i..]`, given the lines kept so
/// far and the number of blank lines seen since the last kept line.
pub open spec fn collapse_from(
    lines: Seq<Seq<char>>,
    i: int,
    kept: Seq<Seq<char>>,
    blanks: nat,
) -> Seq<Seq<char>>
    decreases lines.len() - i,
{
    if i >= lines.len() {
        kept + empty_lines(min_nat(blanks, 1))
    } else if is_blank(lines[i]) {
        collapse_from(lines, i + 1, kept, blanks + 1)
    } else {
        let n = min_nat(blanks, max_blanks_before(lines[i]));
        collapse_from(lines, i + 1, kept + empty_lines(n) + seq![lines[i]], 0)
    }
}

/// The lines of `collapse_blank_lines(s)`.
pub open spec fn collapsed_lines(s: Seq<char>) -> Seq<Seq<char>> {
    collapse_from(split_lines(s), 0, Seq::empty(), 0)
}

/// Collapses runs of blank lines into one empty line (two before a section border).
pub open spec fn collapsed_blank_lines(s: Seq<char>) -> Seq<char> {
    join_lines(collapsed_lines(s))
}

fn push_empty_lines(result: &mut Vec<Vec<char>>, n: usize)
    ensures
        view_lines(final(result)@) == view_lines(old(result)@) + empty_lines(n as nat),
{
    let mut k: usize = 0;
    while k < n
        invariant
            k <= n,
            view_lines(result@) =~= view_lines(old(result)@) + empty_lines(k as nat),
        decreases n - k,
    {
        let ghost before = view_lines(result@);
        result.push(Vec::new());
        assert(view_lines(result@) =~= before.push(Seq::<char>::empty()));
        assert(empty_lines((k + 1) as nat) =~= empty_lines(k as nat).push(Seq::<char>::empty()));
        k = k + 1;
    }
}

/// Collapses runs of blank lines into one empty line (two before a section border).
pub fn collapse_blank_lines(source: &Vec<char>) -> (r: Vec<char>)
    ensures
        r@ == collapsed_blank_lines(source@),
{
    let lines = split_lines_vec(source);
    let mut result: Vec<Vec<char>> = Vec::new();
    let mut blank_count: usize = 0;
    let mut i: usize = 0;
    assert(view_lines(result@) =~= Seq::<Seq<char>>::empty());
    while i < lines.len()
        invariant
            i <= lines@.len(),
            view_lines(lines@) == split_lines(source@),
            blank_count <= i,
            collapse_from(view_lines(lines@), i as int, view_lines(result@), blank_count as nat)
                == collapsed_lines(source@),
        decreases lines@.len() - i,
    {
        let line = &lines[i];
        if is_blank_vec(line) {
            blank_count = blank_count + 1;
        } else {
            let t = trim_vec(line);
            let max_blanks: usize = if is_section_border(&t) {
                2
            } else {
                1
            };
            let n = if blank_count <= max_blanks {
                blank_count
            } else {
                max_blanks
            };
            let ghost before = view_lines(result@);
            push_empty_lines(&mut result, n);
            result.push(copy_vec(line));
            blank_count = 0;
            assert(view_lines(result@) =~= before + empty_lines(n as nat) + seq![line@]);
        }
        i = i + 1;
    }
    let n = if blank_count <= 1 {
        blank_count
    } else {
        1
    };
    push_empty_lines(&mut result, n);
    join_lines_vec(&result)
}

// ===============================
// === ensure_trailing_newline ===
// ===============================

/// The text with a `'\n'` appended unless it already ends with one.
pub open spec fn with_trailing_newline(s: Seq<char>) -> Seq<char> {
    if s.len() > 0 && s.last() == '\n' {
        s
    } else {
        s.push('\n')
    }
}

/// Appends a line break unless the text already ends with one.
pub fn ensure_trailing_newline(s: Vec<char>) -> (r: Vec<char>)
    ensures
        r@ == with_trailing_newline(s@),
{
    let mut s = s;
    if !(s.len() > 0 && s[s.len() - 1] == '\n') {
        s.push('\n');
    }
    s
}

// ============
// === Laws ===
// ============

/// The lines of `ls` that are not blank, in order.
pub open spec fn content_lines(ls: Seq<Seq<char>>) -> Seq<Seq<char>>
    decreases ls.len(),
{
    if ls.len() == 0 {
        ls
    } else if is_blank(ls.last()) {
        content_lines(ls.drop_last())
    } else {
        content_lines(ls.drop_last()).push(ls.last())
    }
}

/// Two blank lines stand in a row only right before a section border (so never three).
pub open spec fn blank_runs_bounded(ls: Seq<Seq<char>>) -> bool {
    forall|i: int, j: int|
        0 <= i && j == i + 1 && j < ls.len() && #[trigger] is_blank(ls[i]) && #[trigger] is_blank(
            ls[j],
        ) ==> i + 2 < ls.len() && section_border(trim(ls[i + 2]))
}

proof fn lemma_content_concat(a: Seq<Seq<char>>, b: Seq<Seq<char>>)
    ensures
        content_lines(a + b) == content_lines(a) + content_lines(b),
    decreases b.len(),
{
    if b.len() == 0 {
        assert(a + b =~= a);
        assert(content_lines(a) + content_lines(b) =~= content_lines(a));
    } else {
        lemma_content_concat(a, b.drop_last());
        assert((a + b).drop_last() =~= a + b.drop_last());
        assert((a + b).last() == b.last());
        if !is_blank(b.last()) {
            assert(content_lines(a) + content_lines(b.drop_last()).push(b.last()) =~= (
            content_lines(a) + content_lines(b.drop_last())).push(b.last()));
        }
    }
}

proof fn lemma_content_empty_lines(n: nat)
    ensures
        content_lines(empty_lines(n)) == Seq::<Seq<char>>::empty(),
    decreases n,
{
    if n > 0 {
        assert(empty_lines(n).drop_last() =~= empty_lines((n - 1) as nat));
        assert(is_blank(empty_lines(n).last()));
        lemma_content_empty_lines((n - 1) as nat);
    } else {
        assert(empty_lines(n) =~= Seq::<Seq<char>>::empty());
    }
}

proof fn lemma_content_single(l: Seq<char>)
    ensures
        content_lines(seq![l]) == (if is_blank(l) {
            Seq::<Seq<char>>::empty()
        } else {
            seq![l]
        }),
{
    assert(seq![l].drop_last() =~= Seq::<Seq<char>>::empty());
    assert(seq![l].last() == l);
    assert(content_lines(Seq::<Seq<char>>::empty()) == Seq::<Seq<char>>::empty());
    if !is_blank(l) {
        assert(Seq::<Seq<char>>::empty().push(l) =~= seq![l]);
    }
}

proof fn lemma_collapse_content(lines: Seq<Seq<char>>, i: int, kept: Seq<Seq<char>>, blanks: nat)
    requires
        0 <= i <= lines.len(),
    ensures
        content_lines(collapse_from(lines, i, kept, blanks)) == content_lines(kept) + content_lines(
            lines.subrange(i, lines.len() as int),
        ),
    decreases lines.len() - i,
{
    let rest = lines.subrange(i, lines.len() as int);
    if i >= lines.len() {
        let m = min_nat(blanks, 1);
        lemma_content_concat(kept, empty_lines(m));
        lemma_content_empty_lines(m);
        assert(rest =~= Seq::<Seq<char>>::empty());
        assert(content_lines(kept) + content_lines(rest) =~= content_lines(kept));
        assert(content_lines(kept) + Seq::<Seq<char>>::empty() =~= content_lines(kept));
    } else {
        let l = lines[i];
        assert(rest =~= seq![l] + lines.subrange(i + 1, lines.len() as int));
        lemma_content_concat(seq![l], lines.subrange(i + 1, lines.len() as int));
        lemma_content_single(l);
        if is_blank(l) {
            lemma_collapse_content(lines, i + 1, kept, blanks + 1);
            assert(Seq::<Seq<char>>::empty() + content_lines(lines.subrange(i + 1, lines.len() as int))
                =~= content_lines(lines.subrange(i + 1, lines.len() as int)));
        } else {
            let n = min_nat(blanks, max_blanks_before(l));
            let kept2 = kept + empty_lines(n) + seq![l];
            lemma_collapse_content(lines, i + 1, kept2, 0);
            lemma_content_concat(kept + empty_lines(n), seq![l]);
            lemma_content_concat(kept, empty_lines(n));
            lemma_content_empty_lines(n);
            assert(content_lines(kept) + Seq::<Seq<char>>::empty() =~= content_lines(kept));
            assert(content_lines(kept2) + content_lines(lines.subrange(i + 1, lines.len() as int))
                =~= content_lines(kept) + (seq![l] + content_lines(
                lines.subrange(i + 1, lines.len() as int),
            )));
        }
    }
}

proof fn lemma_collapse_lines_break_free(lines: Seq<Seq<char>>, i: int, kept: Seq<Seq<char>>, blanks: nat)
    requires
        0 <= i <= lines.len(),
        forall|k: int| 0 <= k < lines.len() ==> break_free(#[trigger] lines[k]),
        forall|k: int| 0 <= k < kept.len() ==> break_free(#[trigger] kept[k]),
        i < lines.len() || kept.len() > 0 || blanks > 0,
    ensures
        collapse_from(lines, i, kept, blanks).len() >= 1,
        forall|k: int|
            0 <= k < collapse_from(lines, i, kept, blanks).len() ==> break_free(
                #[trigger] collapse_from(lines, i, kept, blanks)[k],
            ),
    decreases lines.len() - i,
{
    if i >= lines.len() {
        let out = kept + empty_lines(min_nat(blanks, 1));
        assert forall|k: int| 0 <= k < out.len() implies break_free(#[trigger] out[k]) by {
            if k < kept.len() {
                assert(out[k] == kept[k]);
            } else {
                assert(out[k] =~= Seq::<char>::empty());
            }
        }
    } else if is_blank(lines[i]) {
        lemma_collapse_lines_break_free(lines, i + 1, kept, blanks + 1);
    } else {
        let l = lines[i];
        let n = min_nat(blanks, max_blanks_before(l));
        let kept2 = kept + empty_lines(n) + seq![l];
        assert forall|k: int| 0 <= k < kept2.len() implies break_free(#[trigger] kept2[k]) by {
            if k < kept.len() {
                assert(kept2[k] == kept[k]);
            } else if k < kept.len() + n {
                assert(kept2[k] =~= Seq::<char>::empty());
            } else {
                assert(kept2[k] == l);
            }
        }
        lemma_collapse_lines_break_free(lines, i + 1, kept2, 0);
    }
}

/// The lines of the collapsed text are exactly the lines that collapsing produces.
proof fn lemma_collapsed_output_lines(s: Seq<char>)
    ensures
        split_lines(collapsed_blank_lines(s)) == collapsed_lines(s),
{
    lemma_split_lines_breaks(s);
    lemma_join_split(s);
    lemma_collapse_lines_break_free(split_lines(s), 0, Seq::empty(), 0);
    lemma_split_join(collapsed_lines(s));
}

/// Collapsing blank lines keeps every non-blank line of the text, unchanged and in order,
/// and adds none.
pub proof fn law_collapse_keeps_content(s: Seq<char>)
    ensures
        content_lines(split_lines(collapsed_blank_lines(s))) == content_lines(split_lines(s)),
{
    let lines = split_lines(s);
    lemma_collapsed_output_lines(s);
    lemma_collapse_content(lines, 0, Seq::empty(), 0);
    assert(lines.subrange(0, lines.len() as int) =~= lines);
    assert(content_lines(Seq::<Seq<char>>::empty()) + content_lines(lines) =~= content_lines(lines));
}

proof fn lemma_runs_extend(kept: Seq<Seq<char>>, n: nat, l: Seq<char>)
    requires
        blank_runs_bounded(kept),
        kept.len() == 0 || !is_blank(kept.last()),
        n <= 2,
        n == 2 ==> section_border(trim(l)),
        !is_blank(l),
    ensures
        blank_runs_bounded(kept + empty_lines(n) + seq![l]),
        !is_blank((kept + empty_lines(n) + seq![l]).last()),
{
    let out = kept + empty_lines(n) + seq![l];
    let k = kept.len() as int;
    assert(out.len() == k + n + 1);
    assert forall|i: int, j: int|
        0 <= i && j == i + 1 && j < out.len() && #[trigger] is_blank(out[i]) && #[trigger] is_blank(
            out[j],
        ) implies i + 2 < out.len() && section_border(trim(out[i + 2])) by {
        if j < k {
            assert(out[i] == kept[i]);
            assert(out[j] == kept[j]);
            assert(is_blank(kept[i]) && is_blank(kept[j]));
            assert(out[i + 2] == kept[i + 2]);
        } else if i < k {
            assert(i == k - 1);
            assert(out[i] == kept.last());
        } else if j == out.len() - 1 {
            assert(out[j] == l);
        } else {
            assert(n == 2);
            assert(i == k);
            assert(out[i + 2] == l);
        }
    }
    assert(out.last() == l);
}

proof fn lemma_runs_end(kept: Seq<Seq<char>>, m: nat)
    requires
        blank_runs_bounded(kept),
        kept.len() == 0 || !is_blank(kept.last()),
        m <= 1,
    ensures
        blank_runs_bounded(kept + empty_lines(m)),
{
    let out = kept + empty_lines(m);
    let k = kept.len() as int;
    assert forall|i: int, j: int|
        0 <= i && j == i + 1 && j < out.len() && #[trigger] is_blank(out[i]) && #[trigger] is_blank(
            out[j],
        ) implies i + 2 < out.len() && section_border(trim(out[i + 2])) by {
        if j < k {
            assert(out[i] == kept[i]);
            assert(out[j] == kept[j]);
            assert(is_blank(kept[i]) && is_blank(kept[j]));
            assert(out[i + 2] == kept[i + 2]);
        } else {
            assert(i == k - 1);
            assert(out[i] == kept.last());
        }
    }
}

proof fn lemma_collapse_runs(lines: Seq<Seq<char>>, i: int, kept: Seq<Seq<char>>, blanks: nat)
    requires
        0 <= i <= lines.len(),
        blank_runs_bounded(kept),
        kept.len() == 0 || !is_blank(kept.last()),
    ensures
        blank_runs_bounded(collapse_from(lines, i, kept, blanks)),
    decreases lines.len() - i,
{
    if i >= lines.len() {
        lemma_runs_end(kept, min_nat(blanks, 1));
    } else if is_blank(lines[i]) {
        lemma_collapse_runs(lines, i + 1, kept, blanks + 1);
    } else {
        let l = lines[i];
        let n = min_nat(blanks, max_blanks_before(l));
        lemma_runs_extend(kept, n, l);
        lemma_collapse_runs(lines, i + 1, kept + empty_lines(n) + seq![l], 0);
    }
}

/// In the collapsed text, two blank lines stand in a row only right before a section
/// border, and three never do.
pub proof fn law_collapse_bounds_blank_runs(s: Seq<char>)
    ensures
        blank_runs_bounded(split_lines(collapsed_blank_lines(s))),
{
    lemma_collapsed_output_lines(s);
    lemma_collapse_runs(split_lines(s), 0, Seq::empty(), 0);
}

/// Adding the trailing line break twice is the same as adding it once.
pub proof fn law_trailing_newline_idempotent(s: Seq<char>)
    ensures
        with_trailing_newline(with_trailing_newline(s)) == with_trailing_newline(s),
        with_trailing_newline(s).last() == '\n',
{
}

/// Every blank line is empty.
pub open spec fn blanks_empty(ls: Seq<Seq<char>>) -> bool {
    forall|k: int| 0 <= k < ls.len() && is_blank(#[trigger] ls[k]) ==> ls[k].len() == 0
}

proof fn lemma_collapse_blanks_empty(lines: Seq<Seq<char>>, i: int, kept: Seq<Seq<char>>, blanks: nat)
    requires
        0 <= i <= lines.len(),
        blanks_empty(kept),
    ensures
        blanks_empty(collapse_from(lines, i, kept, blanks)),
    decreases lines.len() - i,
{
    if i >= lines.len() {
        let out = kept + empty_lines(min_nat(blanks, 1));
        assert forall|k: int| 0 <= k < out.len() && is_blank(#[trigger] out[k]) implies out[k].len() == 0 by {
            if k < kept.len() {
                assert(out[k] == kept[k]);
            }
        }
    } else if is_blank(lines[i]) {
        lemma_collapse_blanks_empty(lines, i + 1, kept, blanks + 1);
    } else {
        let l = lines[i];
        let n = min_nat(blanks, max_blanks_before(l));
        let kept2 = kept + empty_lines(n) + seq![l];
        assert forall|k: int| 0 <= k < kept2.len() && is_blank(#[trigger] kept2[k]) implies kept2[k].len() == 0 by {
            if k < kept.len() {
                assert(kept2[k] == kept[k]);
            } else if k < kept.len() + n {
                assert(kept2[k] =~= Seq::<char>::empty());
            } else {
                assert(kept2[k] == l);
            }
        }
        lemma_collapse_blanks_empty(lines, i + 1, kept2, 0);
    }
}

/// Collapsing lines that are collapsed already changes nothing.
proof fn lemma_collapse_fixed(ls: Seq<Seq<char>>, i: int, b: nat)
    requires
        0 <= b <= i <= ls.len(),
        blank_runs_bounded(ls),
        blanks_empty(ls),
        forall|k: int| i - b <= k < i ==> is_blank(#[trigger] ls[k]),
    ensures
        collapse_from(ls, i, ls.take(i - b), b) == ls,
    decreases ls.len() - i,
{
    let n = ls.len() as int;
    assert forall|k: int| i - b <= k < i implies #[trigger] ls[k] == Seq::<char>::empty() by {
        assert(is_blank(ls[k]));
        assert(ls[k].len() == 0);
    }
    if b >= 2 {
        assert(is_blank(ls[i - 2]) && is_blank(ls[i - 1]));
        assert(i < n && section_border(trim(ls[i])));
        if b >= 3 {
            assert(is_blank(ls[i - 3]) && is_blank(ls[i - 2]));
            assert(section_border(trim(ls[i - 1])));
            lemma_blank_trim_empty(ls[i - 1]);
        }
    }
    if i >= n {
        assert(b <= 1);
        assert(ls.take(i - b) + empty_lines(min_nat(b, 1)) =~= ls);
    } else if is_blank(ls[i]) {
        lemma_collapse_fixed(ls, i + 1, b + 1);
    } else {
        let l = ls[i];
        let m = min_nat(b, max_blanks_before(l));
        if b == 2 {
            assert(section_border(trim(l)));
        }
        assert(m == b);
        assert(ls.take(i - b) + empty_lines(m) + seq![l] =~= ls.take(i + 1));
        lemma_collapse_fixed(ls, i + 1, 0);
        assert(ls.take(i + 1 - 0) =~= ls.take(i + 1));
    }
}

proof fn lemma_blank_trim_empty(l: Seq<char>)
    requires
        is_blank(l),
    ensures
        trim(l).len() == 0,
{
    let a = skip_ws(l, 0, l.len() as int);
    lemma_skip_ws_back(l, a, l.len() as int);
}

/// Collapsing blank lines twice gives the same text as collapsing them once.
pub proof fn law_collapse_idempotent(s: Seq<char>)
    ensures
        collapsed_blank_lines(collapsed_blank_lines(s)) == collapsed_blank_lines(s),
{
    let ls = collapsed_lines(s);
    lemma_collapsed_output_lines(s);
    lemma_collapse_runs(split_lines(s), 0, Seq::empty(), 0);
    lemma_collapse_blanks_empty(split_lines(s), 0, Seq::empty(), 0);
    lemma_collapse_fixed(ls, 0, 0);
    assert(ls.take(0) =~= Seq::<Seq<char>>::empty());
}

} // verus!
