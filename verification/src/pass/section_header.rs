use vstd::prelude::*;

use crate::text::byte_len;
use crate::text::copy_vec;
use crate::text::ends_with;
use crate::text::ends_with_vec;
use crate::text::is_blank;
use crate::text::is_blank_vec;
use crate::text::join_lines;
use crate::text::join_lines_vec;
use crate::text::leading_ws;
use crate::text::leading_ws_vec;
use crate::text::lemma_byte_len_bounds;
use crate::text::lemma_byte_len_concat;
use crate::text::lemma_byte_len_push;
use crate::text::push_all;
use crate::text::run_of;
use crate::text::split_lines;
use crate::text::split_lines_vec;
use crate::text::starts_with;
use crate::text::starts_with_vec;
use crate::text::trim;
use crate::text::trim_vec;
use crate::text::utf8_len_of;
use crate::text::view_lines;

verus! {

// ==============================
// === format_section_headers ===
// ==============================

/// `// ` followed by at least four `=` and nothing else.
pub open spec fn section_border(line: Seq<char>) -> bool {
    &&& line.len() > 6
    &&& starts_with(line, seq!['/', '/', ' '])
    &&& forall|k: int| 3 <= k < line.len() ==> #[trigger] line[k] == '='
}

/// `// === Name ===`.
pub open spec fn section_middle(line: Seq<char>) -> bool {
    &&& starts_with(line, seq!['/', '/', ' ', '=', '=', '=', ' '])
    &&& ends_with(line, seq![' ', '=', '=', '='])
}

/// Whether a trimmed line is a section border: `// ` and at least four `=`.
pub fn is_section_border(line: &Vec<char>) -> (b: bool)
    ensures
        b == section_border(line@),
{
    if line.len() <= 6 {
        return false;
    }
    if !starts_with_vec(line, &['/', '/', ' ']) {
        return false;
    }
    let mut k: usize = 3;
    while k < line.len()
        invariant
            3 <= k <= line@.len(),
            forall|j: int| 3 <= j < k ==> line@[j] == '=',
        decreases line@.len() - k,
    {
        if line[k] != '=' {
            return false;
        }
        k = k + 1;
    }
    true
}

/// Whether a trimmed line is the middle line of a section header: `// === Name ===`.
pub fn is_section_middle(line: &Vec<char>) -> (b: bool)
    ensures
        b == section_middle(line@),
{
    starts_with_vec(line, &['/', '/', ' ', '=', '=', '=', ' ']) && ends_with_vec(
        line,
        &[' ', '=', '=', '='],
    )
}

/// A header made of a border, a `// === Name ===` line and a border starts at `lines[i]`.
pub open spec fn is_header_at(lines: Seq<Seq<char>>, i: int) -> bool {
    &&& section_border(trim(lines[i]))
    &&& section_middle(trim(lines[i + 1]))
    &&& section_border(trim(lines[i + 2]))
}

/// The indices at which headers start, scanning from `i` and skipping past each header found.
pub open spec fn header_starts_from(lines: Seq<Seq<char>>, i: int) -> Seq<int>
    decreases lines.len() - i,
{
    if 0 <= i && i + 2 < lines.len() {
        if is_header_at(lines, i) {
            seq![i] + header_starts_from(lines, i + 3)
        } else {
            header_starts_from(lines, i + 1)
        }
    } else {
        Seq::empty()
    }
}

pub proof fn lemma_header_starts_bounds(lines: Seq<Seq<char>>, i: int)
    requires
        0 <= i,
    ensures
        forall|k: int|
            0 <= k < header_starts_from(lines, i).len() ==> {
                let h = #[trigger] header_starts_from(lines, i)[k];
                i <= h && h + 2 < lines.len() && is_header_at(lines, h)
            },
    decreases lines.len() - i,
{
    if i + 2 < lines.len() {
        if is_header_at(lines, i) {
            lemma_header_starts_bounds(lines, i + 3);
            let rest = header_starts_from(lines, i + 3);
            assert(header_starts_from(lines, i) == seq![i] + rest);
            assert forall|k: int| 0 <= k < header_starts_from(lines, i).len() implies {
                let h = #[trigger] header_starts_from(lines, i)[k];
                i <= h && h + 2 < lines.len() && is_header_at(lines, h)
            } by {
                if k > 0 {
                    assert(header_starts_from(lines, i)[k] == rest[k - 1]);
                }
            }
        } else {
            lemma_header_starts_bounds(lines, i + 1);
            assert(header_starts_from(lines, i) == header_starts_from(lines, i + 1));
        }
    } else {
        assert(header_starts_from(lines, i).len() == 0);
    }
}

/// The border line that matches a header's middle line: same indentation, and as many `=`
/// as the trimmed middle line has bytes after its `// ` prefix.
pub open spec fn header_border(middle: Seq<char>) -> Seq<char> {
    leading_ws(middle) + seq!['/', '/', ' '] + run_of('=', (byte_len(trim(middle)) - 3) as nat)
}

/// The normalized middle line of a header.
pub open spec fn header_middle(middle: Seq<char>) -> Seq<char> {
    leading_ws(middle) + trim(middle)
}

/// The lines with their trailing blank lines removed.
pub open spec fn drop_trailing_blank(r: Seq<Seq<char>>) -> Seq<Seq<char>>
    decreases r.len(),
{
    if r.len() > 0 && is_blank(r.last()) {
        drop_trailing_blank(r.drop_last())
    } else {
        r
    }
}

/// The first index at or after `i` that holds a non-blank line (or the end).
pub open spec fn skip_blank_lines(lines: Seq<Seq<char>>, i: int) -> int
    decreases lines.len() - i,
{
    if 0 <= i < lines.len() && is_blank(lines[i]) {
        skip_blank_lines(lines, i + 1)
    } else {
        i
    }
}

pub proof fn lemma_skip_blank_lines(lines: Seq<Seq<char>>, i: int)
    ensures
        i <= skip_blank_lines(lines, i),
        0 <= i <= lines.len() ==> skip_blank_lines(lines, i) <= lines.len(),
    decreases lines.len() - i,
{
    if 0 <= i < lines.len() && is_blank(lines[i]) {
        lemma_skip_blank_lines(lines, i + 1);
    }
}

/// The lines that follow a header once the lines before it are `result`.
pub open spec fn with_header(result: Seq<Seq<char>>, middle: Seq<char>) -> Seq<Seq<char>> {
    let r1 = drop_trailing_blank(result);
    let r2 = if r1.len() > 0 {
        r1 + seq![Seq::<char>::empty(), Seq::<char>::empty()]
    } else {
        r1
    };
    r2 + seq![
        header_border(middle),
        header_middle(middle),
        header_border(middle),
        Seq::<char>::empty(),
    ]
}

/// The output lines for `lines[i..]` given the output lines so far.
pub open spec fn headers_from(
    lines: Seq<Seq<char>>,
    starts: Seq<int>,
    i: int,
    result: Seq<Seq<char>>,
) -> Seq<Seq<char>>
    decreases lines.len() - i,
{
    if i < 0 || i >= lines.len() {
        result
    } else if starts.contains(i) && i + 2 < lines.len() {
        proof {
            lemma_skip_blank_lines(lines, i + 3);
        }
        headers_from(lines, starts, skip_blank_lines(lines, i + 3), with_header(result, lines[i + 1]))
    } else {
        headers_from(lines, starts, i + 1, result.push(lines[i]))
    }
}

/// Normalizes `// === Name ===` section headers: fixes border length, ensures consistent blank
/// lines around each header, and preserves indentation.
pub open spec fn section_headers_formatted(s: Seq<char>) -> Seq<char> {
    let lines = split_lines(s);
    let starts = header_starts_from(lines, 0);
    if starts.len() == 0 {
        s
    } else {
        join_lines(headers_from(lines, starts, 0, Seq::empty()))
    }
}

fn header_border_line(middle: &Vec<char>) -> (r: Vec<char>)
    requires
        section_middle(trim(middle@)),
    ensures
        r@ == header_border(middle@),
{
    let m = trim_vec(middle);
    let mut r = leading_ws_vec(middle);
    r.push('/');
    r.push('/');
    r.push(' ');
    let ghost base = r@;
    let mut k: usize = 3;
    proof {
        assert(m@.take(7) == seq!['/', '/', ' ', '=', '=', '=', ' ']);
        assert(m@.subrange(3, 3) =~= Seq::<char>::empty());
        assert(run_of('=', 0) =~= Seq::<char>::empty());
        assert(r@ =~= base + run_of('=', byte_len(m@.subrange(3, 3 as int))));
    }
    while k < m.len()
        invariant
            3 <= k <= m@.len(),
            r@ =~= base + run_of('=', byte_len(m@.subrange(3, k as int))),
        decreases m@.len() - k,
    {
        let w = utf8_len_of(m[k]);
        let mut j: usize = 0;
        let ghost start = r@;
        while j < w
            invariant
                j <= w,
                r@ =~= start + run_of('=', j as nat),
            decreases w - j,
        {
            r.push('=');
            j = j + 1;
        }
        proof {
            assert(m@.subrange(3, k + 1) =~= m@.subrange(3, k as int).push(m@[k as int]));
            lemma_byte_len_push(m@.subrange(3, k as int), m@[k as int]);
            assert(run_of('=', byte_len(m@.subrange(3, k as int))) + run_of('=', w as nat)
                =~= run_of('=', byte_len(m@.subrange(3, k + 1))));
        }
        k = k + 1;
    }
    proof {
        let mm = m@;
        assert(mm =~= mm.subrange(0, 3) + mm.subrange(3, mm.len() as int));
        lemma_byte_len_concat(mm.subrange(0, 3), mm.subrange(3, mm.len() as int));
        assert(mm.subrange(0, 3) =~= seq!['/', '/', ' ']);
        assert(mm.subrange(0, 3).drop_last().drop_last().drop_last() =~= Seq::<char>::empty());
        assert(byte_len(mm.subrange(0, 3)) == 3) by {
            reveal_with_fuel(byte_len, 4);
        }
    }
    r
}

fn header_middle_line(middle: &Vec<char>) -> (r: Vec<char>)
    ensures
        r@ == header_middle(middle@),
{
    let mut r = leading_ws_vec(middle);
    let m = trim_vec(middle);
    push_all(&mut r, m.as_slice());
    r
}

fn pop_trailing_blank(result: &mut Vec<Vec<char>>)
    ensures
        view_lines(final(result)@) == drop_trailing_blank(view_lines(old(result)@)),
{
    while result.len() > 0 && is_blank_vec(&result[result.len() - 1])
        invariant
            drop_trailing_blank(view_lines(result@)) == drop_trailing_blank(
                view_lines(old(result)@),
            ),
        decreases result@.len(),
    {
        let ghost before = view_lines(result@);
        result.pop();
        assert(view_lines(result@) =~= before.drop_last());
    }
}

/// Normalizes `// === Name ===` section headers: border length, blank lines around each
/// header, and indentation.
pub fn format_section_headers(source: &Vec<char>) -> (r: Vec<char>)
    ensures
        r@ == section_headers_formatted(source@),
{
    let lines = split_lines_vec(source);
    let ghost ls = view_lines(lines@);
    let n = lines.len();
    let mut header_starts: Vec<usize> = Vec::new();
    let mut i: usize = 0;
    proof {
        lemma_header_starts_bounds(ls, 0);
    }
    while n >= 2 && i < n - 2
        invariant
            i <= n,
            n == lines@.len(),
            ls == view_lines(lines@),
            header_starts@.map_values(|x: usize| x as int) + header_starts_from(ls, i as int)
                == header_starts_from(ls, 0),
            forall|k: int|
                0 <= k < header_starts@.len() ==> #[trigger] header_starts@[k] + 2 < n,
            forall|k: int|
                0 <= k < header_starts@.len() ==> is_header_at(ls, #[trigger] header_starts@[k] as int),
        decreases n - i,
    {
        let ghost before = header_starts@.map_values(|x: usize| x as int);
        let t1 = trim_vec(&lines[i]);
        let t2 = trim_vec(&lines[i + 1]);
        let t3 = trim_vec(&lines[i + 2]);
        if is_section_border(&t1) && is_section_middle(&t2) && is_section_border(
            &t3,
        ) {
            header_starts.push(i);
            assert(header_starts@.map_values(|x: usize| x as int) =~= before.push(i as int));
            assert(before.push(i as int) + header_starts_from(ls, i + 3) =~= before + (seq![
                i as int,
            ] + header_starts_from(ls, i + 3)));
            i = i + 3;
        } else {
            i = i + 1;
        }
    }
    let ghost starts = header_starts_from(ls, 0);
    assert(header_starts@.map_values(|x: usize| x as int) =~= starts);
    if header_starts.len() == 0 {
        return copy_vec(source);
    }
    let mut result: Vec<Vec<char>> = Vec::new();
    let mut i: usize = 0;
    assert(view_lines(result@) =~= Seq::<Seq<char>>::empty());
    while i < n
        invariant
            n == lines@.len(),
            ls == view_lines(lines@),
            ls == split_lines(source@),
            header_starts@.map_values(|x: usize| x as int) == starts,
            starts == header_starts_from(ls, 0),
            forall|k: int|
                0 <= k < header_starts@.len() ==> #[trigger] header_starts@[k] + 2 < n,
            forall|k: int|
                0 <= k < header_starts@.len() ==> is_header_at(ls, #[trigger] header_starts@[k] as int),
            headers_from(ls, starts, i as int, view_lines(result@)) == headers_from(
                ls,
                starts,
                0,
                Seq::empty(),
            ),
        decreases n - i,
    {
        if vec_contains_usize(&header_starts, i) {
            proof {
                let k = choose|k: int| 0 <= k < header_starts@.len() && header_starts@[k] == i;
                assert(starts[k] == i as int);
                assert(starts.contains(i as int));
            }
            let ghost i0 = i as int;
            let middle = &lines[i + 1];
            let ghost before = view_lines(result@);
            let border = header_border_line(middle);
            let mid = header_middle_line(middle);
            pop_trailing_blank(&mut result);
            if result.len() > 0 {
                result.push(Vec::new());
                result.push(Vec::new());
            }
            result.push(copy_vec(&border));
            result.push(mid);
            result.push(border);
            result.push(Vec::new());
            assert(view_lines(result@) =~= with_header(before, ls[i0 + 1]));
            i = i + 3;
            let ghost start = i as int;
            while i < n && is_blank_vec(&lines[i])
                invariant
                    n == lines@.len(),
                    ls == view_lines(lines@),
                    start <= i <= n,
                    skip_blank_lines(ls, i as int) == skip_blank_lines(ls, start),
                decreases n - i,
            {
                i = i + 1;
            }
            assert(i as int == skip_blank_lines(ls, start));
        } else {
            proof {
                if starts.contains(i as int) {
                    let k = choose|k: int| 0 <= k < starts.len() && starts[k] == i as int;
                    assert(header_starts@[k] == i);
                }
            }
            let ghost before = view_lines(result@);
            result.push(copy_vec(&lines[i]));
            assert(view_lines(result@) =~= before.push(ls[i as int]));
            i = i + 1;
        }
    }
    join_lines_vec(&result)
}

fn vec_contains_usize(v: &Vec<usize>, x: usize) -> (b: bool)
    ensures
        b == (exists|k: int| 0 <= k < v@.len() && v@[k] == x),
{
    let mut k: usize = 0;
    while k < v.len()
        invariant
            k <= v@.len(),
            forall|j: int| 0 <= j < k ==> v@[j] != x,
        decreases v@.len() - k,
    {
        if v[k] == x {
            return true;
        }
        k = k + 1;
    }
    false
}

// ============
// === Laws ===
// ============

proof fn lemma_byte_len_ascii_run(n: nat)
    ensures
        byte_len(run_of('=', n)) == n,
    decreases n,
{
    if n > 0 {
        assert(run_of('=', n).drop_last() =~= run_of('=', (n - 1) as nat));
        lemma_byte_len_ascii_run((n - 1) as nat);
    } else {
        assert(run_of('=', n) =~= Seq::<char>::empty());
    }
}

/// A header's border line has the header's indentation, is itself a section border, and is
/// exactly as long, in bytes, as the trimmed `// === Name ===` line; the middle line keeps
/// the indentation and its trimmed text.
pub proof fn law_header_border_matches_middle(middle: Seq<char>)
    requires
        section_middle(trim(middle)),
    ensures
        ({
            let b = header_border(middle).skip(leading_ws(middle).len() as int);
            &&& header_border(middle) == leading_ws(middle) + b
            &&& section_border(b)
            &&& byte_len(b) == byte_len(trim(middle))
        }),
        header_middle(middle) == leading_ws(middle) + trim(middle),
{
    let m = trim(middle);
    let w = leading_ws(middle);
    lemma_byte_len_bounds(m);
    assert(m.len() >= 7);
    let n = (byte_len(m) - 3) as nat;
    let b = seq!['/', '/', ' '] + run_of('=', n);
    assert(header_border(middle) =~= w + b);
    assert(header_border(middle).skip(w.len() as int) =~= b);
    assert(b.take(3) =~= seq!['/', '/', ' ']);
    assert forall|k: int| 3 <= k < b.len() implies #[trigger] b[k] == '=' by {
        assert(b[k] == run_of('=', n)[k - 3]);
    }
    lemma_byte_len_concat(seq!['/', '/', ' '], run_of('=', n));
    lemma_byte_len_ascii_run(n);
    assert(byte_len(seq!['/', '/', ' ']) == 3) by {
        reveal_with_fuel(byte_len, 4);
        assert(seq!['/', '/', ' '].drop_last() =~= seq!['/', '/']);
        assert(seq!['/', '/'].drop_last() =~= seq!['/']);
        assert(seq!['/'].drop_last() =~= Seq::<char>::empty());
    }
}

/// A text with no section header passes through unchanged.
pub proof fn law_no_header_unchanged(s: Seq<char>)
    requires
        header_starts_from(split_lines(s), 0).len() == 0,
    ensures
        section_headers_formatted(s) == s,
{
}

} // verus!
