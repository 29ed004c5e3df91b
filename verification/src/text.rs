use vstd::prelude::*;

verus! {

// ==================
// === Characters ===
// ==================

/// The Unicode `White_Space` property, which `char::is_whitespace` and `str::trim` use.
pub open spec fn is_ws(c: char) -> bool {
    let v = c as u32;
    ||| 0x09 <= v <= 0x0D
    ||| v == 0x20
    ||| v == 0x85
    ||| v == 0xA0
    ||| v == 0x1680
    ||| 0x2000 <= v <= 0x200A
    ||| v == 0x2028
    ||| v == 0x2029
    ||| v == 0x202F
    ||| v == 0x205F
    ||| v == 0x3000
}

pub fn is_ws_char(c: char) -> (b: bool)
    ensures
        b == is_ws(c),
{
    let v = c as u32;
    (0x09 <= v && v <= 0x0D) || v == 0x20 || v == 0x85 || v == 0xA0 || v == 0x1680 || (0x2000
        <= v && v <= 0x200A) || v == 0x2028 || v == 0x2029 || v == 0x202F || v == 0x205F || v
        == 0x3000
}

/// Number of bytes of the UTF-8 encoding of `c`.
pub open spec fn utf8_len(c: char) -> nat {
    let v = c as u32;
    if v < 0x80 {
        1
    } else if v < 0x800 {
        2
    } else if v < 0x10000 {
        3
    } else {
        4
    }
}

pub fn utf8_len_of(c: char) -> (n: usize)
    ensures
        n == utf8_len(c),
{
    let v = c as u32;
    if v < 0x80 {
        1
    } else if v < 0x800 {
        2
    } else if v < 0x10000 {
        3
    } else {
        4
    }
}

/// Number of bytes of the UTF-8 encoding of `s` (what `str::len` returns).
pub open spec fn byte_len(s: Seq<char>) -> nat
    decreases s.len(),
{
    if s.len() == 0 {
        0
    } else {
        byte_len(s.drop_last()) + utf8_len(s.last())
    }
}

pub proof fn lemma_byte_len_push(s: Seq<char>, c: char)
    ensures
        byte_len(s.push(c)) == byte_len(s) + utf8_len(c),
{
    assert(s.push(c).drop_last() =~= s);
}

pub proof fn lemma_byte_len_concat(a: Seq<char>, b: Seq<char>)
    ensures
        byte_len(a + b) == byte_len(a) + byte_len(b),
    decreases b.len(),
{
    if b.len() == 0 {
        assert(a + b =~= a);
    } else {
        lemma_byte_len_concat(a, b.drop_last());
        assert((a + b).drop_last() =~= a + b.drop_last());
    }
}

pub proof fn lemma_byte_len_bounds(s: Seq<char>)
    ensures
        s.len() <= byte_len(s) <= 4 * s.len(),
    decreases s.len(),
{
    if s.len() > 0 {
        lemma_byte_len_bounds(s.drop_last());
    }
}

/// The number of bytes of the UTF-8 encoding (`str::len`).
pub fn byte_len_of(s: &Vec<char>) -> (n: u128)
    ensures
        n == byte_len(s@),
        n <= 4 * (usize::MAX as int),
{
    let mut n: u128 = 0;
    let mut k: usize = 0;
    while k < s.len()
        invariant
            k <= s@.len(),
            n == byte_len(s@.take(k as int)),
            n <= 4 * k,
        decreases s@.len() - k,
    {
        proof {
            assert(s@.take(k + 1) =~= s@.take(k as int).push(s@[k as int]));
            lemma_byte_len_push(s@.take(k as int), s@[k as int]);
        }
        let w = utf8_len_of(s[k]);
        n = n + w as u128;
        k = k + 1;
    }
    assert(s@.take(s@.len() as int) =~= s@);
    n
}

/// A run of `n` copies of `c`.
pub open spec fn run_of(c: char, n: nat) -> Seq<char> {
    Seq::new(n, |i: int| c)
}

pub open spec fn spaces(n: nat) -> Seq<char> {
    run_of(' ', n)
}

pub fn char_run(c: char, n: usize) -> (v: Vec<char>)
    ensures
        v@ == run_of(c, n as nat),
{
    let mut v: Vec<char> = Vec::new();
    let mut i: usize = 0;
    while i < n
        invariant
            i <= n,
            v@ =~= run_of(c, i as nat),
        decreases n - i,
    {
        v.push(c);
        i = i + 1;
    }
    v
}

pub fn space_run(n: usize) -> (v: Vec<char>)
    ensures
        v@ == spaces(n as nat),
{
    char_run(' ', n)
}

/// Appends `s` to `out`.
pub fn push_all(out: &mut Vec<char>, s: &[char])
    ensures
        final(out)@ == old(out)@ + s@,
{
    let mut i: usize = 0;
    while i < s.len()
        invariant
            i <= s@.len(),
            out@ =~= old(out)@ + s@.take(i as int),
        decreases s@.len() - i,
    {
        out.push(s[i]);
        i = i + 1;
    }
    assert(s@.take(s@.len() as int) =~= s@);
}

/// Appends `s[lo..hi]` to `out`.
pub fn push_range(out: &mut Vec<char>, s: &Vec<char>, lo: usize, hi: usize)
    requires
        lo <= hi <= s@.len(),
    ensures
        final(out)@ == old(out)@ + s@.subrange(lo as int, hi as int),
{
    let mut i: usize = lo;
    while i < hi
        invariant
            lo <= i <= hi <= s@.len(),
            out@ =~= old(out)@ + s@.subrange(lo as int, i as int),
        decreases hi - i,
    {
        out.push(s[i]);
        i = i + 1;
    }
}

pub fn sub_vec(s: &Vec<char>, lo: usize, hi: usize) -> (r: Vec<char>)
    requires
        lo <= hi <= s@.len(),
    ensures
        r@ == s@.subrange(lo as int, hi as int),
{
    let mut r: Vec<char> = Vec::new();
    push_range(&mut r, s, lo, hi);
    r
}

pub fn copy_vec(s: &Vec<char>) -> (r: Vec<char>)
    ensures
        r@ == s@,
{
    sub_vec(s, 0, s.len())
}

pub fn chars_eq(a: &[char], b: &[char]) -> (r: bool)
    ensures
        r == (a@ == b@),
{
    if a.len() != b.len() {
        return false;
    }
    let mut i: usize = 0;
    while i < a.len()
        invariant
            a@.len() == b@.len(),
            i <= a@.len(),
            forall|k: int| 0 <= k < i ==> a@[k] == b@[k],
        decreases a@.len() - i,
    {
        if a[i] != b[i] {
            return false;
        }
        i = i + 1;
    }
    assert(a@ =~= b@);
    true
}

pub fn range_eq(s: &Vec<char>, lo: usize, hi: usize, p: &Vec<char>) -> (r: bool)
    requires
        lo <= hi <= s@.len(),
    ensures
        r == (s@.subrange(lo as int, hi as int) == p@),
{
    if hi - lo != p.len() {
        return false;
    }
    let mut i: usize = 0;
    while i < p.len()
        invariant
            hi - lo == p@.len(),
            lo <= hi <= s@.len(),
            i <= p@.len(),
            forall|k: int| 0 <= k < i ==> s@[lo + k] == p@[k],
        decreases p@.len() - i,
    {
        if s[lo + i] != p[i] {
            assert(s@.subrange(lo as int, hi as int)[i as int] != p@[i as int]);
            return false;
        }
        i = i + 1;
    }
    assert(s@.subrange(lo as int, hi as int) =~= p@);
    true
}

// ==================
// === Whitespace ===
// ==================

/// The first index in `[i, hi)` at which `s` holds no whitespace (or `hi`).
pub open spec fn skip_ws(s: Seq<char>, i: int, hi: int) -> int
    decreases hi - i,
{
    if i < hi && is_ws(s[i]) {
        skip_ws(s, i + 1, hi)
    } else {
        i
    }
}

/// The end of `s[lo..j]` once its trailing whitespace is dropped.
pub open spec fn skip_ws_back(s: Seq<char>, lo: int, j: int) -> int
    decreases j - lo,
{
    if lo < j && is_ws(s[j - 1]) {
        skip_ws_back(s, lo, j - 1)
    } else {
        j
    }
}

pub proof fn lemma_skip_ws(s: Seq<char>, i: int, hi: int)
    requires
        i <= hi,
    ensures
        i <= skip_ws(s, i, hi) <= hi,
        forall|k: int| i <= k < skip_ws(s, i, hi) ==> is_ws(#[trigger] s[k]),
        skip_ws(s, i, hi) < hi ==> !is_ws(s[skip_ws(s, i, hi)]),
    decreases hi - i,
{
    if i < hi && is_ws(s[i]) {
        lemma_skip_ws(s, i + 1, hi);
    }
}

pub proof fn lemma_skip_ws_back(s: Seq<char>, lo: int, j: int)
    requires
        lo <= j,
    ensures
        lo <= skip_ws_back(s, lo, j) <= j,
        forall|k: int| skip_ws_back(s, lo, j) <= k < j ==> is_ws(#[trigger] s[k]),
        lo < skip_ws_back(s, lo, j) ==> !is_ws(s[skip_ws_back(s, lo, j) - 1]),
    decreases j - lo,
{
    if lo < j && is_ws(s[j - 1]) {
        lemma_skip_ws_back(s, lo, j - 1);
    }
}

pub fn skip_ws_fwd(s: &Vec<char>, lo: usize, hi: usize) -> (r: usize)
    requires
        lo <= hi <= s@.len(),
    ensures
        r == skip_ws(s@, lo as int, hi as int),
        lo <= r <= hi,
{
    proof {
        lemma_skip_ws(s@, lo as int, hi as int);
    }
    let mut i = lo;
    while i < hi && is_ws_char(s[i])
        invariant
            lo <= i <= hi <= s@.len(),
            skip_ws(s@, i as int, hi as int) == skip_ws(s@, lo as int, hi as int),
        decreases hi - i,
    {
        i = i + 1;
    }
    i
}

pub fn skip_ws_bwd(s: &Vec<char>, lo: usize, hi: usize) -> (r: usize)
    requires
        lo <= hi <= s@.len(),
    ensures
        r == skip_ws_back(s@, lo as int, hi as int),
        lo <= r <= hi,
{
    proof {
        lemma_skip_ws_back(s@, lo as int, hi as int);
    }
    let mut j = hi;
    while lo < j && is_ws_char(s[j - 1])
        invariant
            lo <= j <= hi <= s@.len(),
            skip_ws_back(s@, lo as int, j as int) == skip_ws_back(s@, lo as int, hi as int),
        decreases j - lo,
    {
        j = j - 1;
    }
    j
}

/// `str::trim_start`.
pub open spec fn trim_start(s: Seq<char>) -> Seq<char> {
    s.subrange(skip_ws(s, 0, s.len() as int), s.len() as int)
}

/// `str::trim_end`.
pub open spec fn trim_end(s: Seq<char>) -> Seq<char> {
    s.subrange(0, skip_ws_back(s, 0, s.len() as int))
}

/// `str::trim`.
pub open spec fn trim(s: Seq<char>) -> Seq<char> {
    let a = skip_ws(s, 0, s.len() as int);
    s.subrange(a, skip_ws_back(s, a, s.len() as int))
}

/// The leading whitespace of a line.
pub open spec fn leading_ws(s: Seq<char>) -> Seq<char> {
    s.take(skip_ws(s, 0, s.len() as int))
}

/// A line that `trim` leaves empty.
pub open spec fn is_blank(s: Seq<char>) -> bool {
    skip_ws(s, 0, s.len() as int) == s.len()
}

/// `str::trim`.
pub fn trim_vec(s: &Vec<char>) -> (r: Vec<char>)
    ensures
        r@ == trim(s@),
{
    let a = skip_ws_fwd(s, 0, s.len());
    let b = skip_ws_bwd(s, a, s.len());
    sub_vec(s, a, b)
}

pub fn trim_start_vec(s: &Vec<char>) -> (r: Vec<char>)
    ensures
        r@ == trim_start(s@),
{
    let a = skip_ws_fwd(s, 0, s.len());
    sub_vec(s, a, s.len())
}

pub fn trim_end_vec(s: &Vec<char>) -> (r: Vec<char>)
    ensures
        r@ == trim_end(s@),
{
    let b = skip_ws_bwd(s, 0, s.len());
    sub_vec(s, 0, b)
}

pub fn leading_ws_vec(s: &Vec<char>) -> (r: Vec<char>)
    ensures
        r@ == leading_ws(s@),
{
    let a = skip_ws_fwd(s, 0, s.len());
    sub_vec(s, 0, a)
}

pub fn is_blank_vec(s: &Vec<char>) -> (b: bool)
    ensures
        b == is_blank(s@),
{
    skip_ws_fwd(s, 0, s.len()) == s.len()
}

// ================
// === Prefixes ===
// ================

pub open spec fn starts_with(s: Seq<char>, p: Seq<char>) -> bool {
    p.len() <= s.len() && s.take(p.len() as int) == p
}

pub open spec fn ends_with(s: Seq<char>, p: Seq<char>) -> bool {
    p.len() <= s.len() && s.skip(s.len() - p.len()) == p
}

pub open spec fn contains_char(s: Seq<char>, c: char) -> bool {
    exists|k: int| 0 <= k < s.len() && s[k] == c
}

pub fn starts_with_vec(s: &Vec<char>, p: &[char]) -> (b: bool)
    ensures
        b == starts_with(s@, p@),
{
    if p.len() > s.len() {
        return false;
    }
    let mut i: usize = 0;
    while i < p.len()
        invariant
            p@.len() <= s@.len(),
            i <= p@.len(),
            forall|k: int| 0 <= k < i ==> s@[k] == p@[k],
        decreases p@.len() - i,
    {
        if s[i] != p[i] {
            assert(s@.take(p@.len() as int)[i as int] != p@[i as int]);
            return false;
        }
        i = i + 1;
    }
    assert(s@.take(p@.len() as int) =~= p@);
    true
}

pub fn ends_with_vec(s: &Vec<char>, p: &[char]) -> (b: bool)
    ensures
        b == ends_with(s@, p@),
{
    if p.len() > s.len() {
        return false;
    }
    let n = s.len();
    let off = n - p.len();
    let mut i: usize = 0;
    while i < p.len()
        invariant
            n == s@.len(),
            p@.len() <= s@.len(),
            off == s@.len() - p@.len(),
            i <= p@.len(),
            off + p@.len() == s@.len(),
            forall|k: int| 0 <= k < i ==> s@[off + k] == p@[k],
        decreases p@.len() - i,
    {
        if s[off + i] != p[i] {
            assert(s@.skip(off as int)[i as int] != p@[i as int]);
            return false;
        }
        i = i + 1;
    }
    assert(s@.skip(off as int) =~= p@);
    true
}

pub fn contains_char_vec(s: &Vec<char>, c: char) -> (b: bool)
    ensures
        b == contains_char(s@, c),
{
    let mut i: usize = 0;
    while i < s.len()
        invariant
            i <= s@.len(),
            forall|k: int| 0 <= k < i ==> s@[k] != c,
        decreases s@.len() - i,
    {
        if s[i] == c {
            return true;
        }
        i = i + 1;
    }
    false
}

// =============
// === Lines ===
// =============

/// The lines of `s.take(i)`, split at every `'\n'` (as `str::split('\n')` does).
pub open spec fn split_prefix(s: Seq<char>, i: int) -> Seq<Seq<char>>
    decreases i,
{
    if i <= 0 {
        seq![Seq::<char>::empty()]
    } else {
        let prev = split_prefix(s, i - 1);
        if s[i - 1] == '\n' {
            prev.push(Seq::<char>::empty())
        } else {
            prev.update(prev.len() - 1, prev.last().push(s[i - 1]))
        }
    }
}

/// `s.split('\n')`.
pub open spec fn split_lines(s: Seq<char>) -> Seq<Seq<char>> {
    split_prefix(s, s.len() as int)
}

/// `lines.join("\n")`.
pub open spec fn join_lines(ls: Seq<Seq<char>>) -> Seq<char>
    decreases ls.len(),
{
    if ls.len() == 0 {
        Seq::<char>::empty()
    } else if ls.len() == 1 {
        ls[0]
    } else {
        join_lines(ls.drop_last()) + seq!['\n'] + ls.last()
    }
}

pub proof fn lemma_split_prefix_len(s: Seq<char>, i: int)
    ensures
        split_prefix(s, i).len() >= 1,
    decreases i,
{
    if i > 0 {
        lemma_split_prefix_len(s, i - 1);
    }
}

pub proof fn lemma_join_push_char(ls: Seq<Seq<char>>, c: char)
    requires
        ls.len() >= 1,
    ensures
        join_lines(ls.update(ls.len() - 1, ls.last().push(c))) == join_lines(ls).push(c),
{
    let ls2 = ls.update(ls.len() - 1, ls.last().push(c));
    if ls.len() == 1 {
    } else {
        assert(ls2.drop_last() =~= ls.drop_last());
        assert(join_lines(ls2) =~= join_lines(ls).push(c));
    }
}

/// Joining the lines of a text gives the text back.
pub proof fn lemma_join_split_prefix(s: Seq<char>, i: int)
    requires
        0 <= i <= s.len(),
    ensures
        join_lines(split_prefix(s, i)) == s.take(i),
    decreases i,
{
    if i == 0 {
        assert(s.take(0) =~= Seq::<char>::empty());
    } else {
        lemma_join_split_prefix(s, i - 1);
        lemma_split_prefix_len(s, i - 1);
        let prev = split_prefix(s, i - 1);
        if s[i - 1] == '\n' {
            let cur = prev.push(Seq::<char>::empty());
            assert(cur.drop_last() =~= prev);
            assert(join_lines(cur) =~= s.take(i));
        } else {
            lemma_join_push_char(prev, s[i - 1]);
            assert(s.take(i - 1).push(s[i - 1]) =~= s.take(i));
        }
    }
}

pub proof fn lemma_join_split(s: Seq<char>)
    ensures
        join_lines(split_lines(s)) == s,
        split_lines(s).len() >= 1,
{
    lemma_join_split_prefix(s, s.len() as int);
    lemma_split_prefix_len(s, s.len() as int);
    assert(s.take(s.len() as int) =~= s);
}

/// The `'\n'` characters of `s`.
pub open spec fn newlines_of(s: Seq<char>) -> Seq<char>
    decreases s.len(),
{
    if s.len() == 0 {
        Seq::empty()
    } else if s.last() == '\n' {
        newlines_of(s.drop_last()).push('\n')
    } else {
        newlines_of(s.drop_last())
    }
}

/// No line break in `s`.
pub open spec fn break_free(s: Seq<char>) -> bool {
    forall|k: int| 0 <= k < s.len() ==> #[trigger] s[k] != '\n'
}

pub proof fn lemma_nl_break_free(s: Seq<char>)
    requires
        break_free(s),
    ensures
        newlines_of(s).len() == 0,
    decreases s.len(),
{
    if s.len() > 0 {
        assert(s.last() == s[s.len() - 1]);
        lemma_nl_break_free(s.drop_last());
    }
}

/// Splitting at line breaks gives one line more than there are breaks, none holding one.
pub proof fn lemma_split_prefix_breaks(s: Seq<char>, i: int)
    requires
        0 <= i <= s.len(),
    ensures
        split_prefix(s, i).len() == newlines_of(s.take(i)).len() + 1,
        forall|k: int| 0 <= k < split_prefix(s, i).len() ==> break_free(#[trigger] split_prefix(s, i)[k]),
    decreases i,
{
    if i == 0 {
        assert(s.take(0) =~= Seq::<char>::empty());
    } else {
        lemma_split_prefix_breaks(s, i - 1);
        let prev = split_prefix(s, i - 1);
        assert(s.take(i).drop_last() =~= s.take(i - 1));
        assert(s.take(i).last() == s[i - 1]);
        let cur = split_prefix(s, i);
        if s[i - 1] == '\n' {
            assert forall|k: int| 0 <= k < cur.len() implies break_free(#[trigger] cur[k]) by {
                if k < prev.len() {
                    assert(cur[k] == prev[k]);
                } else {
                    assert(cur[k] =~= Seq::<char>::empty());
                }
            }
        } else {
            assert forall|k: int| 0 <= k < cur.len() implies break_free(#[trigger] cur[k]) by {
                if k < prev.len() - 1 {
                    assert(cur[k] == prev[k]);
                } else {
                    let l = prev.last().push(s[i - 1]);
                    assert(cur[k] == l);
                    assert(break_free(prev[prev.len() - 1]));
                    assert forall|m: int| 0 <= m < l.len() implies #[trigger] l[m] != '\n' by {
                        if m < l.len() - 1 {
                            assert(l[m] == prev[prev.len() - 1][m]);
                        }
                    }
                }
            }
        }
    }
}

pub proof fn lemma_split_lines_breaks(s: Seq<char>)
    ensures
        split_lines(s).len() == newlines_of(s).len() + 1,
        forall|k: int| 0 <= k < split_lines(s).len() ==> break_free(#[trigger] split_lines(s)[k]),
{
    lemma_split_prefix_breaks(s, s.len() as int);
    assert(s.take(s.len() as int) =~= s);
}

proof fn lemma_split_prefix_of_prefix(x: Seq<char>, a: Seq<char>, i: int)
    requires
        0 <= i <= a.len() <= x.len(),
        x.take(a.len() as int) == a,
    ensures
        split_prefix(x, i) == split_prefix(a, i),
    decreases i,
{
    if i > 0 {
        lemma_split_prefix_of_prefix(x, a, i - 1);
        assert(x.take(a.len() as int)[i - 1] == x[i - 1]);
    }
}

proof fn lemma_split_single(b: Seq<char>, k: int)
    requires
        break_free(b),
        0 <= k <= b.len(),
    ensures
        split_prefix(b, k) == seq![b.take(k)],
    decreases k,
{
    if k == 0 {
        assert(b.take(0) =~= Seq::<char>::empty());
    } else {
        lemma_split_single(b, k - 1);
        assert(b[k - 1] != '\n');
        assert(b.take(k - 1).push(b[k - 1]) =~= b.take(k));
        assert(seq![b.take(k - 1)].update(0, b.take(k - 1).push(b[k - 1])) =~= seq![b.take(k)]);
    }
}

proof fn lemma_split_after_break(a: Seq<char>, b: Seq<char>, k: int)
    requires
        break_free(b),
        0 <= k <= b.len(),
    ensures
        split_prefix(a + seq!['\n'] + b, a.len() + 1 + k) == split_lines(a).push(b.take(k)),
    decreases k,
{
    let x = a + seq!['\n'] + b;
    let n = a.len() as int;
    if k == 0 {
        assert(x.take(n) =~= a);
        lemma_split_prefix_of_prefix(x, a, n);
        assert(x[n] == '\n');
        assert(b.take(0) =~= Seq::<char>::empty());
    } else {
        lemma_split_after_break(a, b, k - 1);
        assert(x[n + k] == b[k - 1]);
        assert(b[k - 1] != '\n');
        lemma_split_prefix_len(a, n);
        let prev = split_lines(a).push(b.take(k - 1));
        assert(b.take(k - 1).push(b[k - 1]) =~= b.take(k));
        assert(prev.last() == b.take(k - 1));
        assert(prev.update(prev.len() - 1, prev.last().push(b[k - 1])) =~= split_lines(a).push(
            b.take(k),
        ));
    }
}

/// Splitting lines that were joined with `'\n'` gives them back, when none holds a break.
pub proof fn lemma_split_join(ls: Seq<Seq<char>>)
    requires
        ls.len() >= 1,
        forall|k: int| 0 <= k < ls.len() ==> break_free(#[trigger] ls[k]),
    ensures
        split_lines(join_lines(ls)) == ls,
    decreases ls.len(),
{
    if ls.len() == 1 {
        lemma_split_single(ls[0], ls[0].len() as int);
        assert(ls[0].take(ls[0].len() as int) =~= ls[0]);
        assert(seq![ls[0]] =~= ls);
    } else {
        let d = ls.drop_last();
        assert forall|k: int| 0 <= k < d.len() implies break_free(#[trigger] d[k]) by {
            assert(d[k] == ls[k]);
        }
        lemma_split_join(d);
        assert(break_free(ls[ls.len() - 1]));
        lemma_split_after_break(join_lines(d), ls.last(), ls.last().len() as int);
        assert(ls.last().take(ls.last().len() as int) =~= ls.last());
        assert(d.push(ls.last()) =~= ls);
    }
}

pub open spec fn view_lines(ls: Seq<Vec<char>>) -> Seq<Seq<char>> {
    ls.map_values(|l: Vec<char>| l@)
}

/// Appends a line.
pub fn push_line(ls: &mut Vec<Vec<char>>, l: Vec<char>)
    ensures
        view_lines(final(ls)@) == view_lines(old(ls)@).push(l@),
{
    let ghost before = view_lines(ls@);
    let ghost lv = l@;
    ls.push(l);
    assert(view_lines(ls@) =~= before.push(lv));
}

/// Splits at every `'\n'` (`str::split('\n')`).
pub fn split_lines_vec(s: &Vec<char>) -> (ls: Vec<Vec<char>>)
    ensures
        view_lines(ls@) == split_lines(s@),
{
    let mut ls: Vec<Vec<char>> = Vec::new();
    let mut cur: Vec<char> = Vec::new();
    let mut i: usize = 0;
    while i < s.len()
        invariant
            i <= s@.len(),
            view_lines(ls@).push(cur@) == split_prefix(s@, i as int),
        decreases s@.len() - i,
    {
        let c = s[i];
        proof {
            lemma_split_prefix_len(s@, i as int);
        }
        if c == '\n' {
            let done = cur;
            ls.push(done);
            cur = Vec::new();
            assert(view_lines(ls@).push(cur@) =~= split_prefix(s@, i + 1));
        } else {
            let ghost old_cur = cur@;
            cur.push(c);
            assert(view_lines(ls@).push(cur@) =~= split_prefix(s@, i + 1));
        }
        i = i + 1;
    }
    ls.push(cur);
    assert(view_lines(ls@) =~= split_prefix(s@, s@.len() as int));
    ls
}

/// Joins lines with `'\n'` between them.
pub fn join_lines_vec(ls: &Vec<Vec<char>>) -> (s: Vec<char>)
    ensures
        s@ == join_lines(view_lines(ls@)),
{
    let mut out: Vec<char> = Vec::new();
    let mut k: usize = 0;
    while k < ls.len()
        invariant
            k <= ls@.len(),
            out@ == join_lines(view_lines(ls@).take(k as int)),
        decreases ls@.len() - k,
    {
        let ghost before = view_lines(ls@).take(k as int);
        if k > 0 {
            out.push('\n');
        }
        push_all(&mut out, ls[k].as_slice());
        proof {
            let after = view_lines(ls@).take(k + 1);
            assert(after.drop_last() =~= before);
            if k == 0 {
                assert(out@ =~= join_lines(after));
            } else {
                assert(out@ =~= join_lines(after));
            }
        }
        k = k + 1;
    }
    assert(view_lines(ls@).take(ls@.len() as int) =~= view_lines(ls@));
    out
}

// =============================
// === Splitting and joining ===
// =============================

/// The pieces of `s.take(i)` split at every `sep` (as `str::split(sep)` does).
pub open spec fn split_on_prefix(s: Seq<char>, i: int, sep: char) -> Seq<Seq<char>>
    decreases i,
{
    if i <= 0 {
        seq![Seq::<char>::empty()]
    } else {
        let prev = split_on_prefix(s, i - 1, sep);
        if s[i - 1] == sep {
            prev.push(Seq::<char>::empty())
        } else {
            prev.update(prev.len() - 1, prev.last().push(s[i - 1]))
        }
    }
}

/// `s.split(sep)`.
pub open spec fn split_on(s: Seq<char>, sep: char) -> Seq<Seq<char>> {
    split_on_prefix(s, s.len() as int, sep)
}

/// `pieces.join(sep)`.
pub open spec fn join_with(ls: Seq<Seq<char>>, sep: Seq<char>) -> Seq<char>
    decreases ls.len(),
{
    if ls.len() == 0 {
        Seq::<char>::empty()
    } else if ls.len() == 1 {
        ls[0]
    } else {
        join_with(ls.drop_last(), sep) + sep + ls.last()
    }
}

pub proof fn lemma_split_on_prefix_len(s: Seq<char>, i: int, sep: char)
    ensures
        split_on_prefix(s, i, sep).len() >= 1,
    decreases i,
{
    if i > 0 {
        lemma_split_on_prefix_len(s, i - 1, sep);
    }
}

pub fn split_on_vec(s: &Vec<char>, sep: char) -> (ls: Vec<Vec<char>>)
    ensures
        view_lines(ls@) == split_on(s@, sep),
{
    let mut ls: Vec<Vec<char>> = Vec::new();
    let mut cur: Vec<char> = Vec::new();
    let mut i: usize = 0;
    while i < s.len()
        invariant
            i <= s@.len(),
            view_lines(ls@).push(cur@) == split_on_prefix(s@, i as int, sep),
        decreases s@.len() - i,
    {
        let c = s[i];
        proof {
            lemma_split_on_prefix_len(s@, i as int, sep);
        }
        if c == sep {
            let done = cur;
            ls.push(done);
            cur = Vec::new();
            assert(view_lines(ls@).push(cur@) =~= split_on_prefix(s@, i + 1, sep));
        } else {
            cur.push(c);
            assert(view_lines(ls@).push(cur@) =~= split_on_prefix(s@, i + 1, sep));
        }
        i = i + 1;
    }
    ls.push(cur);
    assert(view_lines(ls@) =~= split_on_prefix(s@, s@.len() as int, sep));
    ls
}

pub fn join_with_vec(ls: &Vec<Vec<char>>, sep: &[char]) -> (s: Vec<char>)
    ensures
        s@ == join_with(view_lines(ls@), sep@),
{
    let mut out: Vec<char> = Vec::new();
    let mut k: usize = 0;
    while k < ls.len()
        invariant
            k <= ls@.len(),
            out@ == join_with(view_lines(ls@).take(k as int), sep@),
        decreases ls@.len() - k,
    {
        let ghost before = view_lines(ls@).take(k as int);
        if k > 0 {
            push_all(&mut out, sep);
        }
        push_all(&mut out, ls[k].as_slice());
        proof {
            let after = view_lines(ls@).take(k + 1);
            assert(after.drop_last() =~= before);
            assert(out@ =~= join_with(after, sep@));
        }
        k = k + 1;
    }
    assert(view_lines(ls@).take(ls@.len() as int) =~= view_lines(ls@));
    out
}

/// The first index `>= k` of `c` in `s`.
pub open spec fn find_from(s: Seq<char>, c: char, k: int) -> Option<int>
    decreases s.len() - k,
{
    if k < 0 || k >= s.len() {
        None
    } else if s[k] == c {
        Some(k)
    } else {
        find_from(s, c, k + 1)
    }
}

/// The last index `< j` of `c` in `s`.
pub open spec fn rfind_before(s: Seq<char>, c: char, j: int) -> Option<int>
    decreases j,
{
    if j <= 0 || j > s.len() {
        None
    } else if s[j - 1] == c {
        Some(j - 1)
    } else {
        rfind_before(s, c, j - 1)
    }
}

pub fn find_char(s: &Vec<char>, c: char, k: usize) -> (r: Option<usize>)
    ensures
        match r {
            Some(x) => find_from(s@, c, k as int) == Some(x as int) && x < s@.len(),
            None => find_from(s@, c, k as int) is None,
        },
{
    let mut j = k;
    while j < s.len() && s[j] != c
        invariant
            k <= j,
            find_from(s@, c, j as int) == find_from(s@, c, k as int),
        decreases s@.len() - j,
    {
        j = j + 1;
    }
    if j < s.len() {
        Some(j)
    } else {
        None
    }
}

pub fn rfind_char(s: &Vec<char>, c: char, j: usize) -> (r: Option<usize>)
    requires
        j <= s@.len(),
    ensures
        match r {
            Some(x) => rfind_before(s@, c, j as int) == Some(x as int) && x < j,
            None => rfind_before(s@, c, j as int) is None,
        },
{
    let mut k = j;
    while k > 0 && s[k - 1] != c
        invariant
            k <= j <= s@.len(),
            rfind_before(s@, c, k as int) == rfind_before(s@, c, j as int),
        decreases k,
    {
        k = k - 1;
    }
    if k > 0 {
        Some(k - 1)
    } else {
        None
    }
}

// ================
// === Ordering ===
// ================

/// `str` ordering: lexicographic by character (UTF-8 byte order and code point order
/// agree), a proper prefix first.
pub open spec fn lex_lt(a: Seq<char>, b: Seq<char>) -> bool
    decreases a.len(),
{
    if b.len() == 0 {
        false
    } else if a.len() == 0 {
        true
    } else if a[0] != b[0] {
        a[0] < b[0]
    } else {
        lex_lt(a.drop_first(), b.drop_first())
    }
}

pub fn lex_lt_vec(a: &Vec<char>, b: &Vec<char>) -> (r: bool)
    ensures
        r == lex_lt(a@, b@),
{
    let mut k: usize = 0;
    assert(a@.skip(0) =~= a@);
    assert(b@.skip(0) =~= b@);
    while k < a.len() && k < b.len() && a[k] == b[k]
        invariant
            k <= a@.len(),
            k <= b@.len(),
            lex_lt(a@.skip(k as int), b@.skip(k as int)) == lex_lt(a@, b@),
        decreases a@.len() - k,
    {
        assert(a@.skip(k as int).drop_first() =~= a@.skip(k + 1));
        assert(b@.skip(k as int).drop_first() =~= b@.skip(k + 1));
        k = k + 1;
    }
    if k == b.len() {
        false
    } else if k == a.len() {
        true
    } else {
        a[k] < b[k]
    }
}

/// Where `x` goes in a sorted sequence: before the first element greater than it.
pub open spec fn sorted_slot(s: Seq<Seq<char>>, x: Seq<char>, k: int) -> int
    decreases s.len() - k,
{
    if k < 0 || k >= s.len() {
        s.len() as int
    } else if lex_lt(x, s[k]) {
        k
    } else {
        sorted_slot(s, x, k + 1)
    }
}

/// The sequence sorted (`slice::sort` on strings).
pub open spec fn sort_strs(ss: Seq<Seq<char>>) -> Seq<Seq<char>>
    decreases ss.len(),
{
    if ss.len() == 0 {
        ss
    } else {
        let s = sort_strs(ss.drop_last());
        s.insert(sorted_slot(s, ss.last(), 0), ss.last())
    }
}

pub proof fn lemma_sorted_slot(s: Seq<Seq<char>>, x: Seq<char>, k: int)
    requires
        0 <= k <= s.len(),
    ensures
        k <= sorted_slot(s, x, k) <= s.len(),
    decreases s.len() - k,
{
    if k < s.len() && !lex_lt(x, s[k]) {
        lemma_sorted_slot(s, x, k + 1);
    }
}

pub proof fn lemma_sort_strs_len(ss: Seq<Seq<char>>)
    ensures
        sort_strs(ss).len() == ss.len(),
    decreases ss.len(),
{
    if ss.len() > 0 {
        lemma_sort_strs_len(ss.drop_last());
        lemma_sorted_slot(sort_strs(ss.drop_last()), ss.last(), 0);
    }
}

/// `a` comes before `b` or equals it.
pub open spec fn lex_le(a: Seq<char>, b: Seq<char>) -> bool {
    !lex_lt(b, a)
}

/// Each string is at most the next ones.
pub open spec fn strs_sorted(s: Seq<Seq<char>>) -> bool {
    forall|i: int, j: int| 0 <= i < j < s.len() ==> lex_le(#[trigger] s[i], #[trigger] s[j])
}

pub proof fn lemma_lex_irreflexive(a: Seq<char>)
    ensures
        !lex_lt(a, a),
    decreases a.len(),
{
    if a.len() > 0 {
        lemma_lex_irreflexive(a.drop_first());
    }
}

pub proof fn lemma_lex_transitive(a: Seq<char>, b: Seq<char>, c: Seq<char>)
    requires
        lex_lt(a, b),
        lex_lt(b, c),
    ensures
        lex_lt(a, c),
    decreases a.len(),
{
    if a.len() > 0 && a[0] == b[0] && b[0] == c[0] {
        lemma_lex_transitive(a.drop_first(), b.drop_first(), c.drop_first());
    }
}

proof fn lemma_sorted_slot_spec(s: Seq<Seq<char>>, x: Seq<char>, k: int)
    requires
        0 <= k <= s.len(),
    ensures
        forall|j: int| k <= j < sorted_slot(s, x, k) ==> !lex_lt(x, #[trigger] s[j]),
        sorted_slot(s, x, k) < s.len() ==> lex_lt(x, s[sorted_slot(s, x, k)]),
    decreases s.len() - k,
{
    if k < s.len() && !lex_lt(x, s[k]) {
        lemma_sorted_slot_spec(s, x, k + 1);
    }
}

proof fn lemma_sort_strs_step(s: Seq<Seq<char>>, x: Seq<char>)
    requires
        strs_sorted(s),
    ensures
        strs_sorted(s.insert(sorted_slot(s, x, 0), x)),
{
    let k = sorted_slot(s, x, 0);
    lemma_sorted_slot(s, x, 0);
    lemma_sorted_slot_spec(s, x, 0);
    let r = s.insert(k, x);
    assert forall|i: int, j: int| 0 <= i < j < r.len() implies lex_le(#[trigger] r[i], #[trigger] r[j]) by {
        if j < k {
            assert(r[i] == s[i] && r[j] == s[j]);
        } else if j == k {
            assert(r[i] == s[i] && r[j] == x);
        } else if i == k {
            assert(r[i] == x && r[j] == s[j - 1]);
            assert(lex_le(s[k], s[j - 1]) || k == j - 1);
            if lex_lt(s[j - 1], x) {
                lemma_lex_transitive(s[j - 1], x, s[k]);
                if k == j - 1 {
                    lemma_lex_irreflexive(s[k]);
                }
            }
        } else if i < k {
            assert(r[i] == s[i] && r[j] == s[j - 1]);
        } else {
            assert(r[i] == s[i - 1] && r[j] == s[j - 1]);
        }
    }
}

/// Sorting strings gives them in order, each string at most the next, and keeps every
/// string as often as it occurs.
pub proof fn law_sort_strs_sorted_permutation(ss: Seq<Seq<char>>)
    ensures
        strs_sorted(sort_strs(ss)),
        sort_strs(ss).to_multiset() == ss.to_multiset(),
    decreases ss.len(),
{
    broadcast use vstd::seq_lib::to_multiset_build, vstd::seq_lib::to_multiset_insert;

    if ss.len() > 0 {
        let d = ss.drop_last();
        law_sort_strs_sorted_permutation(d);
        lemma_sort_strs_step(sort_strs(d), ss.last());
        lemma_sort_strs_len(d);
        lemma_sorted_slot(sort_strs(d), ss.last(), 0);
        assert(d.push(ss.last()) =~= ss);
    } else {
        assert(sort_strs(ss) == ss);
    }
}

/// Sorting strings that are in order already leaves them as they are.
pub proof fn lemma_sort_strs_sorted_identity(ss: Seq<Seq<char>>)
    requires
        strs_sorted(ss),
    ensures
        sort_strs(ss) == ss,
    decreases ss.len(),
{
    if ss.len() > 0 {
        let d = ss.drop_last();
        assert(strs_sorted(d)) by {
            assert forall|i: int, j: int| 0 <= i < j < d.len() implies lex_le(#[trigger] d[i], #[trigger] d[j]) by {
                assert(d[i] == ss[i] && d[j] == ss[j]);
            }
        }
        lemma_sort_strs_sorted_identity(d);
        let x = ss.last();
        lemma_sorted_slot(d, x, 0);
        lemma_sorted_slot_spec(d, x, 0);
        let k = sorted_slot(d, x, 0);
        if k < d.len() {
            assert(lex_le(ss[k], ss[ss.len() - 1]));
            assert(d[k] == ss[k]);
        }
        assert(d.insert(d.len() as int, x) =~= ss);
    }
}

/// Sorts strings stably (as `slice::sort` does).
pub fn sort_strs_vec(ss: &Vec<Vec<char>>) -> (r: Vec<Vec<char>>)
    ensures
        view_lines(r@) == sort_strs(view_lines(ss@)),
{
    let ghost vs = view_lines(ss@);
    let mut sorted: Vec<Vec<char>> = Vec::new();
    let mut k: usize = 0;
    assert(view_lines(sorted@) =~= sort_strs(vs.take(0)));
    while k < ss.len()
        invariant
            k <= ss@.len(),
            vs == view_lines(ss@),
            view_lines(sorted@) == sort_strs(vs.take(k as int)),
        decreases ss@.len() - k,
    {
        let x = copy_vec(&ss[k]);
        let ghost s = sort_strs(vs.take(k as int));
        proof {
            lemma_sort_strs_len(vs.take(k as int));
        }
        let mut p: usize = 0;
        while p < sorted.len() && !lex_lt_vec(&x, &sorted[p])
            invariant
                p <= sorted@.len(),
                view_lines(sorted@) == s,
                sorted_slot(s, x@, p as int) == sorted_slot(s, x@, 0),
            decreases sorted@.len() - p,
        {
            p = p + 1;
        }
        proof {
            assert(vs.take(k + 1).drop_last() =~= vs.take(k as int));
            assert(vs.take(k + 1).last() == x@);
        }
        let ghost before = view_lines(sorted@);
        sorted.insert(p, x);
        assert(view_lines(sorted@) =~= before.insert(p as int, x@));
        k = k + 1;
    }
    assert(vs.take(ss@.len() as int) =~= vs);
    sorted
}

pub fn vecs_eq(a: &Vec<Vec<char>>, b: &Vec<Vec<char>>) -> (r: bool)
    ensures
        r == (view_lines(a@) == view_lines(b@)),
{
    if a.len() != b.len() {
        assert(view_lines(a@).len() != view_lines(b@).len());
        return false;
    }
    let mut k: usize = 0;
    while k < a.len()
        invariant
            a@.len() == b@.len(),
            k <= a@.len(),
            forall|j: int| 0 <= j < k ==> a@[j]@ == b@[j]@,
        decreases a@.len() - k,
    {
        if !chars_eq(a[k].as_slice(), b[k].as_slice()) {
            assert(view_lines(a@)[k as int] != view_lines(b@)[k as int]);
            return false;
        }
        k = k + 1;
    }
    assert(view_lines(a@) =~= view_lines(b@));
    true
}

// ===============
// === Strings ===
// ===============

/// `str::chars().collect::<Vec<char>>()`.
pub fn chars_of(s: &str) -> (v: Vec<char>)
    ensures
        v@ == s@,
{
    let mut v: Vec<char> = Vec::new();
    for c in it: s.chars()
        invariant
            v@ == it.seq().take(it.index()),
    {
        v.push(c);
    }
    v
}

/// Collects characters into a `String` through std's `FromIterator<&char> for String`.
/// The contract claims what std documents of it: the string holds exactly these characters,
/// in order.
#[verifier::external_body]
pub(crate) fn string_from_chars(v: &[char]) -> (s: String)
    ensures
        s@ == v@,
{
    v.iter().collect()
}

} // verus!
