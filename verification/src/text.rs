//! Text as sequences of `char`: lines, trimming, searching, ordering and
//! number formatting.

use vstd::prelude::*;

verus! {

/// A character with the Unicode `White_Space` property, the set that
/// `char::is_whitespace` (and so `str::trim`) uses.
pub open spec fn is_space(c: char) -> bool {
    let u = c as u32;
    ||| 0x09 <= u <= 0x0d
    ||| u == 0x20
    ||| u == 0x85
    ||| u == 0xa0
    ||| u == 0x1680
    ||| 0x2000 <= u <= 0x200a
    ||| u == 0x2028
    ||| u == 0x2029
    ||| u == 0x202f
    ||| u == 0x205f
    ||| u == 0x3000
}

/// Index of the first `c` in `s` at or after `i`, or `s.len()` when there is none.
pub open spec fn next_index(s: Seq<char>, c: char, i: int) -> int
    decreases s.len() - i,
{
    if i >= s.len() {
        s.len() as int
    } else if s[i] == c {
        i
    } else {
        next_index(s, c, i + 1)
    }
}

pub proof fn lemma_next_index_bounds(s: Seq<char>, c: char, i: int)
    requires
        0 <= i <= s.len(),
    ensures
        i <= next_index(s, c, i) <= s.len(),
        next_index(s, c, i) < s.len() ==> s[next_index(s, c, i)] == c,
        forall|k: int| i <= k < next_index(s, c, i) ==> s[k] != c,
    decreases s.len() - i,
{
    if i < s.len() && s[i] != c {
        lemma_next_index_bounds(s, c, i + 1);
    }
}

/// A line without its `\n` terminator: a `\r` left before the `\n` goes too.
pub open spec fn strip_cr(l: Seq<char>) -> Seq<char> {
    if l.len() > 0 && l.last() == '\r' {
        l.drop_last()
    } else {
        l
    }
}

/// The lines of `s` that start at or after position `i`.
pub open spec fn lines_from(s: Seq<char>, i: int) -> Seq<Seq<char>>
    decreases s.len() - i,
    via lines_from_decreases
{
    if i < 0 || i >= s.len() {
        seq![]
    } else {
        let e = next_index(s, '\n', i);
        if e < s.len() {
            seq![strip_cr(s.subrange(i, e))] + lines_from(s, e + 1)
        } else {
            seq![s.subrange(i, e)]
        }
    }
}

#[via_fn]
proof fn lines_from_decreases(s: Seq<char>, i: int) {
    if 0 <= i < s.len() {
        lemma_next_index_bounds(s, '\n', i);
    }
}

/// The lines of `s` as `str::lines` yields them: split at `\n` or `\r\n`,
/// the terminators dropped, no empty line after a final terminator, and a
/// `\r` at the very end kept.
pub open spec fn lines(s: Seq<char>) -> Seq<Seq<char>> {
    lines_from(s, 0)
}

/// End of the run of white space that starts at `i`.
pub open spec fn space_run_end(s: Seq<char>, i: int) -> int
    decreases s.len() - i,
{
    if 0 <= i < s.len() && is_space(s[i]) {
        space_run_end(s, i + 1)
    } else {
        i
    }
}

/// Start of the run of white space that ends at `j`, going no lower than `lo`.
pub open spec fn space_run_start(s: Seq<char>, lo: int, j: int) -> int
    decreases j - lo,
{
    if lo < j && is_space(s[j - 1]) {
        space_run_start(s, lo, j - 1)
    } else {
        j
    }
}

/// `s` without leading and trailing white space (`str::trim`).
pub open spec fn trim(s: Seq<char>) -> Seq<char> {
    let lo = space_run_end(s, 0);
    s.subrange(lo, space_run_start(s, lo, s.len() as int))
}

/// `s` without trailing white space (`str::trim_end`).
pub open spec fn trim_end(s: Seq<char>) -> Seq<char> {
    s.subrange(0, space_run_start(s, 0, s.len() as int))
}

/// `t` is `line` trimmed.
pub open spec fn trimmed_from(t: Seq<char>, line: Seq<char>) -> bool {
    t == trim(line)
}

/// `p` occurs in `s` at position `i`.
pub open spec fn occurs_at(s: Seq<char>, p: Seq<char>, i: int) -> bool {
    0 <= i && i + p.len() <= s.len() && s.subrange(i, i + p.len()) == p
}

/// `s` starts with `p` (`str::starts_with`).
pub open spec fn has_prefix(s: Seq<char>, p: Seq<char>) -> bool {
    occurs_at(s, p, 0)
}

/// `p` occurs somewhere in `s` (`str::contains`).
pub open spec fn has_infix(s: Seq<char>, p: Seq<char>) -> bool {
    exists|i: int| occurs_at(s, p, i)
}

/// The part of `s` before the first `c`: the first item of `s.split(c)`.
pub open spec fn before(s: Seq<char>, c: char) -> Seq<char> {
    s.subrange(0, next_index(s, c, 0))
}

/// `a` sorts strictly before `b`, comparing code points from the left
/// (the order of `String`).
pub open spec fn precedes(a: Seq<char>, b: Seq<char>) -> bool
    decreases a.len(),
{
    if a.len() == 0 {
        b.len() > 0
    } else if b.len() == 0 {
        false
    } else if a[0] != b[0] {
        a[0] < b[0]
    } else {
        precedes(a.drop_first(), b.drop_first())
    }
}

/// Decimal digit `d`.
pub open spec fn digit(d: nat) -> char {
    if d == 0 {
        '0'
    } else if d == 1 {
        '1'
    } else if d == 2 {
        '2'
    } else if d == 3 {
        '3'
    } else if d == 4 {
        '4'
    } else if d == 5 {
        '5'
    } else if d == 6 {
        '6'
    } else if d == 7 {
        '7'
    } else if d == 8 {
        '8'
    } else {
        '9'
    }
}

/// `n` written in decimal, as `Display` writes an unsigned integer.
pub open spec fn decimal(n: nat) -> Seq<char>
    decreases n,
{
    if n < 10 {
        seq![digit(n)]
    } else {
        decimal(n / 10).push(digit(n % 10))
    }
}

/// `parts` joined with `sep` between them (`[T]::join`).
pub open spec fn join(parts: Seq<Seq<char>>, sep: Seq<char>) -> Seq<char>
    decreases parts.len(),
{
    if parts.len() == 0 {
        seq![]
    } else if parts.len() == 1 {
        parts[0]
    } else {
        join(parts.drop_last(), sep) + sep + parts.last()
    }
}

/// `precedes` is a strict total order: irreflexive, asymmetric, and any two
/// different texts are ordered one way or the other.
pub proof fn lemma_precedes_strict_total(a: Seq<char>, b: Seq<char>)
    ensures
        !precedes(a, a),
        precedes(a, b) ==> !precedes(b, a),
        a != b ==> precedes(a, b) || precedes(b, a),
    decreases a.len(),
{
    if a.len() > 0 && b.len() > 0 {
        lemma_precedes_strict_total(a.drop_first(), b.drop_first());
        lemma_precedes_strict_total(a.drop_first(), a.drop_first());
        if a[0] == b[0] && a.drop_first() == b.drop_first() {
            assert(a =~= seq![a[0]] + a.drop_first());
            assert(b =~= seq![b[0]] + b.drop_first());
        }
    } else if a.len() > 0 {
        lemma_precedes_strict_total(a.drop_first(), a.drop_first());
    } else if b.len() > 0 {
    } else {
        assert(a =~= b);
    }
}

/// `precedes` is transitive.
pub proof fn lemma_precedes_transitive(a: Seq<char>, b: Seq<char>, c: Seq<char>)
    requires
        precedes(a, b),
        precedes(b, c),
    ensures
        precedes(a, c),
    decreases a.len(),
{
    if a.len() > 0 && b.len() > 0 && c.len() > 0 && a[0] == b[0] && b[0] == c[0] {
        lemma_precedes_transitive(a.drop_first(), b.drop_first(), c.drop_first());
    }
}

/// The part before the first `c` holds no `c`.
pub proof fn lemma_before_excludes(s: Seq<char>, c: char)
    ensures
        !before(s, c).contains(c),
{
    lemma_next_index_bounds(s, c, 0);
    let b = before(s, c);
    assert forall|i: int| 0 <= i < b.len() implies b[i] != c by {
        assert(b[i] == s[i]);
    }
}

/// An occurrence in `a` is an occurrence in `a + b` and, shifted, in `b + a`.
pub proof fn lemma_occurs_in_concat(a: Seq<char>, b: Seq<char>, x: Seq<char>, i: int)
    requires
        occurs_at(a, x, i),
    ensures
        occurs_at(a + b, x, i),
        occurs_at(b + a, x, i + b.len()),
{
    assert((a + b).subrange(i, i + x.len()) =~= a.subrange(i, i + x.len()));
    assert((b + a).subrange(i + b.len(), i + b.len() + x.len()) =~= a.subrange(i, i + x.len()));
}

/// Each part of a join occurs in it.
pub proof fn lemma_join_holds_parts(parts: Seq<Seq<char>>, sep: Seq<char>, x: Seq<char>)
    requires
        parts.contains(x),
    ensures
        has_infix(join(parts, sep), x),
    decreases parts.len(),
{
    let j = join(parts, sep);
    if parts.len() == 1 {
        assert(parts[0] == x);
        assert(occurs_at(j, x, 0)) by {
            assert(j.subrange(0, x.len() as int) =~= x);
        }
    } else {
        let prev = parts.drop_last();
        let left = join(prev, sep) + sep;
        assert(j == left + parts.last());
        if parts.last() == x {
            assert(occurs_at(x, x, 0)) by {
                assert(x.subrange(0, x.len() as int) =~= x);
            }
            lemma_occurs_in_concat(x, left, x, 0);
            assert(occurs_at(j, x, left.len() as int));
        } else {
            let k = choose|k: int| 0 <= k < parts.len() && parts[k] == x;
            assert(prev[k] == x);
            lemma_join_holds_parts(prev, sep, x);
            let i = choose|i: int| occurs_at(join(prev, sep), x, i);
            lemma_occurs_in_concat(join(prev, sep), sep, x, i);
            lemma_occurs_in_concat(left, parts.last(), x, i);
            assert(occurs_at(j, x, i));
        }
    }
}

/// What occurs in `a` occurs in `a + b`.
pub proof fn lemma_infix_extend(a: Seq<char>, b: Seq<char>, x: Seq<char>)
    requires
        has_infix(a, x),
    ensures
        has_infix(a + b, x),
{
    let i = choose|i: int| occurs_at(a, x, i);
    lemma_occurs_in_concat(a, b, x, i);
}

proof fn lemma_space_run_start_above(s: Seq<char>, lo: int, j: int, p: int)
    requires
        lo <= p < j <= s.len(),
        0 <= p,
        !is_space(s[p]),
    ensures
        p < space_run_start(s, lo, j) <= j,
    decreases j - lo,
{
    if j - 1 > p {
        lemma_space_run_start_above(s, lo, j - 1, p);
    }
}

/// Trimming the end keeps every occurrence that ends on a character that is
/// not white space.
pub proof fn lemma_trim_end_keeps(s: Seq<char>, x: Seq<char>, i: int)
    requires
        occurs_at(s, x, i),
        x.len() > 0,
        !is_space(x.last()),
    ensures
        occurs_at(trim_end(s), x, i),
{
    let e = i + x.len();
    assert(s[e - 1] == s.subrange(i, e)[x.len() - 1]);
    lemma_space_run_start_above(s, 0, s.len() as int, e - 1);
    let t = trim_end(s);
    assert(t.subrange(i, e) =~= s.subrange(i, e));
}

proof fn lemma_space_run_end_bounds(s: Seq<char>, i: int)
    requires
        0 <= i <= s.len(),
    ensures
        i <= space_run_end(s, i) <= s.len(),
        space_run_end(s, i) < s.len() ==> !is_space(s[space_run_end(s, i)]),
    decreases s.len() - i,
{
    if i < s.len() && is_space(s[i]) {
        lemma_space_run_end_bounds(s, i + 1);
    }
}

proof fn lemma_space_run_start_bounds(s: Seq<char>, lo: int, j: int)
    requires
        0 <= lo <= j <= s.len(),
    ensures
        lo <= space_run_start(s, lo, j) <= j,
        space_run_start(s, lo, j) > lo ==> !is_space(s[space_run_start(s, lo, j) - 1]),
    decreases j - lo,
{
    if lo < j && is_space(s[j - 1]) {
        lemma_space_run_start_bounds(s, lo, j - 1);
    }
}

/// A trimmed text that is not empty ends in a character that is not white space.
pub proof fn lemma_trim_bounds(s: Seq<char>)
    ensures
        trim(s).len() > 0 ==> !is_space(trim(s).last()),
{
    lemma_space_run_end_bounds(s, 0);
    let lo = space_run_end(s, 0);
    lemma_space_run_start_bounds(s, lo, s.len() as int);
    let hi = space_run_start(s, lo, s.len() as int);
    if hi > lo {
        assert(trim(s).last() == s[hi - 1]);
    }
}

// ---------------------------------------------------------------------------
// Executable counterparts.
// ---------------------------------------------------------------------------

/// The characters of `s`, in order.
pub fn str_chars(s: &str) -> (v: Vec<char>)
    ensures
        v@ == s@,
{
    let mut v: Vec<char> = Vec::new();
    for c in it: s.chars()
        invariant
            v@ == it.seq().take(it.index()),
            it.seq() == s@,
    {
        v.push(c);
    }
    v
}

/// Appends the characters of `s` to `out`.
pub fn push_str(out: &mut Vec<char>, s: &str)
    ensures
        final(out)@ == old(out)@ + s@,
{
    let cs = str_chars(s);
    push_chars(out, &cs);
}

/// Appends `s` to `out`.
pub fn push_chars(out: &mut Vec<char>, s: &[char])
    ensures
        final(out)@ == old(out)@ + s@,
{
    let ghost start = out@;
    let mut i: usize = 0;
    while i < s.len()
        invariant
            i <= s.len(),
            out@ == start + s@.take(i as int),
        decreases s.len() - i,
    {
        out.push(s[i]);
        i = i + 1;
        assert(out@ =~= start + s@.take(i as int));
    }
    assert(s@.take(s.len() as int) =~= s@);
}

/// A copy of `s[lo..hi]`.
pub fn copy_range(s: &[char], lo: usize, hi: usize) -> (r: Vec<char>)
    requires
        lo <= hi <= s.len(),
    ensures
        r@ == s@.subrange(lo as int, hi as int),
{
    let mut r: Vec<char> = Vec::new();
    let mut i: usize = lo;
    while i < hi
        invariant
            lo <= i <= hi <= s.len(),
            r@ == s@.subrange(lo as int, i as int),
        decreases hi - i,
    {
        r.push(s[i]);
        i = i + 1;
        assert(r@ =~= s@.subrange(lo as int, i as int));
    }
    r
}

/// Whether `c` is white space (`char::is_whitespace`).
pub fn is_space_char(c: char) -> (r: bool)
    ensures
        r == is_space(c),
{
    let u = c as u32;
    (0x09 <= u && u <= 0x0d) || u == 0x20 || u == 0x85 || u == 0xa0 || u == 0x1680 || (0x2000
        <= u && u <= 0x200a) || u == 0x2028 || u == 0x2029 || u == 0x202f || u == 0x205f || u
        == 0x3000
}

/// Position of the first `c` in `s` at or after `i`, or `s.len()`.
pub fn find_char(s: &[char], c: char, i: usize) -> (r: usize)
    requires
        i <= s.len(),
    ensures
        r == next_index(s@, c, i as int),
{
    let mut j: usize = i;
    while j < s.len() && s[j] != c
        invariant
            i <= j <= s.len(),
            next_index(s@, c, i as int) == next_index(s@, c, j as int),
        decreases s.len() - j,
    {
        j = j + 1;
    }
    j
}

/// The lines of `s` (`str::lines`).
pub fn split_lines(s: &[char]) -> (r: Vec<Vec<char>>)
    ensures
        r.deep_view() == lines(s@),
{
    let mut out: Vec<Vec<char>> = Vec::new();
    let mut i: usize = 0;
    while i < s.len()
        invariant
            i <= s.len(),
            lines(s@) == out.deep_view() + lines_from(s@, i as int),
        decreases s.len() - i,
    {
        let e = find_char(s, '\n', i);
        proof {
            lemma_next_index_bounds(s@, '\n', i as int);
        }
        let mut end = e;
        if e < s.len() && end > i && s[end - 1] == '\r' {
            end = end - 1;
        }
        let line = copy_range(s, i, end);
        assert(e < s.len() ==> line@ == strip_cr(s@.subrange(i as int, e as int)));
        assert(e == s.len() ==> line@ == s@.subrange(i as int, e as int));
        let ghost before_push = out.deep_view();
        assert(line.deep_view() =~= line@);
        out.push(line);
        assert(out.deep_view() =~= before_push.push(line@));
        if e < s.len() {
            assert(lines_from(s@, i as int) == seq![line@] + lines_from(s@, e + 1));
            i = e + 1;
        } else {
            assert(lines_from(s@, i as int) == seq![line@]);
            i = e;
        }
        assert(lines(s@) =~= out.deep_view() + lines_from(s@, i as int));
    }
    assert(lines_from(s@, i as int) =~= Seq::<Seq<char>>::empty());
    assert(lines(s@) =~= out.deep_view());
    out
}

/// Bounds `(lo, hi)` of `s` without its leading and trailing white space.
pub fn trim_bounds(s: &[char]) -> (r: (usize, usize))
    ensures
        r.0 == space_run_end(s@, 0),
        r.1 == space_run_start(s@, r.0 as int, s@.len() as int),
        r.0 <= r.1 <= s.len(),
        s@.subrange(r.0 as int, r.1 as int) == trim(s@),
{
    let mut lo: usize = 0;
    while lo < s.len() && is_space_char(s[lo])
        invariant
            lo <= s.len(),
            space_run_end(s@, 0) == space_run_end(s@, lo as int),
        decreases s.len() - lo,
    {
        lo = lo + 1;
    }
    let mut hi: usize = s.len();
    while hi > lo && is_space_char(s[hi - 1])
        invariant
            lo <= hi <= s.len(),
            space_run_end(s@, 0) == lo,
            space_run_start(s@, lo as int, s@.len() as int) == space_run_start(
                s@,
                lo as int,
                hi as int,
            ),
        decreases hi,
    {
        hi = hi - 1;
    }
    (lo, hi)
}

/// `s` without leading and trailing white space.
pub fn trim_chars(s: &[char]) -> (r: Vec<char>)
    ensures
        r@ == trim(s@),
{
    let (lo, hi) = trim_bounds(s);
    copy_range(s, lo, hi)
}

/// `s` without trailing white space.
pub fn trim_end_chars(s: &[char]) -> (r: Vec<char>)
    ensures
        r@ == trim_end(s@),
{
    let mut hi: usize = s.len();
    while hi > 0 && is_space_char(s[hi - 1])
        invariant
            hi <= s.len(),
            space_run_start(s@, 0, s@.len() as int) == space_run_start(s@, 0, hi as int),
        decreases hi,
    {
        hi = hi - 1;
    }
    copy_range(s, 0, hi)
}

/// Whether `p` occurs in `s` at position `i`.
pub fn occurs_at_exec(s: &[char], p: &[char], i: usize) -> (r: bool)
    ensures
        r == occurs_at(s@, p@, i as int),
{
    if i > s.len() || p.len() > s.len() - i {
        return false;
    }
    let mut k: usize = 0;
    while k < p.len()
        invariant
            k <= p.len(),
            i + p.len() <= s.len(),
            forall|m: int| 0 <= m < k ==> s@[i + m] == p@[m],
        decreases p.len() - k,
    {
        if s[i + k] != p[k] {
            assert(s@.subrange(i as int, i + p.len())[k as int] != p@[k as int]);
            return false;
        }
        k = k + 1;
    }
    assert(s@.subrange(i as int, i + p.len()) =~= p@);
    true
}

/// Whether `s` starts with `p`.
pub fn starts_with_str(s: &[char], p: &str) -> (r: bool)
    ensures
        r == has_prefix(s@, p@),
{
    let pc = str_chars(p);
    occurs_at_exec(s, &pc, 0)
}

/// Whether `p` occurs in `s`.
pub fn contains_chars(s: &[char], p: &[char]) -> (r: bool)
    ensures
        r == has_infix(s@, p@),
{
    let mut i: usize = 0;
    while i <= s.len()
        invariant
            forall|k: int| 0 <= k < i ==> !occurs_at(s@, p@, k),
        decreases s.len() + 1 - i,
    {
        if occurs_at_exec(s, p, i) {
            return true;
        }
        if i == s.len() {
            assert forall|k: int| !occurs_at(s@, p@, k) by {
                if 0 <= k && k + p@.len() <= s@.len() {
                    assert(k <= s@.len());
                }
            }
            return false;
        }
        i = i + 1;
    }
    false
}

/// Whether the text `p` occurs in `s`.
pub fn contains_str(s: &[char], p: &str) -> (r: bool)
    ensures
        r == has_infix(s@, p@),
{
    let pc = str_chars(p);
    contains_chars(s, &pc)
}

/// Whether `c` occurs in `s`.
pub fn has_char(s: &[char], c: char) -> (r: bool)
    ensures
        r == s@.contains(c),
{
    let i = find_char(s, c, 0);
    proof {
        lemma_next_index_bounds(s@, c, 0);
    }
    i < s.len()
}

/// The part of `s` before its first `c`.
pub fn before_char(s: &[char], c: char) -> (r: Vec<char>)
    ensures
        r@ == before(s@, c),
{
    let i = find_char(s, c, 0);
    proof {
        lemma_next_index_bounds(s@, c, 0);
    }
    copy_range(s, 0, i)
}

/// Whether `a` sorts strictly before `b`.
pub fn text_precedes(a: &[char], b: &[char]) -> (r: bool)
    ensures
        r == precedes(a@, b@),
{
    let mut i: usize = 0;
    assert(a@.skip(0) =~= a@);
    assert(b@.skip(0) =~= b@);
    while i < a.len() && i < b.len() && a[i] == b[i]
        invariant
            i <= a.len(),
            i <= b.len(),
            precedes(a@, b@) == precedes(a@.skip(i as int), b@.skip(i as int)),
        decreases a.len() - i,
    {
        assert(a@.skip(i as int).drop_first() =~= a@.skip(i + 1));
        assert(b@.skip(i as int).drop_first() =~= b@.skip(i + 1));
        i = i + 1;
    }
    if i == a.len() {
        i < b.len()
    } else if i == b.len() {
        false
    } else {
        assert(a@.skip(i as int)[0] == a@[i as int]);
        assert(b@.skip(i as int)[0] == b@[i as int]);
        a[i] < b[i]
    }
}

/// Whether `a` and `b` hold the same characters.
pub fn same_chars(a: &[char], b: &[char]) -> (r: bool)
    ensures
        r == (a@ == b@),
{
    if a.len() != b.len() {
        return false;
    }
    let r = occurs_at_exec(a, b, 0);
    assert(a@.subrange(0, b@.len() as int) =~= a@);
    r
}

/// Decimal digit `d`.
pub fn digit_char(d: usize) -> (c: char)
    requires
        d < 10,
    ensures
        c == digit(d as nat),
{
    if d == 0 {
        '0'
    } else if d == 1 {
        '1'
    } else if d == 2 {
        '2'
    } else if d == 3 {
        '3'
    } else if d == 4 {
        '4'
    } else if d == 5 {
        '5'
    } else if d == 6 {
        '6'
    } else if d == 7 {
        '7'
    } else if d == 8 {
        '8'
    } else {
        '9'
    }
}

/// Appends `n` in decimal to `out`.
pub fn push_decimal(out: &mut Vec<char>, n: usize)
    ensures
        final(out)@ == old(out)@ + decimal(n as nat),
    decreases n,
{
    if n < 10 {
        out.push(digit_char(n));
        assert(out@ =~= old(out)@ + decimal(n as nat));
    } else {
        push_decimal(out, n / 10);
        out.push(digit_char(n % 10));
        assert(out@ =~= old(out)@ + decimal(n as nat));
    }
}

/// `parts` joined with `sep` between them.
pub fn join_chars(parts: &Vec<Vec<char>>, sep: &str) -> (r: Vec<char>)
    ensures
        r@ == join(parts.deep_view(), sep@),
{
    let mut r: Vec<char> = Vec::new();
    let ghost all = parts.deep_view();
    let mut i: usize = 0;
    assert(all.take(0) =~= Seq::<Seq<char>>::empty());
    while i < parts.len()
        invariant
            i <= parts.len(),
            all == parts.deep_view(),
            r@ == join(all.take(i as int), sep@),
        decreases parts.len() - i,
    {
        assert(all.take(i + 1).drop_last() =~= all.take(i as int));
        assert(all[i as int] =~= parts[i as int]@);
        if i > 0 {
            push_str(&mut r, sep);
        }
        push_chars(&mut r, parts[i].as_slice());
        i = i + 1;
        if i == 1 {
            assert(r@ =~= join(all.take(i as int), sep@));
        }
    }
    assert(all.take(parts.len() as int) =~= all);
    r
}

/// The string holding exactly the characters of `v` (`String::from_iter`).
#[verifier::external_body]
pub(crate) fn chars_to_string(v: &[char]) -> (s: String)
    ensures
        s@ == v@,
{
    String::from_iter(v.iter())
}

} // verus!
