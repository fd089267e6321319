//! Character-level text operations with their specifications.

use vstd::prelude::*;
use vstd::utf8::encode_utf8;

verus! {

/// The UTF-8 bytes of a character sequence.
pub open spec fn bytes(s: Seq<char>) -> Seq<u8> {
    encode_utf8(s)
}

/// Each character takes at least one byte, and a single byte is a single
/// ASCII character.
pub proof fn lemma_bytes_len(s: Seq<char>)
    ensures
        bytes(s).len() >= s.len(),
        (bytes(s).len() == 1) <==> (s.len() == 1 && (s[0] as u32) < 128),
    decreases s.len(),
{
    if s.len() > 0 {
        lemma_bytes_len(s.drop_first());
    }
}

// ---------------------------------------------------------------------
// Specifications
// ---------------------------------------------------------------------

/// `p` occurs in `s` starting at index `i`.
pub open spec fn matches_at(s: Seq<char>, p: Seq<char>, i: int) -> bool {
    0 <= i && i + p.len() <= s.len() && s.subrange(i, i + p.len()) == p
}

/// Index of the first occurrence of the non-empty pattern `p` in `s` that
/// starts at or after `k`; -1 when there is none.
pub open spec fn find_from(s: Seq<char>, p: Seq<char>, k: int) -> int
    decreases s.len() - k,
{
    if p.len() == 0 || k < 0 || k + p.len() > s.len() {
        -1
    } else if matches_at(s, p, k) {
        k
    } else {
        find_from(s, p, k + 1)
    }
}

/// Index of the last occurrence of the non-empty pattern `p` in `s` that
/// starts at or before `k`; -1 when there is none.
pub open spec fn rfind_from(s: Seq<char>, p: Seq<char>, k: int) -> int
    decreases k + 1,
{
    if p.len() == 0 || k < 0 {
        -1
    } else if matches_at(s, p, k) {
        k
    } else {
        rfind_from(s, p, k - 1)
    }
}

/// Index of the first occurrence of `p` in `s` (`str::find`), or -1.
pub open spec fn find(s: Seq<char>, p: Seq<char>) -> int {
    find_from(s, p, 0)
}

/// Index of the last occurrence of `p` in `s` (`str::rfind`), or -1.
pub open spec fn rfind(s: Seq<char>, p: Seq<char>) -> int {
    rfind_from(s, p, s.len() - p.len())
}

/// The pieces of `s` from index `start` on, cut at the occurrences of `p`
/// found from left to right without overlap (`str::split`).
pub open spec fn split_from(s: Seq<char>, p: Seq<char>, start: int) -> Seq<Seq<char>>
    recommends
        0 <= start <= s.len(),
    decreases s.len() - start,
{
    let i = find_from(s, p, start);
    if i < 0 || start < 0 {
        seq![s.subrange(start, s.len() as int)]
    } else {
        proof {
            lemma_find_from(s, p, start);
        }
        seq![s.subrange(start, i)] + split_from(s, p, i + p.len())
    }
}

/// The pieces of `s` between the occurrences of the non-empty pattern `p`.
pub open spec fn split_on(s: Seq<char>, p: Seq<char>) -> Seq<Seq<char>> {
    split_from(s, p, 0)
}

/// `s` from index `start` on, with every occurrence of `p` found from left
/// to right replaced by `r` (`str::replace`).
pub open spec fn replace_from(s: Seq<char>, p: Seq<char>, r: Seq<char>, start: int) -> Seq<char>
    recommends
        0 <= start <= s.len(),
    decreases s.len() - start,
{
    let i = find_from(s, p, start);
    if i < 0 || start < 0 {
        s.subrange(start, s.len() as int)
    } else {
        proof {
            lemma_find_from(s, p, start);
        }
        s.subrange(start, i) + r + replace_from(s, p, r, i + p.len())
    }
}

/// `s` with every occurrence of the non-empty pattern `p` replaced by `r`.
pub open spec fn replace_all(s: Seq<char>, p: Seq<char>, r: Seq<char>) -> Seq<char> {
    replace_from(s, p, r, 0)
}

/// `s` without its trailing copies of `c` (`str::trim_end_matches`).
pub open spec fn trim_end_char(s: Seq<char>, c: char) -> Seq<char>
    decreases s.len(),
{
    if s.len() > 0 && s.last() == c {
        trim_end_char(s.drop_last(), c)
    } else {
        s
    }
}

/// The characters with the Unicode `White_Space` property
/// (`char::is_whitespace`).
pub open spec fn is_white(c: char) -> bool {
    ||| ('\u{9}' <= c && c <= '\u{d}')
    ||| c == ' '
    ||| c == '\u{85}'
    ||| c == '\u{a0}'
    ||| c == '\u{1680}'
    ||| ('\u{2000}' <= c && c <= '\u{200a}')
    ||| c == '\u{2028}'
    ||| c == '\u{2029}'
    ||| c == '\u{202f}'
    ||| c == '\u{205f}'
    ||| c == '\u{3000}'
}

/// `s` without its leading whitespace.
pub open spec fn trim_start(s: Seq<char>) -> Seq<char>
    decreases s.len(),
{
    if s.len() > 0 && is_white(s[0]) {
        trim_start(s.drop_first())
    } else {
        s
    }
}

/// `s` without its trailing whitespace.
pub open spec fn trim_end(s: Seq<char>) -> Seq<char>
    decreases s.len(),
{
    if s.len() > 0 && is_white(s.last()) {
        trim_end(s.drop_last())
    } else {
        s
    }
}

/// `s` without leading and trailing whitespace (`str::trim`).
pub open spec fn trim(s: Seq<char>) -> Seq<char> {
    trim_end(trim_start(s))
}

/// `n` copies of `p`, one after the other.
pub open spec fn repeat(p: Seq<char>, n: nat) -> Seq<char>
    decreases n,
{
    if n == 0 {
        seq![]
    } else {
        repeat(p, (n - 1) as nat) + p
    }
}

/// The words of `s` read so far, and the word being read, after the
/// characters of `s` have been read from left to right.
pub open spec fn word_state(s: Seq<char>) -> (Seq<Seq<char>>, Seq<char>)
    decreases s.len(),
{
    if s.len() == 0 {
        (seq![], seq![])
    } else {
        let prev = word_state(s.drop_last());
        let c = s.last();
        if is_white(c) {
            if prev.1.len() > 0 {
                (prev.0.push(prev.1), seq![])
            } else {
                (prev.0, seq![])
            }
        } else {
            (prev.0, prev.1.push(c))
        }
    }
}

/// The maximal runs of non-whitespace characters of `s`, in order
/// (`str::split_whitespace`).
pub open spec fn words(s: Seq<char>) -> Seq<Seq<char>> {
    let st = word_state(s);
    if st.1.len() > 0 {
        st.0.push(st.1)
    } else {
        st.0
    }
}

/// What `char::to_uppercase` yields for `c`.
pub uninterp spec fn uppercase_of(c: char) -> Seq<char>;

/// The non-empty word `w` with its first character upper-cased.
pub open spec fn capitalized(w: Seq<char>) -> Seq<char> {
    uppercase_of(w[0]) + w.skip(1)
}

/// The capitalized words of `ws`, joined without separator.
pub open spec fn joined_capitalized(ws: Seq<Seq<char>>) -> Seq<char>
    decreases ws.len(),
{
    if ws.len() == 0 {
        seq![]
    } else {
        joined_capitalized(ws.drop_last()) + capitalized(ws.last())
    }
}

/// The decimal text of `n`.
pub fn decimal_text(n: i32) -> (s: String)
    ensures
        s@ == decimal(n as int),
{
    let wide: i64 = n as i64;
    let mut m: u64 = if wide < 0 {
        (-wide) as u64
    } else {
        wide as u64
    };
    let ghost total: nat = m as nat;
    let mut acc: Vec<char> = Vec::new();
    while m >= 10
        invariant
            digits(total) == digits(m as nat) + acc@,
        decreases m,
    {
        let d = (m % 10) as u8;
        let ghost before = acc@;
        acc.insert(0, (d + 48) as char);
        assert(digits(m as nat) == digits((m / 10) as nat).push(digit_char((m % 10) as nat)));
        assert(digits(m as nat) + before =~= digits((m / 10) as nat) + acc@);
        m = m / 10;
    }
    let ghost before = acc@;
    acc.insert(0, ((m as u8) + 48) as char);
    assert(acc@ =~= digits(m as nat) + before);
    let mut s = String::new();
    if n < 0 {
        push_char(&mut s, '-');
    }
    push_chars(&mut s, &acc);
    assert(s@ =~= decimal(n as int));
    s
}

/// The camel-case form of `s`: its words, each with its first character
/// upper-cased, joined without separator.
pub open spec fn camel_case(s: Seq<char>) -> Seq<char> {
    joined_capitalized(words(s))
}

/// The character sequences that the vectors of `vs` hold.
pub open spec fn views(vs: Seq<Vec<char>>) -> Seq<Seq<char>> {
    vs.map_values(|v: Vec<char>| v@)
}

/// The decimal digit `d` as a character.
pub open spec fn digit_char(d: nat) -> char {
    ((d + 48) as u8) as char
}

/// The decimal digits of `n`, without leading zeros.
pub open spec fn digits(n: nat) -> Seq<char>
    decreases n,
{
    if n < 10 {
        seq![digit_char(n)]
    } else {
        digits(n / 10).push(digit_char(n % 10))
    }
}

/// The decimal text of `n`, with a minus sign when it is negative (as
/// `Display` writes an integer).
pub open spec fn decimal(n: int) -> Seq<char> {
    if n < 0 {
        seq!['-'] + digits((-n) as nat)
    } else {
        digits(n as nat)
    }
}

/// `s` holds no `c`.
pub open spec fn free_of(s: Seq<char>, c: char) -> bool {
    forall|i: int| 0 <= i < s.len() ==> s[i] != c
}

/// The levels `ls` written one after the other with `sep` between each two
/// (`join`); nothing for no levels.
pub open spec fn join_levels(ls: Seq<Seq<char>>, sep: Seq<char>) -> Seq<char>
    decreases ls.len(),
{
    if ls.len() == 0 {
        seq![]
    } else if ls.len() == 1 {
        ls[0]
    } else {
        ls[0] + sep + join_levels(ls.drop_first(), sep)
    }
}

// ---------------------------------------------------------------------
// Lemmas
// ---------------------------------------------------------------------

/// What `find_from` returns is the first occurrence at or after `k`.
pub proof fn lemma_find_from(s: Seq<char>, p: Seq<char>, k: int)
    ensures
        find_from(s, p, k) == -1 || (k <= find_from(s, p, k) && p.len() > 0 && matches_at(
            s,
            p,
            find_from(s, p, k),
        )),
        find_from(s, p, k) == -1 && p.len() > 0 && k >= 0 ==> forall|j: int|
            k <= j ==> !matches_at(s, p, j),
        find_from(s, p, k) != -1 ==> forall|j: int|
            k <= j < find_from(s, p, k) ==> !matches_at(s, p, j),
    decreases s.len() - k,
{
    if p.len() == 0 || k < 0 || k + p.len() > s.len() {
        if p.len() == 0 && k >= 0 && k <= s.len() {
            assert(s.subrange(k, k + p.len()) =~= p);
        }
    } else if matches_at(s, p, k) {
    } else {
        lemma_find_from(s, p, k + 1);
    }
}

/// What `rfind_from` returns is the last occurrence at or before `k`.
pub proof fn lemma_rfind_from(s: Seq<char>, p: Seq<char>, k: int)
    ensures
        rfind_from(s, p, k) == -1 || (rfind_from(s, p, k) <= k && p.len() > 0 && matches_at(
            s,
            p,
            rfind_from(s, p, k),
        )),
    decreases k + 1,
{
    if p.len() == 0 || k < 0 {
    } else if matches_at(s, p, k) {
    } else {
        lemma_rfind_from(s, p, k - 1);
    }
}

/// Trimming the trailing copies of `c` keeps a prefix of `s` that does not
/// end with `c`, and drops only copies of `c`.
pub proof fn trim_end_char_drops_trailing(s: Seq<char>, c: char)
    ensures
        trim_end_char(s, c).len() <= s.len(),
        trim_end_char(s, c) == s.subrange(0, trim_end_char(s, c).len() as int),
        trim_end_char(s, c).len() > 0 ==> trim_end_char(s, c).last() != c,
        forall|i: int| trim_end_char(s, c).len() <= i < s.len() ==> s[i] == c,
    decreases s.len(),
{
    if s.len() > 0 && s.last() == c {
        let d = s.drop_last();
        trim_end_char_drops_trailing(d, c);
        let t = trim_end_char(d, c);
        assert(d.subrange(0, t.len() as int) =~= s.subrange(0, t.len() as int));
        assert forall|i: int| t.len() <= i < s.len() implies s[i] == c by {
            if i < d.len() {
                assert(d[i] == s[i]);
            }
        }
    } else {
        assert(s.subrange(0, s.len() as int) =~= s);
    }
}

/// `n` copies of `p` are `n` times as long as `p`.
pub proof fn repeat_len(p: Seq<char>, n: nat)
    ensures
        repeat(p, n).len() == n * p.len(),
    decreases n,
{
    if n > 0 {
        let m = (n - 1) as nat;
        repeat_len(p, m);
        assert(repeat(p, n) == repeat(p, m) + p);
        assert(m * p.len() + p.len() == n * p.len()) by (nonlinear_arith)
            requires
                m + 1 == n,
        ;
    } else {
        assert(n * p.len() == 0) by (nonlinear_arith)
            requires
                n == 0,
        ;
    }
}

/// An occurrence at `j` with none between `k` and `j` is what `find_from`
/// finds from `k`.
pub proof fn lemma_find_from_is(s: Seq<char>, p: Seq<char>, k: int, j: int)
    requires
        p.len() > 0,
        0 <= k <= j,
        matches_at(s, p, j),
        forall|i: int| k <= i < j ==> !matches_at(s, p, i),
    ensures
        find_from(s, p, k) == j,
    decreases j - k,
{
    if k < j {
        lemma_find_from_is(s, p, k + 1, j);
    }
}

/// An occurrence at `j` with none after it up to `k` is what `rfind_from`
/// finds from `k`.
pub proof fn lemma_rfind_from_is(s: Seq<char>, p: Seq<char>, k: int, j: int)
    requires
        p.len() > 0,
        0 <= j <= k,
        matches_at(s, p, j),
        forall|i: int| j < i <= k ==> !matches_at(s, p, i),
    ensures
        rfind_from(s, p, k) == j,
    decreases k - j,
{
    if j < k {
        lemma_rfind_from_is(s, p, k - 1, j);
    }
}

/// Searching `x + y` from inside `y` finds what searching `y` finds,
/// moved by the length of `x`.
pub proof fn lemma_find_from_shift(x: Seq<char>, y: Seq<char>, p: Seq<char>, j: int)
    requires
        p.len() > 0,
        0 <= j,
    ensures
        find_from(x + y, p, x.len() + j) == (if find_from(y, p, j) < 0 {
            -1
        } else {
            x.len() + find_from(y, p, j)
        }),
    decreases y.len() - j,
{
    let s = x + y;
    let k = x.len() + j;
    if j + p.len() <= y.len() {
        assert(s.subrange(k, k + p.len()) =~= y.subrange(j, j + p.len()));
        if !matches_at(y, p, j) {
            lemma_find_from_shift(x, y, p, j + 1);
        }
    }
}

/// Replacing in `x + y` from inside `y` gives what replacing in `y` gives.
pub proof fn lemma_replace_from_shift(
    x: Seq<char>,
    y: Seq<char>,
    p: Seq<char>,
    r: Seq<char>,
    j: int,
)
    requires
        p.len() > 0,
        0 <= j <= y.len(),
    ensures
        replace_from(x + y, p, r, x.len() + j) == replace_from(y, p, r, j),
    decreases y.len() - j,
{
    let s = x + y;
    let k = x.len() + j;
    lemma_find_from_shift(x, y, p, j);
    lemma_find_from(y, p, j);
    let i = find_from(y, p, j);
    if i < 0 {
        assert(s.subrange(k, s.len() as int) =~= y.subrange(j, y.len() as int));
    } else {
        assert(s.subrange(k, x.len() + i) =~= y.subrange(j, i));
        lemma_replace_from_shift(x, y, p, r, i + p.len());
    }
}

/// Replacing every occurrence of `p` in `p + y` removes the leading `p` and
/// goes on in `y`.
pub proof fn lemma_replace_all_leading(p: Seq<char>, y: Seq<char>, r: Seq<char>)
    requires
        p.len() > 0,
    ensures
        replace_all(p + y, p, r) == r + replace_all(y, p, r),
{
    let s = p + y;
    assert(s.subrange(0, p.len() as int) =~= p);
    assert(find_from(s, p, 0) == 0);
    lemma_find_from(s, p, 0);
    lemma_replace_from_shift(p, y, p, r, 0);
    assert(s.subrange(0, 0) =~= Seq::<char>::empty());
    assert(replace_from(s, p, r, 0) =~= s.subrange(0, 0) + r + replace_from(s, p, r, p.len() as int));
}

/// A pattern that starts with `c` occurs nowhere in a stretch free of `c`.
pub proof fn lemma_no_match_in_free(s: Seq<char>, p: Seq<char>, c: char, a: int, b: int)
    requires
        p.len() > 0,
        p[0] == c,
        0 <= a <= b <= s.len(),
        free_of(s.subrange(a, b), c),
    ensures
        forall|i: int| a <= i < b ==> !matches_at(s, p, i),
{
    assert forall|i: int| a <= i < b implies !matches_at(s, p, i) by {
        assert(s.subrange(a, b)[i - a] == s[i]);
        if matches_at(s, p, i) {
            assert(s.subrange(i, i + p.len())[0] == s[i]);
        }
    }
}

/// Levels free of `!`, joined by `!!` and followed by `!!`, split at `!!`
/// into the levels and an empty last piece.
pub proof fn lemma_split_joined(s: Seq<char>, start: int, ls: Seq<Seq<char>>)
    requires
        0 <= start <= s.len(),
        ls.len() >= 1,
        forall|t: int| 0 <= t < ls.len() ==> free_of(#[trigger] ls[t], '!'),
        s.subrange(start, s.len() as int) == join_levels(ls, "!!"@) + "!!"@,
    ensures
        split_from(s, "!!"@, start).len() == ls.len() + 1,
    decreases ls.len(),
{
    reveal_strlit("!!");
    let p = "!!"@;
    let a = ls[0];
    let pos = start + a.len();
    let tail = s.subrange(start, s.len() as int);
    if ls.len() == 1 {
        assert(tail =~= a + p);
    } else {
        assert(tail =~= a + (p + join_levels(ls.drop_first(), p) + p));
    }
    assert(s.subrange(start, pos) =~= tail.subrange(0, a.len() as int));
    assert(s.subrange(start, pos) =~= a);
    assert(s.subrange(pos, pos + 2) =~= tail.subrange(a.len() as int, a.len() as int + 2));
    assert(tail.subrange(a.len() as int, a.len() as int + 2) =~= p);
    assert(matches_at(s, p, pos));
    lemma_no_match_in_free(s, p, '!', start, pos);
    lemma_find_from_is(s, p, start, pos);
    if ls.len() == 1 {
        assert(pos + 2 == s.len());
        assert(split_from(s, p, pos + 2) =~= seq![s.subrange(pos + 2, s.len() as int)]);
    } else {
        let rest = ls.drop_first();
        assert(s.subrange(pos + 2, s.len() as int) =~= tail.subrange(a.len() as int + 2, tail.len() as int));
        assert(tail.subrange(a.len() as int + 2, tail.len() as int) =~= join_levels(rest, p) + p);
        assert forall|t: int| 0 <= t < rest.len() implies free_of(#[trigger] rest[t], '!') by {
            assert(rest[t] == ls[t + 1]);
        }
        lemma_split_joined(s, pos + 2, rest);
    }
}

// ---------------------------------------------------------------------
// Executable operations
// ---------------------------------------------------------------------

/// Appends `c` to `s` (`String::push`): the result holds the characters of
/// `s` followed by `c`.
#[verifier::external_body]
pub(crate) fn push_char(s: &mut String, c: char)
    ensures
        final(s)@ == old(s)@.push(c),
{
    s.push(c);
}

/// Calls `char::to_uppercase` on `c` and collects what it yields; the result
/// is named `uppercase_of(c)`, which depends on `c` alone.
#[verifier::external_body]
pub(crate) fn uppercase(c: char) -> (u: String)
    ensures
        u@ == uppercase_of(c),
{
    c.to_uppercase().collect()
}

/// The characters of `s`, in order.
pub fn chars_of(s: &str) -> (v: Vec<char>)
    ensures
        v@ == s@,
{
    let mut v: Vec<char> = Vec::new();
    for c in it: s.chars()
        invariant
            v@ == it.seq().take(it.index() as int),
    {
        v.push(c);
    }
    v
}

/// The string made of the characters `cs`.
pub fn string_of(cs: &Vec<char>) -> (s: String)
    ensures
        s@ == cs@,
{
    let mut s = String::new();
    let n = cs.len();
    for i in 0..n
        invariant
            n == cs.len(),
            s@ == cs@.take(i as int),
    {
        push_char(&mut s, cs[i]);
        assert(cs@.take(i + 1) =~= cs@.take(i as int).push(cs@[i as int]));
    }
    assert(cs@.take(n as int) =~= cs@);
    s
}

/// Appends the characters `cs` to `s`.
pub fn push_chars(s: &mut String, cs: &Vec<char>)
    ensures
        final(s)@ == old(s)@ + cs@,
{
    let n = cs.len();
    for i in 0..n
        invariant
            n == cs.len(),
            s@ == old(s)@ + cs@.take(i as int),
    {
        push_char(s, cs[i]);
        assert(cs@.take(i + 1) =~= cs@.take(i as int).push(cs@[i as int]));
    }
    assert(cs@.take(n as int) =~= cs@);
}

/// The characters of `v` from index `a` up to `b`.
pub fn slice_chars(v: &Vec<char>, a: usize, b: usize) -> (r: Vec<char>)
    requires
        a <= b <= v.len(),
    ensures
        r@ == v@.subrange(a as int, b as int),
{
    let mut r: Vec<char> = Vec::new();
    let mut i = a;
    while i < b
        invariant
            a <= i <= b <= v.len(),
            r@ == v@.subrange(a as int, i as int),
        decreases b - i,
    {
        r.push(v[i]);
        assert(v@.subrange(a as int, i + 1) =~= v@.subrange(a as int, i as int).push(v@[i as int]));
        i += 1;
    }
    r
}

/// Whether `a` and `b` hold the same characters.
pub fn same_chars(a: &Vec<char>, b: &Vec<char>) -> (r: bool)
    ensures
        r == (a@ == b@),
{
    if a.len() != b.len() {
        return false;
    }
    let n = a.len();
    for i in 0..n
        invariant
            n == a.len(),
            n == b.len(),
            forall|t: int| 0 <= t < i ==> a@[t] == b@[t],
    {
        if a[i] != b[i] {
            return false;
        }
    }
    assert(a@ =~= b@);
    true
}

/// Whether `p` occurs in `s` at index `i`.
pub fn matches_at_exec(s: &Vec<char>, p: &Vec<char>, i: usize) -> (b: bool)
    ensures
        b == matches_at(s@, p@, i as int),
{
    if i > s.len() || p.len() > s.len() - i {
        return false;
    }
    let mut j: usize = 0;
    while j < p.len()
        invariant
            i + p.len() <= s.len(),
            j <= p.len(),
            forall|t: int| 0 <= t < j ==> s@[i + t] == p@[t],
        decreases p.len() - j,
    {
        if s[i + j] != p[j] {
            assert(s@.subrange(i as int, i + p.len())[j as int] != p@[j as int]);
            return false;
        }
        j += 1;
    }
    assert(s@.subrange(i as int, i + p.len()) =~= p@);
    true
}

/// The first occurrence of `p` in `s` at or after `k`.
pub fn find_from_exec(s: &Vec<char>, p: &Vec<char>, k: usize) -> (r: Option<usize>)
    ensures
        match r {
            Some(i) => i == find_from(s@, p@, k as int),
            None => find_from(s@, p@, k as int) == -1,
        },
{
    if p.len() == 0 || p.len() > s.len() {
        return None;
    }
    let last = s.len() - p.len();
    let mut i = k;
    while i <= last
        invariant
            last == s.len() - p.len(),
            p.len() > 0,
            k <= i,
            find_from(s@, p@, k as int) == find_from(s@, p@, i as int),
        decreases last + 1 - i,
    {
        if matches_at_exec(s, p, i) {
            return Some(i);
        }
        i += 1;
    }
    None
}

/// The last occurrence of `p` in `s`.
pub fn rfind_exec(s: &Vec<char>, p: &Vec<char>) -> (r: Option<usize>)
    ensures
        match r {
            Some(i) => i == rfind(s@, p@),
            None => rfind(s@, p@) == -1,
        },
{
    if p.len() == 0 || p.len() > s.len() {
        return None;
    }
    let mut i = s.len() - p.len();
    loop
        invariant
            i <= s.len() - p.len(),
            p.len() > 0,
            rfind(s@, p@) == rfind_from(s@, p@, i as int),
        decreases i,
    {
        if matches_at_exec(s, p, i) {
            return Some(i);
        }
        if i == 0 {
            assert(rfind_from(s@, p@, -1) == -1);
            return None;
        }
        i -= 1;
    }
}

/// The pieces of `s` between the occurrences of the non-empty pattern `p`.
pub fn split_chars(s: &Vec<char>, p: &Vec<char>) -> (parts: Vec<Vec<char>>)
    ensures
        views(parts@) == split_on(s@, p@),
{
    let mut parts: Vec<Vec<char>> = Vec::new();
    let mut start: usize = 0;
    loop
        invariant
            start <= s.len(),
            views(parts@) + split_from(s@, p@, start as int) == split_on(s@, p@),
        decreases s.len() - start,
    {
        let ghost old_parts = parts@;
        match find_from_exec(s, p, start) {
            None => {
                let piece = slice_chars(s, start, s.len());
                parts.push(piece);
                assert(views(parts@) =~= views(old_parts) + split_from(s@, p@, start as int));
                return parts;
            },
            Some(i) => {
                proof {
                    lemma_find_from(s@, p@, start as int);
                }
                let piece = slice_chars(s, start, i);
                parts.push(piece);
                assert(views(parts@) + split_from(s@, p@, (i + p.len()) as int) =~= views(
                    old_parts,
                ) + split_from(s@, p@, start as int));
                start = i + p.len();
            },
        }
    }
}

/// `s` with every occurrence of the non-empty pattern `p` replaced by `r`.
pub fn replace_chars(s: &Vec<char>, p: &Vec<char>, r: &Vec<char>) -> (out: Vec<char>)
    ensures
        out@ == replace_all(s@, p@, r@),
{
    let mut out: Vec<char> = Vec::new();
    let mut start: usize = 0;
    loop
        invariant
            start <= s.len(),
            out@ + replace_from(s@, p@, r@, start as int) == replace_all(s@, p@, r@),
        decreases s.len() - start,
    {
        let ghost old_out = out@;
        match find_from_exec(s, p, start) {
            None => {
                let mut k = start;
                while k < s.len()
                    invariant
                        start <= k <= s.len(),
                        out@ == old_out + s@.subrange(start as int, k as int),
                    decreases s.len() - k,
                {
                    out.push(s[k]);
                    assert(s@.subrange(start as int, k + 1) =~= s@.subrange(
                        start as int,
                        k as int,
                    ).push(s@[k as int]));
                    k += 1;
                }
                return out;
            },
            Some(i) => {
                proof {
                    lemma_find_from(s@, p@, start as int);
                }
                let mut k = start;
                while k < i
                    invariant
                        start <= k <= i,
                        i <= s.len(),
                        out@ == old_out + s@.subrange(start as int, k as int),
                    decreases i - k,
                {
                    out.push(s[k]);
                    assert(s@.subrange(start as int, k + 1) =~= s@.subrange(
                        start as int,
                        k as int,
                    ).push(s@[k as int]));
                    k += 1;
                }
                let mut m: usize = 0;
                while m < r.len()
                    invariant
                        m <= r.len(),
                        out@ == old_out + s@.subrange(start as int, i as int) + r@.take(m as int),
                    decreases r.len() - m,
                {
                    out.push(r[m]);
                    assert(r@.take(m + 1) =~= r@.take(m as int).push(r@[m as int]));
                    m += 1;
                }
                assert(r@.take(r.len() as int) =~= r@);
                assert(out@ + replace_from(s@, p@, r@, (i + p.len()) as int) =~= old_out
                    + replace_from(s@, p@, r@, start as int));
                start = i + p.len();
            },
        }
    }
}

/// `s` without its trailing copies of `c`.
pub fn trim_end_char_exec(s: &Vec<char>, c: char) -> (r: Vec<char>)
    ensures
        r@ == trim_end_char(s@, c),
{
    let mut k = s.len();
    assert(s@.take(k as int) =~= s@);
    while k > 0 && s[k - 1] == c
        invariant
            k <= s.len(),
            trim_end_char(s@, c) == trim_end_char(s@.take(k as int), c),
        decreases k,
    {
        assert(s@.take(k as int).drop_last() =~= s@.take(k - 1));
        k -= 1;
    }
    slice_chars(s, 0, k)
}

/// Whether `c` is whitespace (`char::is_whitespace`).
pub fn is_white_exec(c: char) -> (b: bool)
    ensures
        b == is_white(c),
{
    ('\u{9}' <= c && c <= '\u{d}') || c == ' ' || c == '\u{85}' || c == '\u{a0}' || c
        == '\u{1680}' || ('\u{2000}' <= c && c <= '\u{200a}') || c == '\u{2028}' || c
        == '\u{2029}' || c == '\u{202f}' || c == '\u{205f}' || c == '\u{3000}'
}

/// `s` without leading and trailing whitespace.
pub fn trim_exec(s: &Vec<char>) -> (r: Vec<char>)
    ensures
        r@ == trim(s@),
{
    let mut a: usize = 0;
    assert(s@.skip(0) =~= s@);
    while a < s.len() && is_white_exec(s[a])
        invariant
            a <= s.len(),
            trim_start(s@) == trim_start(s@.skip(a as int)),
        decreases s.len() - a,
    {
        assert(s@.skip(a as int).drop_first() =~= s@.skip(a + 1));
        a += 1;
    }
    let mut b = s.len();
    while b > a && is_white_exec(s[b - 1])
        invariant
            a <= b <= s.len(),
            trim(s@) == trim_end(s@.subrange(a as int, b as int)),
        decreases b,
    {
        assert(s@.subrange(a as int, b as int).drop_last() =~= s@.subrange(a as int, b - 1));
        b -= 1;
    }
    slice_chars(s, a, b)
}

/// `n` copies of `p`, one after the other.
pub fn repeat_exec(p: &Vec<char>, n: usize) -> (r: Vec<char>)
    ensures
        r@ == repeat(p@, n as nat),
{
    let mut r: Vec<char> = Vec::new();
    for i in 0..n
        invariant
            r@ == repeat(p@, i as nat),
    {
        let mut m: usize = 0;
        let ghost before = r@;
        while m < p.len()
            invariant
                m <= p.len(),
                r@ == before + p@.take(m as int),
            decreases p.len() - m,
        {
            r.push(p[m]);
            assert(p@.take(m + 1) =~= p@.take(m as int).push(p@[m as int]));
            m += 1;
        }
        assert(p@.take(p.len() as int) =~= p@);
    }
    r
}

/// The camel-case form of `s`: each whitespace-separated word with its
/// first character upper-cased, joined without separator.
pub fn to_camelcase(s: &str) -> (r: String)
    ensures
        r@ == camel_case(s@),
{
    let v = chars_of(s);
    let mut out = String::new();
    let mut at_start = true;
    let n = v.len();
    for i in 0..n
        invariant
            n == v.len(),
            v@ == s@,
            at_start == (word_state(v@.take(i as int)).1.len() == 0),
            out@ == joined_capitalized(word_state(v@.take(i as int)).0) + (if word_state(
                v@.take(i as int),
            ).1.len() > 0 {
                capitalized(word_state(v@.take(i as int)).1)
            } else {
                seq![]
            }),
    {
        let c = v[i];
        let ghost prev = word_state(v@.take(i as int));
        assert(v@.take(i + 1).drop_last() =~= v@.take(i as int));
        if is_white_exec(c) {
            proof {
                if prev.1.len() > 0 {
                    assert(prev.0.push(prev.1).drop_last() =~= prev.0);
                }
            }
            at_start = true;
        } else {
            if at_start {
                let u = uppercase(c);
                out.append(u.as_str());
                assert(seq![c].skip(1) =~= Seq::<char>::empty());
                assert(capitalized(seq![c]) =~= uppercase_of(c));
                assert(prev.1.push(c) =~= seq![c]);
            } else {
                push_char(&mut out, c);
                assert(prev.1.push(c).skip(1) =~= prev.1.skip(1).push(c));
            }
            at_start = false;
        }
    }
    assert(v@.take(n as int) =~= v@);
    proof {
        let st = word_state(v@);
        if st.1.len() > 0 {
            assert(st.0.push(st.1).drop_last() =~= st.0);
        }
    }
    out
}

} // verus!
