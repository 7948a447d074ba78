//! Character-level string operations with their specifications: the parts
//! of `str` that the library relies on (whitespace trimming, prefixes,
//! suffixes, substrings, splitting, line iteration) stated over `Seq<char>`.

use vstd::prelude::*;
use vstd::std_specs::iter::IteratorSpec;
use crate::trusted::string_from_chars;

verus! {

broadcast use vstd::string::group_string_axioms;

/// Unicode `White_Space`, the set of characters that `char::is_whitespace`
/// accepts and that `str::trim` removes.
pub open spec fn is_ws(c: char) -> bool {
    ||| c == '\t'
    ||| c == '\n'
    ||| c == '\u{0B}'
    ||| c == '\u{0C}'
    ||| c == '\r'
    ||| c == ' '
    ||| c == '\u{85}'
    ||| c == '\u{A0}'
    ||| c == '\u{1680}'
    ||| ('\u{2000}' <= c && c <= '\u{200A}')
    ||| c == '\u{2028}'
    ||| c == '\u{2029}'
    ||| c == '\u{202F}'
    ||| c == '\u{205F}'
    ||| c == '\u{3000}'
}

pub fn char_is_ws(c: char) -> (r: bool)
    ensures
        r == is_ws(c),
{
    c == '\t' || c == '\n' || c == '\u{0B}' || c == '\u{0C}' || c == '\r' || c == ' ' || c
        == '\u{85}' || c == '\u{A0}' || c == '\u{1680}' || ('\u{2000}' <= c && c <= '\u{200A}')
        || c == '\u{2028}' || c == '\u{2029}' || c == '\u{202F}' || c == '\u{205F}' || c
        == '\u{3000}'
}

/// `s` with its leading whitespace removed.
pub open spec fn trim_start(s: Seq<char>) -> Seq<char>
    decreases s.len(),
{
    if s.len() > 0 && is_ws(s[0]) {
        trim_start(s.drop_first())
    } else {
        s
    }
}

/// `s` with its trailing whitespace removed.
pub open spec fn trim_end(s: Seq<char>) -> Seq<char>
    decreases s.len(),
{
    if s.len() > 0 && is_ws(s.last()) {
        trim_end(s.drop_last())
    } else {
        s
    }
}

/// What `str::trim` gives back: leading and trailing whitespace removed.
pub open spec fn trim(s: Seq<char>) -> Seq<char> {
    trim_end(trim_start(s))
}

/// The characters of `s`, in order.
pub fn str_chars(s: &str) -> (v: Vec<char>)
    ensures
        v@ == s@,
{
    let mut v: Vec<char> = Vec::new();
    let mut it = s.chars();
    let ghost all = s@;
    loop
        invariant
            it.obeys_prophetic_iter_laws(),
            it.remaining() == all.skip(v@.len() as int),
            v@ == all.take(v@.len() as int),
            v@.len() <= all.len(),
            all == s@,
        ensures
            v@ == all,
        decreases all.len() - v@.len(),
    {
        match it.next() {
            Some(c) => {
                v.push(c);
            },
            None => {
                assert(v@ =~= all);
                break ;
            },
        }
    }
    v
}


/// Whether `pat` occurs in `s` as a run of consecutive characters.
pub open spec fn has_infix(s: Seq<char>, pat: Seq<char>) -> bool {
    exists|i: int| 0 <= i && i + pat.len() <= s.len() && #[trigger] s.subrange(i, i + pat.len()) == pat
}

/// The bounds of `trim(v[lo..hi])` inside `v`.
pub fn trim_bounds(v: &Vec<char>, lo: usize, hi: usize) -> (r: (usize, usize))
    requires
        lo <= hi <= v@.len(),
    ensures
        lo <= r.0 <= r.1 <= hi,
        v@.subrange(r.0 as int, r.1 as int) == trim(v@.subrange(lo as int, hi as int)),
{
    let mut a = lo;
    while a < hi && char_is_ws(v[a])
        invariant
            lo <= a <= hi <= v@.len(),
            trim_start(v@.subrange(lo as int, hi as int)) == trim_start(v@.subrange(a as int, hi as int)),
        decreases hi - a,
    {
        assert(v@.subrange(a as int, hi as int).drop_first() =~= v@.subrange(a + 1, hi as int));
        a = a + 1;
    }
    let mut b = hi;
    while b > a && char_is_ws(v[b - 1])
        invariant
            lo <= a <= b <= hi <= v@.len(),
            trim_end(v@.subrange(a as int, hi as int)) == trim_end(v@.subrange(a as int, b as int)),
        decreases b - a,
    {
        assert(v@.subrange(a as int, b as int).drop_last() =~= v@.subrange(a as int, b - 1));
        b = b - 1;
    }
    (a, b)
}

/// Whether `v[lo..hi]` is exactly `pat`.
pub fn range_eq(v: &Vec<char>, lo: usize, hi: usize, pat: &Vec<char>) -> (r: bool)
    requires
        lo <= hi <= v@.len(),
    ensures
        r == (v@.subrange(lo as int, hi as int) == pat@),
{
    if hi - lo != pat.len() {
        return false;
    }
    let mut k: usize = 0;
    while k < pat.len()
        invariant
            hi - lo == pat@.len(),
            lo <= hi <= v@.len(),
            k <= pat@.len(),
            forall|j: int| 0 <= j < k ==> v@[lo + j] == pat@[j],
        decreases pat@.len() - k,
    {
        if v[lo + k] != pat[k] {
            assert(v@.subrange(lo as int, hi as int)[k as int] != pat@[k as int]);
            return false;
        }
        k = k + 1;
    }
    assert(v@.subrange(lo as int, hi as int) =~= pat@);
    true
}

/// Whether `v[lo..hi]` begins with `pat`.
pub fn range_starts_with(v: &Vec<char>, lo: usize, hi: usize, pat: &Vec<char>) -> (r: bool)
    requires
        lo <= hi <= v@.len(),
    ensures
        r == pat@.is_prefix_of(v@.subrange(lo as int, hi as int)),
{
    if hi - lo < pat.len() {
        return false;
    }
    let r = range_eq(v, lo, lo + pat.len(), pat);
    assert(v@.subrange(lo as int, hi as int).subrange(0, pat@.len() as int) =~= v@.subrange(
        lo as int,
        lo + pat@.len(),
    ));
    r
}

/// Whether `v[lo..hi]` ends with `pat`.
pub fn range_ends_with(v: &Vec<char>, lo: usize, hi: usize, pat: &Vec<char>) -> (r: bool)
    requires
        lo <= hi <= v@.len(),
    ensures
        r == pat@.is_suffix_of(v@.subrange(lo as int, hi as int)),
{
    if hi - lo < pat.len() {
        return false;
    }
    let r = range_eq(v, hi - pat.len(), hi, pat);
    assert(v@.subrange(lo as int, hi as int).subrange(hi - lo - pat@.len(), hi - lo)
        =~= v@.subrange(hi - pat@.len(), hi as int));
    r
}

/// Whether `pat` occurs somewhere in `v[lo..hi]`.
pub fn range_contains(v: &Vec<char>, lo: usize, hi: usize, pat: &Vec<char>) -> (r: bool)
    requires
        lo <= hi <= v@.len(),
    ensures
        r == has_infix(v@.subrange(lo as int, hi as int), pat@),
{
    let ghost s = v@.subrange(lo as int, hi as int);
    if hi - lo < pat.len() {
        return false;
    }
    if pat.len() == 0 {
        assert(s.subrange(0, 0int + pat@.len()) =~= pat@);
        return true;
    }
    let last = hi - pat.len();
    let mut i: usize = lo;
    while i <= last
        invariant
            lo <= i <= last + 1,
            last + pat@.len() == hi,
            pat@.len() > 0,
            hi <= v@.len(),
            pat@.len() <= hi - lo,
            s == v@.subrange(lo as int, hi as int),
            forall|j: int|
                0 <= j < i - lo ==> #[trigger] s.subrange(j, j + pat@.len()) != pat@,
        decreases hi - i,
    {
        let found = range_eq(v, i, i + pat.len(), pat);
        assert(s.subrange(i - lo, i - lo + pat@.len()) =~= v@.subrange(
            i as int,
            i + pat@.len(),
        ));
        if found {
            assert(0 <= i - lo && i - lo + pat@.len() <= s.len());
            return true;
        }
        i = i + 1;
    }
    assert forall|j: int| 0 <= j && j + pat@.len() <= s.len() implies #[trigger] s.subrange(
        j,
        j + pat@.len(),
    ) != pat@ by {
        assert(j < i - lo);
    }
    false
}


/// Index of the first `c` in `s` at or after `i`, or `s.len()` when there is none.
pub open spec fn find_from(s: Seq<char>, c: char, i: int) -> int
    decreases s.len() - i,
{
    if i < 0 || i >= s.len() {
        s.len() as int
    } else if s[i] == c {
        i
    } else {
        find_from(s, c, i + 1)
    }
}

pub proof fn lemma_find_from_bounds(s: Seq<char>, c: char, i: int)
    requires
        0 <= i <= s.len(),
    ensures
        i <= find_from(s, c, i) <= s.len(),
        find_from(s, c, i) < s.len() ==> s[find_from(s, c, i)] == c,
        forall|j: int| i <= j < find_from(s, c, i) ==> s[j] != c,
    decreases s.len() - i,
{
    if i < s.len() && s[i] != c {
        lemma_find_from_bounds(s, c, i + 1);
    }
}

/// The pieces of `s[i..]` between occurrences of `sep`, as `str::split` gives them
/// (empty pieces included; there is always at least one piece).
pub open spec fn split_from(s: Seq<char>, sep: char, i: int) -> Seq<Seq<char>>
    decreases s.len() - i,
{
    if i < 0 || i > s.len() {
        seq![]
    } else {
        let k = find_from(s, sep, i);
        if k >= s.len() {
            seq![s.subrange(i, s.len() as int)]
        } else {
            proof {
                lemma_find_from_bounds(s, sep, i);
            }
            seq![s.subrange(i, k)] + split_from(s, sep, k + 1)
        }
    }
}

/// The pieces of `s` between occurrences of `sep` (`str::split`).
pub open spec fn split_on(s: Seq<char>, sep: char) -> Seq<Seq<char>> {
    split_from(s, sep, 0)
}

/// The pieces joined into one text with `sep` between each two of them
/// (`[&str]::join`).
pub open spec fn joined(pieces: Seq<Seq<char>>, sep: char) -> Seq<char>
    decreases pieces.len(),
{
    if pieces.len() == 0 {
        seq![]
    } else if pieces.len() == 1 {
        pieces[0]
    } else {
        pieces[0] + seq![sep] + joined(pieces.drop_first(), sep)
    }
}

pub proof fn lemma_find_from_shift(p: Seq<char>, t: Seq<char>, c: char, j: int)
    requires
        0 <= j <= t.len(),
    ensures
        find_from(p + t, c, p.len() + j) == p.len() + find_from(t, c, j),
    decreases t.len() - j,
{
    if j < t.len() {
        assert((p + t)[p.len() + j] == t[j]);
        if t[j] != c {
            lemma_find_from_shift(p, t, c, j + 1);
        }
    }
}

proof fn lemma_split_from_shift(p: Seq<char>, t: Seq<char>, c: char, j: int)
    requires
        0 <= j <= t.len(),
    ensures
        split_from(p + t, c, p.len() + j) == split_from(t, c, j),
    decreases t.len() - j,
{
    lemma_find_from_shift(p, t, c, j);
    lemma_find_from_bounds(t, c, j);
    let k = find_from(t, c, j);
    if k >= t.len() {
        assert((p + t).subrange(p.len() + j, (p + t).len() as int) =~= t.subrange(j, t.len() as int));
    } else {
        assert((p + t).subrange(p.len() + j, p.len() + k) =~= t.subrange(j, k));
        lemma_split_from_shift(p, t, c, k + 1);
    }
}

proof fn lemma_find_from_skips(x: Seq<char>, t: Seq<char>, c: char, i: int)
    requires
        0 <= i <= x.len(),
        !x.contains(c),
    ensures
        find_from(x + t, c, i) == find_from(x + t, c, x.len() as int),
    decreases x.len() - i,
{
    if i < x.len() {
        assert((x + t)[i] == x[i]);
        assert(x[i] != c);
        lemma_find_from_skips(x, t, c, i + 1);
    }
}

/// A text without `sep` is one piece.
pub proof fn lemma_split_without_sep(x: Seq<char>, sep: char)
    requires
        !x.contains(sep),
    ensures
        split_on(x, sep) == seq![x],
{
    let e = Seq::<char>::empty();
    assert(x + e =~= x);
    lemma_find_from_skips(x, e, sep, 0);
    assert(x.subrange(0, x.len() as int) =~= x);
}

/// Splitting pieces joined with `sep` gives them back, when none holds `sep`.
pub proof fn lemma_split_joined(pieces: Seq<Seq<char>>, sep: char)
    requires
        pieces.len() >= 1,
        forall|i: int| 0 <= i < pieces.len() ==> !(#[trigger] pieces[i]).contains(sep),
    ensures
        split_on(joined(pieces, sep), sep) == pieces,
    decreases pieces.len(),
{
    let x = pieces[0];
    if pieces.len() == 1 {
        lemma_split_without_sep(x, sep);
        assert(seq![x] =~= pieces);
    } else {
        let rest = pieces.drop_first();
        assert forall|i: int| 0 <= i < rest.len() implies !(#[trigger] rest[i]).contains(sep) by {
            assert(rest[i] == pieces[i + 1]);
        }
        lemma_split_joined(rest, sep);
        let j = joined(rest, sep);
        let t = seq![sep] + j;
        let s = joined(pieces, sep);
        assert(s =~= x + t);
        lemma_find_from_skips(x, t, sep, 0);
        lemma_find_from_shift(x, t, sep, 0);
        assert(t[0] == sep);
        assert(find_from(t, sep, 0) == 0);
        assert(s.subrange(0, x.len() as int) =~= x);
        lemma_split_from_shift(x, t, sep, 1);
        lemma_split_from_shift(seq![sep], j, sep, 0);
        assert(seq![x] + rest =~= pieces);
    }
}

/// A line with one trailing carriage return removed, if it has one.
pub open spec fn drop_cr(l: Seq<char>) -> Seq<char> {
    if l.len() > 0 && l.last() == '\r' {
        l.drop_last()
    } else {
        l
    }
}

/// The lines of `s[i..]` as `str::lines` yields them: split after each `\n`, the
/// line ending (`\n` or `\r\n`) removed, and no empty line after a final `\n`.
pub open spec fn lines_from(s: Seq<char>, i: int) -> Seq<Seq<char>>
    decreases s.len() - i,
{
    if i < 0 || i >= s.len() {
        seq![]
    } else {
        let k = find_from(s, '\n', i);
        if k >= s.len() {
            seq![s.subrange(i, s.len() as int)]
        } else {
            proof {
                lemma_find_from_bounds(s, '\n', i);
            }
            seq![drop_cr(s.subrange(i, k))] + lines_from(s, k + 1)
        }
    }
}

/// The lines of `s` (`str::lines`).
pub open spec fn lines_of(s: Seq<char>) -> Seq<Seq<char>> {
    lines_from(s, 0)
}

/// Index of the first `c` in `v` at or after `i`, or `v.len()` when there is none.
pub fn find_char(v: &Vec<char>, c: char, i: usize) -> (r: usize)
    requires
        i <= v@.len(),
    ensures
        r == find_from(v@, c, i as int),
        i <= r <= v@.len(),
{
    let mut k = i;
    while k < v.len() && v[k] != c
        invariant
            i <= k <= v@.len(),
            find_from(v@, c, i as int) == find_from(v@, c, k as int),
        decreases v@.len() - k,
    {
        k = k + 1;
    }
    k
}


pub proof fn lemma_trim_start_shape(x: Seq<char>) -> (k: int)
    ensures
        0 <= k <= x.len(),
        trim_start(x) == x.subrange(k, x.len() as int),
        trim_start(x).len() == 0 || !is_ws(trim_start(x)[0]),
    decreases x.len(),
{
    if x.len() > 0 && is_ws(x[0]) {
        let k = lemma_trim_start_shape(x.drop_first());
        assert(x.drop_first().subrange(k, x.drop_first().len() as int) =~= x.subrange(
            k + 1,
            x.len() as int,
        ));
        k + 1
    } else {
        assert(x.subrange(0, x.len() as int) =~= x);
        0
    }
}

pub proof fn lemma_trim_end_shape(x: Seq<char>) -> (m: int)
    ensures
        0 <= m <= x.len(),
        trim_end(x) == x.subrange(0, m),
        trim_end(x).len() == 0 || !is_ws(trim_end(x).last()),
    decreases x.len(),
{
    if x.len() > 0 && is_ws(x.last()) {
        let m = lemma_trim_end_shape(x.drop_last());
        assert(x.drop_last().subrange(0, m) =~= x.subrange(0, m));
        m
    } else {
        assert(x.subrange(0, x.len() as int) =~= x);
        x.len() as int
    }
}

/// Every character of `s` is whitespace.
pub open spec fn all_ws(s: Seq<char>) -> bool {
    forall|k: int| 0 <= k < s.len() ==> is_ws(#[trigger] s[k])
}

/// Text trims to nothing exactly when it is whitespace only.
pub proof fn lemma_trim_empty_iff_ws(s: Seq<char>)
    ensures
        trim(s).len() == 0 <==> all_ws(s),
    decreases s.len(),
{
    let y = trim_start(s);
    if s.len() > 0 {
        if is_ws(s[0]) {
            lemma_trim_empty_iff_ws(s.drop_first());
            assert(trim_start(s) == trim_start(s.drop_first()));
            if all_ws(s.drop_first()) {
                assert(all_ws(s)) by {
                    assert forall|j: int| 0 <= j < s.len() implies is_ws(#[trigger] s[j]) by {
                        if j > 0 {
                            assert(s[j] == s.drop_first()[j - 1]);
                        }
                    }
                }
            } else {
                assert(!all_ws(s)) by {
                    let j = choose|j: int| 0 <= j < s.drop_first().len() && !is_ws(#[trigger] s.drop_first()[j]);
                    assert(s[j + 1] == s.drop_first()[j]);
                }
            }
        } else {
            assert(y == s);
            assert(!all_ws(s)) by {
                assert(!is_ws(s[0]));
            }
            lemma_trim_end_keeps_head(y);
        }
    }
}

/// Text whose first character is not whitespace does not trim to nothing.
proof fn lemma_trim_end_keeps_head(y: Seq<char>)
    requires
        y.len() > 0,
        !is_ws(y[0]),
    ensures
        trim_end(y).len() > 0,
    decreases y.len(),
{
    if is_ws(y.last()) {
        assert(y.len() > 1);
        assert(y.drop_last()[0] == y[0]);
        lemma_trim_end_keeps_head(y.drop_last());
    }
}

/// Trimmed text is trimmed already, and is a run of the text it came from.
pub proof fn lemma_trim_shape(x: Seq<char>) -> (bounds: (int, int))
    ensures
        0 <= bounds.0 <= bounds.1 <= x.len(),
        trim(x) == x.subrange(bounds.0, bounds.1),
        trim(trim(x)) == trim(x),
{
    let k = lemma_trim_start_shape(x);
    let y = trim_start(x);
    let m = lemma_trim_end_shape(y);
    let z = trim_end(y);
    assert(y.subrange(0, m) =~= x.subrange(k, k + m));
    if z.len() > 0 {
        assert(z[0] == y[0]);
    }
    assert(trim_start(z) == z);
    assert(trim_end(z) == z);
    (k, k + m)
}

/// The characters `v[lo..hi]`, copied.
pub fn chars_of_range(v: &Vec<char>, lo: usize, hi: usize) -> (r: Vec<char>)
    requires
        lo <= hi <= v@.len(),
    ensures
        r@ == v@.subrange(lo as int, hi as int),
{
    let mut r: Vec<char> = Vec::new();
    let mut j = lo;
    while j < hi
        invariant
            lo <= j <= hi <= v@.len(),
            r@ == v@.subrange(lo as int, j as int),
        decreases hi - j,
    {
        r.push(v[j]);
        assert(v@.subrange(lo as int, j + 1) =~= v@.subrange(lo as int, j as int).push(v@[j as int]));
        j = j + 1;
    }
    r
}

/// The string made of `v[lo..hi]`.
pub fn string_of_range(v: &Vec<char>, lo: usize, hi: usize) -> (r: String)
    requires
        lo <= hi <= v@.len(),
    ensures
        r@ == v@.subrange(lo as int, hi as int),
{
    string_from_chars(chars_of_range(v, lo, hi))
}

/// The contents of a list of strings.
pub open spec fn strings_view(v: Seq<String>) -> Seq<Seq<char>> {
    v.map_values(|s: String| s@)
}

/// Appends `s` to `out`, the list growing by the contents of `s`.
pub fn push_string(out: &mut Vec<String>, s: String)
    ensures
        strings_view(final(out)@) == strings_view(old(out)@).push(s@),
{
    let ghost before = out@;
    out.push(s);
    assert(strings_view(out@) =~= strings_view(before).push(s@));
}


/// The order of `str`: character by character, by code point (the order of
/// their UTF-8 bytes), a prefix before the longer text; -1, 0 or 1.
pub open spec fn text_order(a: Seq<char>, b: Seq<char>) -> int
    decreases a.len(),
{
    if a.len() == 0 {
        if b.len() == 0 {
            0
        } else {
            -1
        }
    } else if b.len() == 0 {
        1
    } else if (a[0] as u32) < (b[0] as u32) {
        -1
    } else if (a[0] as u32) > (b[0] as u32) {
        1
    } else {
        text_order(a.drop_first(), b.drop_first())
    }
}

pub proof fn lemma_text_order_flip(a: Seq<char>, b: Seq<char>)
    ensures
        text_order(b, a) == -text_order(a, b),
        a == b ==> text_order(a, b) == 0,
    decreases a.len(),
{
    if a.len() > 0 && b.len() > 0 && a[0] == b[0] {
        lemma_text_order_flip(a.drop_first(), b.drop_first());
        if a == b {
            assert(a.drop_first() == b.drop_first());
        }
    } else if a.len() > 0 && b.len() > 0 {
        let ua = a[0] as u32;
        let ub = b[0] as u32;
        vstd::utf8::char_u32_cast(a[0], ua);
        vstd::utf8::char_u32_cast(b[0], ub);
        assert(ua != ub);
    }
}

/// The order of `str` is transitive.
pub proof fn lemma_text_order_trans(a: Seq<char>, b: Seq<char>, c: Seq<char>)
    requires
        text_order(a, b) <= 0,
        text_order(b, c) <= 0,
    ensures
        text_order(a, c) <= 0,
    decreases a.len(),
{
    if a.len() > 0 && b.len() > 0 && c.len() > 0 {
        if (a[0] as u32) == (b[0] as u32) && (b[0] as u32) == (c[0] as u32) {
            lemma_text_order_trans(a.drop_first(), b.drop_first(), c.drop_first());
        }
    }
}

/// `a` and `b` in the order of `str`: -1, 0 or 1.
pub fn compare_text(a: &str, b: &str) -> (r: i8)
    ensures
        r == text_order(a@, b@),
{
    let va = str_chars(a);
    let vb = str_chars(b);
    let mut i: usize = 0;
    assert(va@.skip(0) =~= va@);
    assert(vb@.skip(0) =~= vb@);
    while i < va.len() && i < vb.len() && va[i] == vb[i]
        invariant
            i <= va@.len(),
            i <= vb@.len(),
            text_order(a@, b@) == text_order(va@.skip(i as int), vb@.skip(i as int)),
            va@ == a@,
            vb@ == b@,
        decreases va@.len() - i,
    {
        assert(va@.skip(i as int).drop_first() =~= va@.skip(i + 1));
        assert(vb@.skip(i as int).drop_first() =~= vb@.skip(i + 1));
        i = i + 1;
    }
    if i == va.len() {
        if i == vb.len() {
            0
        } else {
            -1
        }
    } else if i == vb.len() {
        1
    } else if (va[i] as u32) < (vb[i] as u32) {
        assert(va@.skip(i as int)[0] == va@[i as int]);
        assert(vb@.skip(i as int)[0] == vb@[i as int]);
        -1
    } else {
        assert(va@.skip(i as int)[0] == va@[i as int]);
        assert(vb@.skip(i as int)[0] == vb@[i as int]);
        let ghost ua = va@[i as int] as u32;
        let ghost ub = vb@[i as int] as u32;
        proof {
            vstd::utf8::char_u32_cast(va@[i as int], ua);
            vstd::utf8::char_u32_cast(vb@[i as int], ub);
        }
        assert(ua != ub);
        1
    }
}

} // verus!
