//! Bundled `node_modules` code in the text of a file: the regions that hold
//! it, and the comment lines that name its paths, are left out of a diff.

use vstd::prelude::*;
use crate::text::{
    all_ws, is_ws, lemma_find_from_shift, lemma_trim_empty_iff_ws, drop_cr, find_char, find_from, has_infix, lemma_find_from_bounds, lines_from, lines_of,
    range_contains, range_ends_with, range_eq, range_starts_with, str_chars, trim, trim_bounds,
};
use crate::trusted::string_from_chars;

verus! {

broadcast use vstd::string::group_string_axioms;

/// A line (already trimmed) that opens a region of bundled `node_modules` code.
pub open spec fn opens_module_region(t: Seq<char>) -> bool {
    ||| "//#region node_modules/"@.is_prefix_of(t)
    ||| "//#region \\0"@.is_prefix_of(t)
    ||| "// node_modules/"@.is_prefix_of(t)
    ||| "/* node_modules/"@.is_prefix_of(t)
}

/// A line (already trimmed) that closes such a region.
pub open spec fn closes_region(t: Seq<char>) -> bool {
    ||| t == "//#endregion"@
    ||| t == "/* #endregion */"@
    ||| "#endregion"@.is_suffix_of(t)
}

/// A comment line (already trimmed) that names a `node_modules/` path.
pub open spec fn is_module_comment(t: Seq<char>) -> bool {
    &&& has_infix(t, "node_modules/"@)
    &&& ("//"@.is_prefix_of(t) || "/*"@.is_prefix_of(t) || "*"@.is_prefix_of(t))
}

/// The text kept of `lines`, each kept line followed by `\n`, when the first
/// of them is read inside a module region exactly if `in_region` holds.
pub open spec fn kept_text(lines: Seq<Seq<char>>, in_region: bool) -> Seq<char>
    decreases lines.len(),
{
    if lines.len() == 0 {
        seq![]
    } else {
        let line = lines[0];
        let t = trim(line);
        let rest = lines.drop_first();
        if opens_module_region(t) {
            kept_text(rest, true)
        } else if in_region {
            kept_text(rest, !closes_region(t))
        } else if is_module_comment(t) {
            kept_text(rest, false)
        } else {
            line + seq!['\n'] + kept_text(rest, false)
        }
    }
}

/// What `strip_node_modules_regions` gives back for `content`.
pub open spec fn stripped(content: Seq<char>) -> Seq<char> {
    kept_text(lines_of(content), false)
}

/// A line without line breaks: no `\n` and no `\r` in it.
pub open spec fn unbroken(l: Seq<char>) -> bool {
    forall|k: int| 0 <= k < l.len() ==> l[k] != '\n' && l[k] != '\r'
}

proof fn lemma_lines_from_shift(p: Seq<char>, t: Seq<char>, i: int)
    requires
        0 <= i <= t.len(),
    ensures
        lines_from(p + t, p.len() + i) == lines_from(t, i),
    decreases t.len() - i,
{
    if i < t.len() {
        lemma_find_from_shift(p, t, '\n', i);
        lemma_find_from_bounds(t, '\n', i);
        let k = find_from(t, '\n', i);
        if k < t.len() {
            lemma_lines_from_shift(p, t, k + 1);
            assert((p + t).subrange(p.len() + i, p.len() + k) =~= t.subrange(i, k));
        } else {
            assert((p + t).subrange(p.len() + i, (p + t).len() as int) =~= t.subrange(
                i,
                t.len() as int,
            ));
        }
    }
}

proof fn lemma_lines_of_line_then_rest(x: Seq<char>, t: Seq<char>)
    requires
        unbroken(x),
    ensures
        lines_of(x + seq!['\n'] + t) == seq![x] + lines_of(t),
{
    let p = x + seq!['\n'];
    let s = p + t;
    assert(x + seq!['\n'] + t == s);
    assert forall|k: int| 0 <= k < x.len() implies s[k] != '\n' by {
        assert(s[k] == x[k]);
    }
    assert(s[x.len() as int] == '\n');
    assert(find_from(s, '\n', 0) == x.len()) by {
        lemma_find_from_bounds(s, '\n', 0);
        if find_from(s, '\n', 0) < x.len() {
            assert(s[find_from(s, '\n', 0)] == '\n');
        }
    }
    assert(s.subrange(0, x.len() as int) =~= x);
    if x.len() > 0 {
        assert(x.last() != '\r');
    }
    assert(drop_cr(x) == x);
    lemma_lines_from_shift(p, t, 0);
    assert(p.len() + 0 == x.len() + 1);
}

proof fn lemma_lines_unbroken(s: Seq<char>, i: int)
    requires
        0 <= i <= s.len(),
        forall|k: int| 0 <= k < s.len() ==> s[k] != '\r',
    ensures
        forall|j: int| 0 <= j < lines_from(s, i).len() ==> unbroken(#[trigger] lines_from(s, i)[j]),
    decreases s.len() - i,
{
    if i < s.len() {
        lemma_find_from_bounds(s, '\n', i);
        let k = find_from(s, '\n', i);
        if k < s.len() {
            lemma_lines_from_shift(Seq::<char>::empty(), s, 0);
            lemma_lines_unbroken(s, k + 1);
            let first = s.subrange(i, k);
            assert(unbroken(first));
            assert(drop_cr(first) == first);
            let all = lines_from(s, i);
            assert(all == seq![first] + lines_from(s, k + 1));
            assert forall|j: int| 0 <= j < all.len() implies unbroken(#[trigger] all[j]) by {
                if j > 0 {
                    assert(all[j] == lines_from(s, k + 1)[j - 1]);
                }
            }
        } else {
            let first = s.subrange(i, s.len() as int);
            assert(unbroken(first));
        }
    }
}

proof fn lemma_lines_ws(s: Seq<char>, i: int)
    requires
        0 <= i <= s.len(),
        all_ws(s),
    ensures
        forall|j: int| 0 <= j < lines_from(s, i).len() ==> all_ws(#[trigger] lines_from(s, i)[j]),
    decreases s.len() - i,
{
    if i < s.len() {
        lemma_find_from_bounds(s, '\n', i);
        let k = find_from(s, '\n', i);
        if k < s.len() {
            lemma_lines_ws(s, k + 1);
            let first = s.subrange(i, k);
            assert(all_ws(first)) by {
                assert forall|m: int| 0 <= m < first.len() implies is_ws(#[trigger] first[m]) by {
                    assert(first[m] == s[i + m]);
                }
            }
            assert(all_ws(drop_cr(first))) by {
                let d = drop_cr(first);
                assert forall|m: int| 0 <= m < d.len() implies is_ws(#[trigger] d[m]) by {
                    assert(d[m] == first[m]);
                }
            }
            let all = lines_from(s, i);
            assert(all == seq![drop_cr(first)] + lines_from(s, k + 1));
            assert forall|j: int| 0 <= j < all.len() implies all_ws(#[trigger] all[j]) by {
                if j > 0 {
                    assert(all[j] == lines_from(s, k + 1)[j - 1]);
                }
            }
        } else {
            let first = s.subrange(i, s.len() as int);
            assert(all_ws(first)) by {
                assert forall|m: int| 0 <= m < first.len() implies is_ws(#[trigger] first[m]) by {
                    assert(first[m] == s[i + m]);
                }
            }
            assert(lines_from(s, i)[0] == first);
        }
    }
}

proof fn lemma_kept_text_ws(lines: Seq<Seq<char>>, in_region: bool)
    requires
        forall|j: int| 0 <= j < lines.len() ==> all_ws(#[trigger] lines[j]),
    ensures
        all_ws(kept_text(lines, in_region)),
    decreases lines.len(),
{
    if lines.len() > 0 {
        let rest = lines.drop_first();
        assert forall|j: int| 0 <= j < rest.len() implies all_ws(#[trigger] rest[j]) by {
            assert(rest[j] == lines[j + 1]);
        }
        lemma_kept_text_ws(rest, true);
        lemma_kept_text_ws(rest, false);
        let line = lines[0];
        assert(all_ws(line));
        let tail = kept_text(rest, false);
        let whole = line + seq!['\n'] + tail;
        assert(all_ws(whole)) by {
            assert forall|m: int| 0 <= m < whole.len() implies is_ws(#[trigger] whole[m]) by {
                if m < line.len() {
                    assert(whole[m] == line[m]);
                } else if m == line.len() {
                    assert(whole[m] == '\n');
                } else {
                    assert(whole[m] == tail[m - line.len() - 1]);
                }
            }
        }
    }
}

/// Leaving out `node_modules` code leaves whitespace-only text
/// whitespace-only.
pub proof fn lemma_stripped_blank(content: Seq<char>)
    requires
        trim(content).len() == 0,
    ensures
        trim(stripped(content)).len() == 0,
{
    lemma_trim_empty_iff_ws(content);
    lemma_lines_ws(content, 0);
    lemma_kept_text_ws(lines_of(content), false);
    lemma_trim_empty_iff_ws(stripped(content));
}

proof fn lemma_kept_text_fixed(lines: Seq<Seq<char>>, in_region: bool)
    requires
        forall|j: int| 0 <= j < lines.len() ==> unbroken(#[trigger] lines[j]),
    ensures
        kept_text(lines_of(kept_text(lines, in_region)), false) == kept_text(lines, in_region),
    decreases lines.len(),
{
    if lines.len() == 0 {
        assert(lines_of(Seq::<char>::empty()) =~= Seq::<Seq<char>>::empty());
    } else {
        let line = lines[0];
        let t = trim(line);
        let rest = lines.drop_first();
        assert forall|j: int| 0 <= j < rest.len() implies unbroken(#[trigger] rest[j]) by {
            assert(rest[j] == lines[j + 1]);
        }
        if opens_module_region(t) {
            lemma_kept_text_fixed(rest, true);
        } else if in_region {
            lemma_kept_text_fixed(rest, !closes_region(t));
        } else if is_module_comment(t) {
            lemma_kept_text_fixed(rest, false);
        } else {
            let tail = kept_text(rest, false);
            lemma_kept_text_fixed(rest, false);
            assert(unbroken(lines[0]));
            lemma_lines_of_line_then_rest(line, tail);
            let again = seq![line] + lines_of(tail);
            assert(again[0] == line);
            assert(again.drop_first() =~= lines_of(tail));
        }
    }
}

/// Stripping is idempotent: text stripped once has nothing left to strip.
/// (A bare `\r` at the end of a line is the one exception, which is why the
/// law is stated of text without `\r`.)
pub proof fn law_strip_idempotent(content: Seq<char>)
    requires
        forall|k: int| 0 <= k < content.len() ==> content[k] != '\r',
    ensures
        stripped(stripped(content)) == stripped(content),
{
    lemma_lines_unbroken(content, 0);
    lemma_kept_text_fixed(lines_of(content), false);
}

/// A line that neither opens a region of `node_modules` code nor is a comment
/// naming a `node_modules/` path.
pub open spec fn plain_line(l: Seq<char>) -> bool {
    !opens_module_region(trim(l)) && !is_module_comment(trim(l))
}

/// Text whose every line is plain.
pub open spec fn plain_text(content: Seq<char>) -> bool {
    forall|j: int| 0 <= j < lines_of(content).len() ==> plain_line(#[trigger] lines_of(content)[j])
}

proof fn lemma_plain_lines_kept(s: Seq<char>, i: int)
    requires
        0 <= i <= s.len(),
        forall|k: int| 0 <= k < s.len() ==> s[k] != '\r',
        s.len() == 0 || s.last() == '\n',
        forall|j: int| 0 <= j < lines_from(s, i).len() ==> plain_line(#[trigger] lines_from(s, i)[j]),
    ensures
        kept_text(lines_from(s, i), false) == s.subrange(i, s.len() as int),
    decreases s.len() - i,
{
    if i < s.len() {
        lemma_find_from_bounds(s, '\n', i);
        let k = find_from(s, '\n', i);
        assert(k < s.len()) by {
            if k >= s.len() {
                assert(s[s.len() - 1] != '\n');
            }
        }
        let first = s.subrange(i, k);
        if first.len() > 0 {
            assert(first.last() == s[k - 1]);
        }
        assert(drop_cr(first) == first);
        let all = lines_from(s, i);
        let rest = lines_from(s, k + 1);
        assert(all == seq![first] + rest);
        assert(all[0] == first);
        assert(all.drop_first() =~= rest);
        assert forall|j: int| 0 <= j < rest.len() implies plain_line(#[trigger] rest[j]) by {
            assert(rest[j] == all[j + 1]);
        }
        lemma_plain_lines_kept(s, k + 1);
        assert(plain_line(all[0]));
        assert(kept_text(all, false) == first + seq!['\n'] + kept_text(rest, false));
        assert(s.subrange(i, s.len() as int) =~= first + seq!['\n'] + s.subrange(k + 1, s.len() as int));
    } else {
        assert(s.subrange(i, s.len() as int) =~= Seq::<char>::empty());
    }
}

/// Text without `node_modules` code is kept as it is: when no line opens a
/// region or names a `node_modules/` path in a comment, every line (blank
/// ones too) comes back, each with its `\n`, so text that ends with `\n`
/// and has no `\r` is unchanged.
pub proof fn law_plain_text_unchanged(content: Seq<char>)
    requires
        forall|k: int| 0 <= k < content.len() ==> content[k] != '\r',
        content.len() == 0 || content.last() == '\n',
        plain_text(content),
    ensures
        stripped(content) == content,
{
    assert forall|j: int| 0 <= j < lines_from(content, 0).len() implies plain_line(
        #[trigger] lines_from(content, 0)[j],
    ) by {
        assert(lines_of(content)[j] == lines_from(content, 0)[j]);
    }
    lemma_plain_lines_kept(content, 0);
    assert(content.subrange(0, content.len() as int) =~= content);
}

/// Removes the regions of bundled `node_modules` code, and the comment lines
/// that name a `node_modules/` path, from the text of a file; every line kept
/// is followed by `\n`.
pub fn strip_node_modules_regions(content: &str) -> (r: String)
    ensures
        r@ == stripped(content@),
        (forall|k: int| 0 <= k < content@.len() ==> content@[k] != '\r') ==> stripped(r@) == r@,
        (forall|k: int| 0 <= k < content@.len() ==> content@[k] != '\r') && (content@.len() == 0
            || content@.last() == '\n') && plain_text(content@) ==> r@ == content@,
{
    proof {
        if (forall|k: int| 0 <= k < content@.len() ==> content@[k] != '\r') && (content@.len() == 0
            || content@.last() == '\n') && plain_text(content@) {
            law_plain_text_unchanged(content@);
        }
        if forall|k: int| 0 <= k < content@.len() ==> content@[k] != '\r' {
            law_strip_idempotent(content@);
        }
    }
    let v = str_chars(content);
    let p_region = str_chars("//#region node_modules/");
    let p_region0 = str_chars("//#region \\0");
    let p_line = str_chars("// node_modules/");
    let p_block = str_chars("/* node_modules/");
    let p_end = str_chars("//#endregion");
    let p_end_block = str_chars("/* #endregion */");
    let p_end_suffix = str_chars("#endregion");
    let p_modules = str_chars("node_modules/");
    let p_slashes = str_chars("//");
    let p_open = str_chars("/*");
    let p_star = str_chars("*");
    let n = v.len();
    let ghost total = kept_text(lines_of(v@), false);
    let mut out: Vec<char> = Vec::new();
    let mut in_region = false;
    let mut i: usize = 0;
    while i < n
        invariant
            n == v@.len(),
            i <= n,
            v@ == content@,
            total == kept_text(lines_of(v@), false),
            out@ + kept_text(lines_from(v@, i as int), in_region) == total,
            p_region@ == "//#region node_modules/"@,
            p_region0@ == "//#region \\0"@,
            p_line@ == "// node_modules/"@,
            p_block@ == "/* node_modules/"@,
            p_end@ == "//#endregion"@,
            p_end_block@ == "/* #endregion */"@,
            p_end_suffix@ == "#endregion"@,
            p_modules@ == "node_modules/"@,
            p_slashes@ == "//"@,
            p_open@ == "/*"@,
            p_star@ == "*"@,
        decreases n - i,
    {
        let k = find_char(&v, '\n', i);
        let mut end = k;
        if k < n && k > i && v[k - 1] == '\r' {
            end = k - 1;
        }
        let next = if k < n {
            k + 1
        } else {
            n
        };
        let ghost line = v@.subrange(i as int, end as int);
        let ghost rest = lines_from(v@, next as int);
        proof {
            if k < n {
                if end < k {
                    assert(v@.subrange(i as int, k as int).drop_last() =~= line);
                }
                assert(drop_cr(v@.subrange(i as int, k as int)) == line);
            }
            assert(lines_from(v@, i as int) == seq![line] + rest);
            assert((seq![line] + rest)[0] == line);
            assert((seq![line] + rest).drop_first() =~= rest);
        }
        let (a, b) = trim_bounds(&v, i, end);
        let opens = range_starts_with(&v, a, b, &p_region) || range_starts_with(
            &v,
            a,
            b,
            &p_region0,
        ) || range_starts_with(&v, a, b, &p_line) || range_starts_with(&v, a, b, &p_block);
        if opens {
            in_region = true;
        } else if in_region {
            if range_eq(&v, a, b, &p_end) || range_eq(&v, a, b, &p_end_block) || range_ends_with(
                &v,
                a,
                b,
                &p_end_suffix,
            ) {
                in_region = false;
            }
        } else if range_contains(&v, a, b, &p_modules) && (range_starts_with(
            &v,
            a,
            b,
            &p_slashes,
        ) || range_starts_with(&v, a, b, &p_open) || range_starts_with(&v, a, b, &p_star)) {
        } else {
            let ghost out0 = out@;
            let mut j = i;
            while j < end
                invariant
                    i <= j <= end <= v@.len(),
                    out@ == out0 + v@.subrange(i as int, j as int),
                decreases end - j,
            {
                out.push(v[j]);
                assert(v@.subrange(i as int, j + 1) =~= v@.subrange(i as int, j as int).push(
                    v@[j as int],
                ));
                j = j + 1;
            }
            out.push('\n');
            assert(out@ =~= out0 + (line + seq!['\n']));
            assert(out0 + (line + seq!['\n'] + kept_text(rest, false)) =~= out@ + kept_text(
                rest,
                false,
            ));
        }
        i = next;
    }
    assert(out@ =~= total);
    string_from_chars(out)
}

} // verus!
