//! Package diffs: which versions a request names and whether it is
//! accepted, which file contents count as binary, the diff of one file, and
//! the answer that a diff request gets.

use vstd::prelude::*;
use crate::text::{
    find_char, find_from, is_ws, joined, lemma_find_from_bounds, lemma_split_joined,
    lemma_trim_empty_iff_ws,
    lemma_split_without_sep, lemma_trim_shape, push_string, split_from, split_on, str_chars,
    string_of_range, strings_view, trim, trim_bounds,
};
use crate::trusted::{json_quote, json_string, tar_items, unified_diff, unified_line_diff, utf8_str};
use crate::routes::archive::{diffs_of, extraction, law_same_files_no_difference, union_of};
use crate::models::NpmPackage;
use crate::routes::{
    route_error, registry_url, str_eq, RouteError, BAD_GATEWAY, BAD_REQUEST, NOT_FOUND,
    REGISTRY_URL, UNPROCESSABLE_ENTITY,
};
use vstd::string::StringExecFns;
use vstd::utf8::{decode_utf8, valid_utf8};
pub use crate::routes::archive::{diff_archives, extract_tarball, ArchiveFiles};
pub use crate::routes::page::{html_page, render_html_page};
pub use crate::routes::strip::{lemma_stripped_blank, strip_node_modules_regions, stripped};

verus! {

broadcast use vstd::string::group_string_axioms;

/// The query of a diff request. Versions may be named in any of its fields;
/// each value may hold several of them separated by commas.
#[derive(Debug)]
pub struct DiffQuery {
    pub version: Option<Vec<String>>,
    pub v: Option<Vec<String>>,
    pub from: Option<String>,
    pub to: Option<String>,
    pub v1: Option<String>,
    pub v2: Option<String>,
    pub include_node_modules: Option<bool>,
    pub raw: Option<bool>,
}

/// The values of a repeatable query field.
pub open spec fn list_values(o: Option<Vec<String>>) -> Seq<Seq<char>> {
    match o {
        Some(l) => strings_view(l@),
        None => seq![],
    }
}

/// The value of a single query field.
pub open spec fn one_value(o: Option<String>) -> Seq<Seq<char>> {
    match o {
        Some(s) => seq![s@],
        None => seq![],
    }
}

/// The pieces that are not empty once trimmed, trimmed.
pub open spec fn trimmed_nonempty(pieces: Seq<Seq<char>>) -> Seq<Seq<char>>
    decreases pieces.len(),
{
    if pieces.len() == 0 {
        seq![]
    } else {
        let t = trim(pieces[0]);
        (if t.len() > 0 {
            seq![t]
        } else {
            seq![]
        }) + trimmed_nonempty(pieces.drop_first())
    }
}

/// The versions named by a list of query values: each value split at its
/// commas, each piece trimmed, empty pieces dropped, in order.
pub open spec fn version_parts(values: Seq<Seq<char>>) -> Seq<Seq<char>>
    decreases values.len(),
{
    if values.len() == 0 {
        seq![]
    } else {
        trimmed_nonempty(split_on(values[0], ',')) + version_parts(values.drop_first())
    }
}

pub proof fn lemma_version_parts_append(a: Seq<Seq<char>>, b: Seq<Seq<char>>)
    ensures
        version_parts(a + b) == version_parts(a) + version_parts(b),
    decreases a.len(),
{
    if a.len() == 0 {
        assert(a + b =~= b);
    } else {
        lemma_version_parts_append(a.drop_first(), b);
        assert((a + b).drop_first() =~= a.drop_first() + b);
        assert((a + b)[0] == a[0]);
        assert(trimmed_nonempty(split_on(a[0], ',')) + (version_parts(a.drop_first())
            + version_parts(b)) =~= trimmed_nonempty(split_on(a[0], ',')) + version_parts(
            a.drop_first(),
        ) + version_parts(b));
    }
}

/// A version as a query names it: not empty, without whitespace around it,
/// and without a comma.
pub open spec fn clean_version(v: Seq<char>) -> bool {
    &&& v.len() > 0
    &&& trim(v) == v
    &&& !v.contains(',')
}

proof fn lemma_split_pieces_lack_sep(s: Seq<char>, sep: char, i: int)
    requires
        0 <= i <= s.len(),
    ensures
        forall|j: int| 0 <= j < split_from(s, sep, i).len() ==> !(#[trigger] split_from(s, sep, i)[j]).contains(sep),
    decreases s.len() - i,
{
    lemma_find_from_bounds(s, sep, i);
    let k = find_from(s, sep, i);
    let all = split_from(s, sep, i);
    let first = s.subrange(i, if k >= s.len() { s.len() as int } else { k });
    assert(!first.contains(sep)) by {
        if first.contains(sep) {
            let w = choose|w: int| 0 <= w < first.len() && first[w] == sep;
            assert(s[i + w] == sep);
        }
    }
    if k < s.len() {
        lemma_split_pieces_lack_sep(s, sep, k + 1);
        assert forall|j: int| 0 <= j < all.len() implies !(#[trigger] all[j]).contains(sep) by {
            if j > 0 {
                assert(all[j] == split_from(s, sep, k + 1)[j - 1]);
            }
        }
    }
}

proof fn lemma_trimmed_nonempty_clean(pieces: Seq<Seq<char>>)
    requires
        forall|j: int| 0 <= j < pieces.len() ==> !(#[trigger] pieces[j]).contains(','),
    ensures
        forall|j: int| 0 <= j < trimmed_nonempty(pieces).len() ==> clean_version(#[trigger] trimmed_nonempty(pieces)[j]),
    decreases pieces.len(),
{
    if pieces.len() > 0 {
        let rest = pieces.drop_first();
        assert forall|j: int| 0 <= j < rest.len() implies !(#[trigger] rest[j]).contains(',') by {
            assert(rest[j] == pieces[j + 1]);
        }
        lemma_trimmed_nonempty_clean(rest);
        let t = trim(pieces[0]);
        let (a, b) = lemma_trim_shape(pieces[0]);
        assert(!t.contains(',')) by {
            if t.contains(',') {
                let w = choose|w: int| 0 <= w < t.len() && t[w] == ',';
                assert(pieces[0][a + w] == ',');
                assert(pieces[0].contains(','));
            }
        }
        let head: Seq<Seq<char>> = if t.len() > 0 { seq![t] } else { seq![] };
        let all = trimmed_nonempty(pieces);
        assert(all == head + trimmed_nonempty(rest));
        assert forall|j: int| 0 <= j < all.len() implies clean_version(#[trigger] all[j]) by {
            if j < head.len() {
                assert(all[j] == t);
            } else {
                assert(all[j] == trimmed_nonempty(rest)[j - head.len()]);
            }
        }
    }
}

/// Every version that query values name is not empty, has no whitespace
/// around it, and holds no comma.
pub proof fn law_versions_are_clean(values: Seq<Seq<char>>)
    ensures
        forall|j: int| 0 <= j < version_parts(values).len() ==> clean_version(#[trigger] version_parts(values)[j]),
    decreases values.len(),
{
    if values.len() > 0 {
        law_versions_are_clean(values.drop_first());
        lemma_split_pieces_lack_sep(values[0], ',', 0);
        lemma_trimmed_nonempty_clean(split_on(values[0], ','));
        let head = trimmed_nonempty(split_on(values[0], ','));
        let all = version_parts(values);
        assert forall|j: int| 0 <= j < all.len() implies clean_version(#[trigger] all[j]) by {
            if j < head.len() {
                assert(all[j] == head[j]);
            } else {
                assert(all[j] == version_parts(values.drop_first())[j - head.len()]);
            }
        }
    }
}

proof fn lemma_parts_of_plain_values(values: Seq<Seq<char>>)
    requires
        forall|i: int| 0 <= i < values.len() ==> !(#[trigger] values[i]).contains(','),
    ensures
        version_parts(values) == trimmed_nonempty(values),
    decreases values.len(),
{
    if values.len() > 0 {
        let rest = values.drop_first();
        assert forall|i: int| 0 <= i < rest.len() implies !(#[trigger] rest[i]).contains(',') by {
            assert(rest[i] == values[i + 1]);
        }
        lemma_parts_of_plain_values(rest);
        lemma_split_without_sep(values[0], ',');
        let one = seq![values[0]];
        assert(one.drop_first() =~= Seq::<Seq<char>>::empty());
        assert(trimmed_nonempty(Seq::<Seq<char>>::empty()) == Seq::<Seq<char>>::empty());
        let t = trim(values[0]);
        let head: Seq<Seq<char>> = if t.len() > 0 { seq![t] } else { seq![] };
        assert(trimmed_nonempty(one) == head + trimmed_nonempty(one.drop_first()));
        assert(head + Seq::<Seq<char>>::empty() =~= head);
    }
}

impl DiffQuery {
    /// The query values that may name versions, in the order they are read:
    /// `version`, `v`, `from`, `to`, `v1`, `v2`.
    pub open spec fn version_values(&self) -> Seq<Seq<char>> {
        list_values(self.version) + list_values(self.v) + one_value(self.from) + one_value(self.to)
            + one_value(self.v1) + one_value(self.v2)
    }

    /// The versions that the query names.
    pub open spec fn versions(&self) -> Seq<Seq<char>> {
        version_parts(self.version_values())
    }

    /// The versions that the query names, in order: every value split at its
    /// commas, every piece trimmed, the empty ones dropped.
    pub fn extract_versions(&self) -> (r: Vec<String>)
        ensures
            strings_view(r@) == self.versions(),
            forall|j: int| 0 <= j < r@.len() ==> clean_version(#[trigger] strings_view(r@)[j]),
    {
        proof {
            law_versions_are_clean(self.version_values());
        }
        let mut out: Vec<String> = Vec::new();
        if let Some(list) = &self.version {
            push_list_parts(&mut out, list);
        }
        if let Some(list) = &self.v {
            push_list_parts(&mut out, list);
        }
        if let Some(s) = &self.from {
            push_value_parts(&mut out, s);
        }
        if let Some(s) = &self.to {
            push_value_parts(&mut out, s);
        }
        if let Some(s) = &self.v1 {
            push_value_parts(&mut out, s);
        }
        if let Some(s) = &self.v2 {
            push_value_parts(&mut out, s);
        }
        proof {
            let a = list_values(self.version);
            let b = list_values(self.v);
            let c = one_value(self.from);
            let d = one_value(self.to);
            let e = one_value(self.v1);
            let f = one_value(self.v2);
            lemma_version_parts_append(a, b);
            lemma_version_parts_append(a + b, c);
            lemma_version_parts_append(a + b + c, d);
            lemma_version_parts_append(a + b + c + d, e);
            lemma_version_parts_append(a + b + c + d + e, f);
            lemma_one_value_parts(self.from);
            lemma_one_value_parts(self.to);
            lemma_one_value_parts(self.v1);
            lemma_one_value_parts(self.v2);
            assert(version_parts(seq![]) =~= Seq::<Seq<char>>::empty());
        }
        out
    }
}

/// Versions named in one `version` value separated by commas, as repeated
/// `version` values, or as repeated `v` values are the same versions, when
/// no version holds a comma.
pub proof fn law_query_styles_agree(repeated: DiffQuery, comma: DiffQuery, short: DiffQuery)
    requires
        repeated.version is Some,
        repeated.v is None,
        comma.v is None,
        short.version is None,
        list_values(comma.version) == seq![joined(list_values(repeated.version), ',')],
        list_values(short.v) == list_values(repeated.version),
        repeated.from == comma.from && comma.from == short.from && short.from is None,
        repeated.to == comma.to && comma.to == short.to && short.to is None,
        repeated.v1 == comma.v1 && comma.v1 == short.v1 && short.v1 is None,
        repeated.v2 == comma.v2 && comma.v2 == short.v2 && short.v2 is None,
        forall|i: int|
            0 <= i < list_values(repeated.version).len() ==> !(#[trigger] list_values(
                repeated.version,
            )[i]).contains(','),
    ensures
        comma.versions() == repeated.versions(),
        short.versions() == repeated.versions(),
{
    let xs = list_values(repeated.version);
    let e = Seq::<Seq<char>>::empty();
    assert(repeated.version_values() =~= xs);
    assert(short.version_values() =~= xs);
    let j = joined(xs, ',');
    assert(comma.version_values() =~= seq![j]);
    lemma_parts_of_plain_values(xs);
    assert(seq![j].drop_first() =~= e);
    assert(version_parts(e) == e);
    assert(version_parts(seq![j]) == trimmed_nonempty(split_on(j, ',')) + version_parts(e));
    assert(trimmed_nonempty(split_on(j, ',')) + e =~= trimmed_nonempty(split_on(j, ',')));
    if xs.len() >= 1 {
        lemma_split_joined(xs, ',');
    } else {
        assert(j == Seq::<char>::empty());
        assert(!j.contains(','));
        lemma_split_without_sep(j, ',');
        assert(xs =~= e);
        let one = seq![j];
        assert(one.drop_first() =~= e);
        assert(trim(j).len() == 0) by {
            lemma_trim_shape(j);
        }
        assert(trimmed_nonempty(one) == e + trimmed_nonempty(e));
        assert(e + e =~= e);
    }
}

proof fn lemma_one_value_parts(o: Option<String>)
    ensures
        version_parts(one_value(o)) == match o {
            Some(s) => trimmed_nonempty(split_on(s@, ',')),
            None => seq![],
        },
{
    if let Some(s) = o {
        assert(one_value(o).drop_first() =~= Seq::<Seq<char>>::empty());
        assert(one_value(o)[0] == s@);
        assert(version_parts(Seq::<Seq<char>>::empty()) =~= Seq::<Seq<char>>::empty());
        assert(trimmed_nonempty(split_on(s@, ',')) + seq![] =~= trimmed_nonempty(split_on(s@, ',')));
    }
}

/// Appends to `out` the versions that one query value names.
fn push_value_parts(out: &mut Vec<String>, item: &String)
    ensures
        strings_view(final(out)@) == strings_view(old(out)@) + trimmed_nonempty(split_on(item@, ',')),
{
    let v = str_chars(item.as_str());
    let n = v.len();
    let ghost start = strings_view(out@);
    let ghost target = start + trimmed_nonempty(split_on(v@, ','));
    let mut i: usize = 0;
    loop
        invariant_except_break
            strings_view(out@) + trimmed_nonempty(split_from(v@, ',', i as int)) == target,
        invariant
            n == v@.len(),
            i <= n,
            v@ == item@,
            target == start + trimmed_nonempty(split_on(v@, ',')),
        ensures
            strings_view(out@) == target,
        decreases n + 1 - i,
    {
        let k = find_char(&v, ',', i);
        let ghost piece = v@.subrange(i as int, k as int);
        let ghost rest = if k < n {
            split_from(v@, ',', k + 1)
        } else {
            Seq::<Seq<char>>::empty()
        };
        proof {
            lemma_find_from_bounds(v@, ',', i as int);
            assert(split_from(v@, ',', i as int) =~= seq![piece] + rest);
            assert((seq![piece] + rest)[0] == piece);
            assert((seq![piece] + rest).drop_first() =~= rest);
        }
        let (a, b) = trim_bounds(&v, i, k);
        let ghost before = strings_view(out@);
        if a < b {
            let s = string_of_range(&v, a, b);
            push_string(out, s);
            assert(before + (seq![trim(piece)] + trimmed_nonempty(rest)) =~= strings_view(out@)
                + trimmed_nonempty(rest));
        } else {
            assert(before + (Seq::<Seq<char>>::empty() + trimmed_nonempty(rest))
                =~= strings_view(out@) + trimmed_nonempty(rest));
        }
        if k >= n {
            assert(trimmed_nonempty(rest) =~= Seq::<Seq<char>>::empty());
            assert(strings_view(out@) =~= strings_view(out@) + trimmed_nonempty(rest));
            break ;
        }
        i = k + 1;
    }
}

/// Appends to `out` the versions that the values of a repeatable field name.
fn push_list_parts(out: &mut Vec<String>, list: &Vec<String>)
    ensures
        strings_view(final(out)@) == strings_view(old(out)@) + version_parts(strings_view(list@)),
{
    let ghost start = strings_view(out@);
    let mut i: usize = 0;
    while i < list.len()
        invariant
            i <= list@.len(),
            strings_view(out@) == start + version_parts(strings_view(list@).take(i as int)),
        decreases list@.len() - i,
    {
        let ghost prev = strings_view(list@).take(i as int);
        push_value_parts(out, &list[i]);
        proof {
            assert(strings_view(list@).take(i + 1) =~= prev + seq![list@[i as int]@]);
            lemma_version_parts_append(prev, seq![list@[i as int]@]);
            lemma_one_value_parts(Some(list@[i as int]));
            assert(one_value(Some(list@[i as int])) =~= seq![list@[i as int]@]);
        }
        i = i + 1;
    }
    assert(strings_view(list@).take(list@.len() as int) =~= strings_view(list@));
}

/// How many bytes from the start of a file are searched for a NUL byte.
pub const BINARY_SAMPLE: usize = 8192;

/// How many lines of context a unified diff shows around each change.
pub const CONTEXT_LINES: usize = 3;

/// A NUL byte among the first `BINARY_SAMPLE` bytes.
pub open spec fn nul_in_sample(bytes: Seq<u8>) -> bool {
    exists|i: int| 0 <= i < bytes.len() && i < BINARY_SAMPLE && bytes[i] == 0
}

/// File contents that are not diffed line by line: a NUL byte near the start,
/// or bytes that are not valid UTF-8.
pub open spec fn binary(bytes: Seq<u8>) -> bool {
    nul_in_sample(bytes) || !valid_utf8(bytes)
}

/// Whether file contents count as binary: a NUL byte among the first 8192
/// bytes, or contents that are not valid UTF-8.
pub fn is_binary(bytes: &[u8]) -> (r: bool)
    ensures
        r == binary(bytes@),
{
    let sample_size = if bytes.len() < BINARY_SAMPLE {
        bytes.len()
    } else {
        BINARY_SAMPLE
    };
    let mut i: usize = 0;
    while i < sample_size
        invariant
            i <= sample_size <= bytes@.len(),
            sample_size <= BINARY_SAMPLE,
            sample_size == bytes@.len() || sample_size == BINARY_SAMPLE,
            forall|j: int| 0 <= j < i ==> bytes@[j] != 0,
        decreases sample_size - i,
    {
        if bytes[i] == 0 {
            return true;
        }
        i = i + 1;
    }
    utf8_str(bytes).is_none()
}

/// Whether two byte strings are equal.
pub fn bytes_equal(a: &[u8], b: &[u8]) -> (r: bool)
    ensures
        r == (a@ == b@),
{
    if a.len() != b.len() {
        return false;
    }
    let mut i: usize = 0;
    while i < a.len()
        invariant
            a@.len() == b@.len(),
            i <= a@.len(),
            forall|j: int| 0 <= j < i ==> a@[j] == b@[j],
        decreases a@.len() - i,
    {
        if a[i] != b[i] {
            return false;
        }
        i = i + 1;
    }
    assert(a@ =~= b@);
    true
}

/// Text that is empty or whitespace only.
pub open spec fn blank(s: Seq<char>) -> bool {
    trim(s).len() == 0
}

/// Whether `s` is empty or whitespace only.
pub fn is_blank(s: &str) -> (r: bool)
    ensures
        r == blank(s@),
{
    let v = str_chars(s);
    let (a, b) = trim_bounds(&v, 0, v.len());
    assert(v@.subrange(0, v@.len() as int) =~= v@);
    a == b
}

/// The contents of an optional string.
pub open spec fn opt_view(o: Option<String>) -> Option<Seq<char>> {
    match o {
        Some(s) => Some(s@),
        None => None,
    }
}

/// The contents of an optional byte string.
pub open spec fn opt_bytes(o: Option<&[u8]>) -> Option<Seq<u8>> {
    match o {
        Some(b) => Some(b@),
        None => None,
    }
}

/// The text of a file that is diffed: the contents decoded as UTF-8, without
/// their `node_modules` regions unless those are asked for.
pub open spec fn file_text(bytes: Seq<u8>, include_node_modules: bool) -> Seq<char> {
    if include_node_modules {
        decode_utf8(bytes)
    } else {
        stripped(decode_utf8(bytes))
    }
}

/// The note for a file that is binary in either version.
pub open spec fn binary_changed_note(p: Seq<char>) -> Seq<char> {
    "diff -r a/"@ + p + " b/"@ + p + "\nBinary files a/"@ + p + " and b/"@ + p + " differ\n"@
}

/// The note for a binary file that the new version no longer has.
pub open spec fn binary_deleted_note(p: Seq<char>) -> Seq<char> {
    "diff -r a/"@ + p + " /dev/null\nBinary file a/"@ + p + " deleted\n"@
}

/// The note for a binary file that only the new version has.
pub open spec fn binary_created_note(p: Seq<char>) -> Seq<char> {
    "diff -r /dev/null b/"@ + p + "\nBinary file b/"@ + p + " created\n"@
}

/// A unified diff kept only when it is not blank.
pub open spec fn nonblank(d: Seq<char>) -> Option<Seq<char>> {
    if blank(d) {
        None
    } else {
        Some(d)
    }
}

/// The diff of one file, `p` being its path in the package: `None` when it
/// shows no difference.
pub open spec fn file_diff(
    p: Seq<char>,
    old: Option<Seq<u8>>,
    new: Option<Seq<u8>>,
    include_node_modules: bool,
) -> Option<Seq<char>> {
    match (old, new) {
        (Some(o), Some(n)) => {
            if o == n {
                None
            } else if binary(o) || binary(n) {
                Some(binary_changed_note(p))
            } else {
                let ot = file_text(o, include_node_modules);
                let nt = file_text(n, include_node_modules);
                if ot == nt {
                    None
                } else {
                    Some(unified_line_diff(ot, nt, CONTEXT_LINES as nat, "a/"@ + p, "b/"@ + p))
                }
            }
        },
        (Some(o), None) => {
            if binary(o) {
                Some(binary_deleted_note(p))
            } else {
                let ot = file_text(o, include_node_modules);
                if blank(ot) {
                    None
                } else {
                    Some(unified_line_diff(ot, ""@, CONTEXT_LINES as nat, "a/"@ + p, "/dev/null"@))
                }
            }
        },
        (None, Some(n)) => {
            if binary(n) {
                Some(binary_created_note(p))
            } else {
                let nt = file_text(n, include_node_modules);
                if blank(nt) {
                    None
                } else {
                    Some(unified_line_diff(""@, nt, CONTEXT_LINES as nat, "/dev/null"@, "b/"@ + p))
                }
            }
        },
        (None, None) => None,
    }
}

/// A file whose contents did not change shows no difference, and neither
/// does a path that neither version has.
pub proof fn law_unchanged_file_has_no_diff(p: Seq<char>, contents: Seq<u8>, include_node_modules: bool)
    ensures
        file_diff(p, Some(contents), Some(contents), include_node_modules) is None,
        file_diff(p, None, None, include_node_modules) is None,
{
}

/// Leaving `node_modules` code out never makes a difference appear: a file
/// that shows no difference with that code shows none without it.
pub proof fn law_leaving_out_modules_adds_no_diff(p: Seq<char>, old: Option<Seq<u8>>, new: Option<Seq<u8>>)
    ensures
        file_diff(p, old, new, true) is None ==> file_diff(p, old, new, false) is None,
{
    match (old, new) {
        (Some(o), None) => {
            if !binary(o) && blank(file_text(o, true)) {
                lemma_stripped_blank(decode_utf8(o));
            }
        },
        (None, Some(n)) => {
            if !binary(n) && blank(file_text(n, true)) {
                lemma_stripped_blank(decode_utf8(n));
            }
        },
        _ => {},
    }
}

/// Whether the diff of one file is a text diff: every present side is text,
/// and the two texts differ (with one side missing, the other is not
/// blank).
pub open spec fn text_diff_shown(old: Option<Seq<u8>>, new: Option<Seq<u8>>, include_node_modules: bool) -> bool {
    match (old, new) {
        (Some(o), Some(n)) => !binary(o) && !binary(n) && file_text(o, include_node_modules)
            != file_text(n, include_node_modules),
        (Some(o), None) => !binary(o) && !blank(file_text(o, include_node_modules)),
        (None, Some(n)) => !binary(n) && !blank(file_text(n, include_node_modules)),
        (None, None) => false,
    }
}

/// The two header lines a text diff of one file begins with.
pub open spec fn diff_head(p: Seq<char>, old: Option<Seq<u8>>, new: Option<Seq<u8>>) -> Seq<char> {
    let a = if old is Some { "a/"@ + p } else { "/dev/null"@ };
    let b = if new is Some { "b/"@ + p } else { "/dev/null"@ };
    "--- "@ + a + "\n+++ "@ + b + "\n"@
}

proof fn lemma_headed_not_blank(d: Seq<char>, head: Seq<char>)
    requires
        "--- "@.is_prefix_of(head),
        head.is_prefix_of(d),
    ensures
        !blank(d),
{
    reveal_strlit("--- ");
    let q = "--- "@;
    assert(q[0] == '-');
    assert(head.subrange(0, q.len() as int) == q);
    assert(head[0] == head.subrange(0, q.len() as int)[0]);
    assert(d.subrange(0, head.len() as int) == head);
    assert(d[0] == d.subrange(0, head.len() as int)[0]);
    lemma_trim_empty_iff_ws(d);
    assert(!is_ws(d[0]));
}

/// A unified diff, or `None` when it is empty or whitespace only.
pub fn keep_nonblank(diff: String) -> (r: Option<String>)
    ensures
        opt_view(r) == nonblank(diff@),
{
    if is_blank(diff.as_str()) {
        None
    } else {
        Some(diff)
    }
}

/// `prefix` followed by `p`.
fn prefixed(prefix: &str, p: &str) -> (r: String)
    ensures
        r@ == prefix@ + p@,
{
    let mut s = String::new();
    s.append(prefix);
    s.append(p);
    assert(s@ =~= prefix@ + p@);
    s
}

/// The text of a file that is not binary.
fn text_of(bytes: &[u8], include_node_modules: bool) -> (r: String)
    requires
        valid_utf8(bytes@),
    ensures
        r@ == file_text(bytes@, include_node_modules),
{
    let s = utf8_str(bytes).unwrap();
    if include_node_modules {
        s.to_owned()
    } else {
        strip_node_modules_regions(s)
    }
}

/// The diff of one file between two versions of a package, `path_str` being
/// its path in the package: `None` when there is nothing to show.
pub fn diff_files(
    path_str: &str,
    old_content: Option<&[u8]>,
    new_content: Option<&[u8]>,
    include_node_modules: bool,
) -> (r: Option<String>)
    ensures
        opt_view(r) == file_diff(
            path_str@,
            opt_bytes(old_content),
            opt_bytes(new_content),
            include_node_modules,
        ),
        text_diff_shown(opt_bytes(old_content), opt_bytes(new_content), include_node_modules) ==> (
        r matches Some(u) && diff_head(path_str@, opt_bytes(old_content), opt_bytes(new_content)).is_prefix_of(u@)),
{
    let ghost p = path_str@;
    proof {
        reveal_strlit("--- ");
        reveal_strlit("");
    }
    match (old_content, new_content) {
        (Some(old_bytes), Some(new_bytes)) => {
            if bytes_equal(old_bytes, new_bytes) {
                return None;
            }
            if is_binary(old_bytes) || is_binary(new_bytes) {
                let mut s = String::new();
                s.append("diff -r a/");
                s.append(path_str);
                s.append(" b/");
                s.append(path_str);
                s.append("\nBinary files a/");
                s.append(path_str);
                s.append(" and b/");
                s.append(path_str);
                s.append(" differ\n");
                assert(s@ =~= binary_changed_note(p));
                return Some(s);
            }
            let old_str = text_of(old_bytes, include_node_modules);
            let new_str = text_of(new_bytes, include_node_modules);
            if old_str == new_str {
                return None;
            }
            let unified = unified_diff(
                old_str.as_str(),
                new_str.as_str(),
                CONTEXT_LINES,
                prefixed("a/", path_str).as_str(),
                prefixed("b/", path_str).as_str(),
            );
            proof {
                lemma_headed_not_blank(unified@, diff_head(p, Some(old_bytes@), Some(new_bytes@)));
            }
            keep_nonblank(unified)
        },
        (Some(old_bytes), None) => {
            if is_binary(old_bytes) {
                let mut s = String::new();
                s.append("diff -r a/");
                s.append(path_str);
                s.append(" /dev/null\nBinary file a/");
                s.append(path_str);
                s.append(" deleted\n");
                assert(s@ =~= binary_deleted_note(p));
                return Some(s);
            }
            let old_str = text_of(old_bytes, include_node_modules);
            if is_blank(old_str.as_str()) {
                return None;
            }
            Some(
                unified_diff(
                    old_str.as_str(),
                    "",
                    CONTEXT_LINES,
                    prefixed("a/", path_str).as_str(),
                    "/dev/null",
                ),
            )
        },
        (None, Some(new_bytes)) => {
            if is_binary(new_bytes) {
                let mut s = String::new();
                s.append("diff -r /dev/null b/");
                s.append(path_str);
                s.append("\nBinary file b/");
                s.append(path_str);
                s.append(" created\n");
                assert(s@ =~= binary_created_note(p));
                return Some(s);
            }
            let new_str = text_of(new_bytes, include_node_modules);
            if is_blank(new_str.as_str()) {
                return None;
            }
            Some(
                unified_diff(
                    "",
                    new_str.as_str(),
                    CONTEXT_LINES,
                    "/dev/null",
                    prefixed("b/", path_str).as_str(),
                ),
            )
        },
        (None, None) => None,
    }
}

/// The versions a request may name, when it has a query.
pub open spec fn query_versions(query: Option<&DiffQuery>) -> Seq<Seq<char>> {
    match query {
        Some(q) => q.versions(),
        None => seq![],
    }
}

/// Whether the query asks for `node_modules` code to be kept.
pub open spec fn query_keeps_node_modules(query: Option<&DiffQuery>) -> bool {
    match query {
        Some(q) => q.include_node_modules == Some(true),
        None => false,
    }
}

/// Whether the query asks for the raw diff.
pub open spec fn query_wants_raw(query: Option<&DiffQuery>) -> bool {
    match query {
        Some(q) => q.raw == Some(true),
        None => false,
    }
}

/// An option is on only when the query sets it to `true`: left out of the
/// query, or with no query at all, the raw diff and `node_modules` code are
/// both off.
pub proof fn law_options_are_off_unless_asked(query: Option<&DiffQuery>)
    ensures
        query_wants_raw(query) <==> (query matches Some(q) && q.raw == Some(true)),
        query_keeps_node_modules(query) <==> (query matches Some(q) && q.include_node_modules == Some(true)),
        (query is None || query.unwrap().raw is None) ==> !query_wants_raw(query),
        (query is None || query.unwrap().include_node_modules is None) ==> !query_keeps_node_modules(query),
{
}

/// A diff request that is accepted: the package, the address of its document,
/// the two versions and how to answer.
#[derive(Debug)]
pub struct DiffPlan {
    pub package_name: String,
    pub registry_url: String,
    pub v1: String,
    pub v2: String,
    pub include_node_modules: bool,
    pub raw: bool,
}

/// The message for a request that does not name exactly two versions.
pub const TWO_VERSIONS_REQUIRED: &'static str = "Exactly two version parameters are required (e.g. ?version[]=4.8.6&version[]=4.8.7 or ?version=4.8.6&version=4.8.7)";

/// A package name that a diff request cannot name.
pub open spec fn unnamed_package(name: Seq<char>) -> bool {
    name.len() == 0 || name == "favicon.ico"@
}

/// Decides whether a diff request is accepted: it must name a package and
/// exactly two versions.
pub fn plan_diff(package_name: &str, query: Option<&DiffQuery>) -> (r: Result<DiffPlan, RouteError>)
    ensures
        unnamed_package(package_name@) ==> (r matches Err(e) && e.is(
            BAD_REQUEST,
            "Package name is required"@,
        )),
        !unnamed_package(package_name@) && query_versions(query).len() != 2 ==> (r matches Err(e)
            && e.is(BAD_REQUEST, TWO_VERSIONS_REQUIRED@)),
        !unnamed_package(package_name@) && query_versions(query).len() == 2 ==> (r matches Ok(p) && {
            &&& p.package_name@ == package_name@
            &&& p.registry_url@ == REGISTRY_URL@ + package_name@
            &&& p.v1@ == query_versions(query)[0]
            &&& p.v2@ == query_versions(query)[1]
            &&& p.include_node_modules == query_keeps_node_modules(query)
            &&& p.raw == query_wants_raw(query)
        }),
        r matches Ok(p) ==> {
            &&& p.raw <==> (query matches Some(q) && q.raw == Some(true))
            &&& p.include_node_modules <==> (query matches Some(q) && q.include_node_modules == Some(true))
        },
{
    if package_name.is_empty() || str_eq(package_name, "favicon.ico") {
        return Err(route_error(BAD_REQUEST, String::from_str("Package name is required")));
    }
    let versions = match query {
        Some(q) => q.extract_versions(),
        None => Vec::new(),
    };
    proof {
        if query is None {
            assert(strings_view(versions@) =~= Seq::<Seq<char>>::empty());
        }
    }
    if versions.len() != 2 {
        return Err(route_error(BAD_REQUEST, String::from_str(TWO_VERSIONS_REQUIRED)));
    }
    let include_node_modules = match query {
        Some(q) => match q.include_node_modules {
            Some(b) => b,
            None => false,
        },
        None => false,
    };
    let raw = match query {
        Some(q) => match q.raw {
            Some(b) => b,
            None => false,
        },
        None => false,
    };
    let v1 = versions[0].clone();
    let v2 = versions[1].clone();
    assert(strings_view(versions@)[0] == versions@[0]@);
    assert(strings_view(versions@)[1] == versions@[1]@);
    Ok(
        DiffPlan {
            package_name: package_name.to_owned(),
            registry_url: registry_url(package_name),
            v1,
            v2,
            include_node_modules,
            raw,
        },
    )
}

/// The entry filed under `key` that comes first, if there is one.
pub open spec fn first_with_key<V>(entries: Seq<(String, V)>, key: Seq<char>) -> Option<V>
    decreases entries.len(),
{
    if entries.len() == 0 {
        None
    } else if entries[0].0@ == key {
        Some(entries[0].1)
    } else {
        first_with_key(entries.drop_first(), key)
    }
}

/// A value is found only under its exact key: the value found is that of the
/// first entry whose key is `key`, and none is found exactly when no entry
/// has that key.
pub proof fn law_key_lookup_is_exact<V>(entries: Seq<(String, V)>, key: Seq<char>)
    ensures
        first_with_key(entries, key) matches Some(v) ==> exists|i: int|
            0 <= i < entries.len() && (#[trigger] entries[i]).0@ == key && entries[i].1 == v
                && forall|j: int| 0 <= j < i ==> (#[trigger] entries[j]).0@ != key,
        first_with_key(entries, key) is None <==> forall|i: int| 0 <= i < entries.len() ==> (#[trigger] entries[i]).0@ != key,
    decreases entries.len(),
{
    if entries.len() > 0 {
        let rest = entries.drop_first();
        law_key_lookup_is_exact(rest, key);
        if entries[0].0@ != key {
            if let Some(v) = first_with_key(rest, key) {
                let i = choose|i: int|
                    0 <= i < rest.len() && (#[trigger] rest[i]).0@ == key && rest[i].1 == v
                        && forall|j: int| 0 <= j < i ==> (#[trigger] rest[j]).0@ != key;
                assert(entries[i + 1] == rest[i]);
                assert forall|j: int| 0 <= j < i + 1 implies (#[trigger] entries[j]).0@ != key by {
                    if j > 0 {
                        assert(entries[j] == rest[j - 1]);
                    }
                }
            } else {
                assert forall|i: int| 0 <= i < entries.len() implies (#[trigger] entries[i]).0@ != key by {
                    if i > 0 {
                        assert(entries[i] == rest[i - 1]);
                    }
                }
            }
            if first_with_key(entries, key) is None {
            } else {
                assert(!forall|i: int| 0 <= i < entries.len() ==> (#[trigger] entries[i]).0@ != key) by {
                    let i = choose|i: int| 0 <= i < rest.len() && (#[trigger] rest[i]).0@ == key && rest[i].1 == first_with_key(rest, key)->Some_0
                        && forall|j: int| 0 <= j < i ==> (#[trigger] rest[j]).0@ != key;
                    assert(entries[i + 1] == rest[i]);
                }
            }
        } else {
            assert(entries[0].0@ == key);
        }
    }
}

/// The position of the first entry filed under `key`.
pub fn find_key<V>(entries: &Vec<(String, V)>, key: &str) -> (r: Option<usize>)
    ensures
        match r {
            Some(i) => i < entries@.len() && first_with_key(entries@, key@) == Some(entries@[i as int].1),
            None => first_with_key(entries@, key@) is None,
        },
        match r {
            Some(i) => entries@[i as int].0@ == key@ && forall|j: int| 0 <= j < i ==> (#[trigger] entries@[j]).0@ != key@,
            None => forall|j: int| 0 <= j < entries@.len() ==> (#[trigger] entries@[j]).0@ != key@,
        },
{
    let mut i: usize = 0;
    assert(entries@.skip(0) =~= entries@);
    while i < entries.len()
        invariant
            i <= entries@.len(),
            first_with_key(entries@, key@) == first_with_key(entries@.skip(i as int), key@),
            forall|j: int| 0 <= j < i ==> (#[trigger] entries@[j]).0@ != key@,
        decreases entries@.len() - i,
    {
        assert(entries@.skip(i as int).drop_first() =~= entries@.skip(i + 1));
        if str_eq(entries[i].0.as_str(), key) {
            return Some(i);
        }
        i = i + 1;
    }
    None
}

/// The message for a version the package does not have.
pub open spec fn version_missing(version: Seq<char>, package_name: Seq<char>) -> Seq<char> {
    "Version '"@ + version + "' not found for package '"@ + package_name + "'"@
}

fn version_not_found(version: &str, package_name: &str) -> (r: RouteError)
    ensures
        r.is(NOT_FOUND, version_missing(version@, package_name@)),
{
    let mut m = String::new();
    m.append("Version '");
    m.append(version);
    m.append("' not found for package '");
    m.append(package_name);
    m.append("'");
    assert(m@ =~= version_missing(version@, package_name@));
    route_error(NOT_FOUND, m)
}

/// The addresses of the tarballs of the two versions a request names, or the
/// refusal for the first of them the package does not have.
pub fn select_tarballs(package: &NpmPackage, plan: &DiffPlan) -> (r: Result<(String, String), RouteError>)
    ensures
        match (first_with_key(package.versions@, plan.v1@), first_with_key(package.versions@, plan.v2@)) {
            (None, _) => r matches Err(e) && e.is(NOT_FOUND, version_missing(plan.v1@, plan.package_name@)),
            (Some(_), None) => r matches Err(e) && e.is(NOT_FOUND, version_missing(plan.v2@, plan.package_name@)),
            (Some(a), Some(b)) => r matches Ok(t) && t.0@ == a.dist.tarball@ && t.1@ == b.dist.tarball@,
        },
        r matches Ok(t) ==> (exists|i: int|
            0 <= i < package.versions@.len() && (#[trigger] package.versions@[i]).0@ == plan.v1@
                && package.versions@[i].1.dist.tarball@ == t.0@) && (exists|i: int|
            0 <= i < package.versions@.len() && (#[trigger] package.versions@[i]).0@ == plan.v2@
                && package.versions@[i].1.dist.tarball@ == t.1@),
        r is Err ==> (forall|i: int| 0 <= i < package.versions@.len() ==> (#[trigger] package.versions@[i]).0@ != plan.v1@)
            || (forall|i: int| 0 <= i < package.versions@.len() ==> (#[trigger] package.versions@[i]).0@ != plan.v2@),
{
    let i1 = match find_key(&package.versions, plan.v1.as_str()) {
        Some(i) => i,
        None => {
            return Err(version_not_found(plan.v1.as_str(), plan.package_name.as_str()));
        },
    };
    let i2 = match find_key(&package.versions, plan.v2.as_str()) {
        Some(i) => i,
        None => {
            return Err(version_not_found(plan.v2.as_str(), plan.package_name.as_str()));
        },
    };
    let t1 = package.versions[i1].1.dist.tarball.clone();
    let t2 = package.versions[i2].1.dist.tarball.clone();
    assert(package.versions@[i1 as int].0@ == plan.v1@);
    assert(package.versions@[i2 as int].0@ == plan.v2@);
    Ok((t1, t2))
}

/// `prefix`, the version, `middle` and `detail`, as one message.
fn version_message(prefix: &str, version: &str, middle: &str, detail: &str) -> (r: String)
    ensures
        r@ == prefix@ + version@ + middle@ + detail@,
{
    let mut m = String::new();
    m.append(prefix);
    m.append(version);
    m.append(middle);
    m.append(detail);
    assert(m@ =~= prefix@ + version@ + middle@ + detail@);
    m
}

/// The refusal when a tarball is answered with a status other than success.
pub fn tarball_status_error(version: &str, status_text: &str) -> (r: RouteError)
    ensures
        r.is(BAD_GATEWAY, "Failed to download tarball for version "@ + version@ + ": HTTP "@ + status_text@),
{
    route_error(BAD_GATEWAY, version_message("Failed to download tarball for version ", version, ": HTTP ", status_text))
}

/// The refusal when a tarball cannot be fetched.
pub fn tarball_fetch_error(version: &str, detail: &str) -> (r: RouteError)
    ensures
        r.is(BAD_GATEWAY, "Failed to download tarball for version "@ + version@ + ": "@ + detail@),
{
    route_error(BAD_GATEWAY, version_message("Failed to download tarball for version ", version, ": ", detail))
}

/// The refusal for a tarball answered with `status` (shown as `status_text`),
/// or `None` when the status is a success (`2xx`).
pub fn check_tarball_status(version: &str, status: u16, status_text: &str) -> (r: Option<RouteError>)
    ensures
        200 <= status <= 299 ==> r is None,
        !(200 <= status <= 299) ==> (r matches Some(e) && e.is(
            BAD_GATEWAY,
            "Failed to download tarball for version "@ + version@ + ": HTTP "@ + status_text@,
        )),
{
    if 200 <= status && status <= 299 {
        None
    } else {
        Some(tarball_status_error(version, status_text))
    }
}

/// The refusal when the body of a tarball cannot be read.
pub fn tarball_body_error(version: &str, detail: &str) -> (r: RouteError)
    ensures
        r.is(BAD_GATEWAY, "Failed to read tarball body for version "@ + version@ + ": "@ + detail@),
{
    route_error(BAD_GATEWAY, version_message("Failed to read tarball body for version ", version, ": ", detail))
}

/// The refusal when a tarball cannot be unpacked.
pub fn tarball_extract_error(version: &str, detail: &str) -> (r: RouteError)
    ensures
        r.is(UNPROCESSABLE_ENTITY, "Failed to extract tarball for version "@ + version@ + ": "@ + detail@),
{
    route_error(UNPROCESSABLE_ENTITY, version_message("Failed to extract tarball for version ", version, ": ", detail))
}

/// The answer to a diff request: plain text, or an HTML page.
#[derive(Debug)]
pub enum DiffResponse {
    Text(String),
    Html(String),
}

/// The text that stands for a diff without any difference.
pub open spec fn no_difference_note(package_name: Seq<char>, v1: Seq<char>, v2: Seq<char>) -> Seq<char> {
    "# Package: "@ + package_name + "\n# Version "@ + v1 + " -> "@ + v2 + "\n# No differences found.\n"@
}

/// The address of the raw diff for the same request.
pub open spec fn raw_diff_url(package_name: Seq<char>, v1: Seq<char>, v2: Seq<char>, include_node_modules: bool) -> Seq<char> {
    "/diff/"@ + package_name + "?version[]="@ + v1 + "&version[]="@ + v2 + (if include_node_modules {
        "&include_node_modules=true"@
    } else {
        ""@
    }) + "&raw=true"@
}

/// The answer for an accepted request whose files differ by `diff_output`:
/// the diff (or, when empty, a note that there is none) as text when the raw
/// diff is asked for, else in the HTML page.
pub open spec fn diff_answer(plan: DiffPlan, diff_output: Seq<char>) -> (bool, Seq<char>) {
    let text = if diff_output.len() == 0 {
        no_difference_note(plan.package_name@, plan.v1@, plan.v2@)
    } else {
        diff_output
    };
    if plan.raw {
        (true, text)
    } else {
        (false, html_page(plan.package_name@, plan.v1@, plan.v2@, json_quote(text), raw_diff_url(plan.package_name@, plan.v1@, plan.v2@, plan.include_node_modules)))
    }
}

/// A package tarball diffed against itself shows no difference: when its
/// files can be extracted, the answer is the one for an empty diff, which
/// as raw text is the note that no differences were found.
pub proof fn law_same_tarball_no_difference(bytes: Seq<u8>, plan: DiffPlan)
    ensures
        extraction(tar_items(bytes), 0, seq![], plan.include_node_modules) matches Ok(files) ==> {
            &&& diff_answer(plan, diffs_of(union_of(files, files), files, files, plan.include_node_modules))
                == diff_answer(plan, Seq::<char>::empty())
            &&& plan.raw ==> diff_answer(plan, Seq::<char>::empty()) == (
                true,
                no_difference_note(plan.package_name@, plan.v1@, plan.v2@),
            )
        },
{
    if let Ok(files) = extraction(tar_items(bytes), 0, seq![], plan.include_node_modules) {
        law_same_files_no_difference(files, plan.include_node_modules);
    }
}

impl DiffResponse {
    /// Whether the answer is plain text, and its body.
    pub open spec fn answer(self) -> (bool, Seq<char>) {
        match self {
            DiffResponse::Text(t) => (true, t@),
            DiffResponse::Html(h) => (false, h@),
        }
    }
}

/// Builds the answer to an accepted diff request from the diff of its files.
pub fn finish_diff(plan: &DiffPlan, diff_output: String) -> (r: DiffResponse)
    ensures
        r.answer() == diff_answer(*plan, diff_output@),
{
    let mut text = diff_output;
    if text.as_str().is_empty() {
        let mut note = String::new();
        note.append("# Package: ");
        note.append(plan.package_name.as_str());
        note.append("\n# Version ");
        note.append(plan.v1.as_str());
        note.append(" -> ");
        note.append(plan.v2.as_str());
        note.append("\n# No differences found.\n");
        assert(note@ =~= no_difference_note(plan.package_name@, plan.v1@, plan.v2@));
        text = note;
    }
    if plan.raw {
        DiffResponse::Text(text)
    } else {
        let diff_json = match json_string(text.as_str()) {
            Some(j) => j,
            None => String::from_str("\"\""),
        };
        let mut raw_url = String::new();
        raw_url.append("/diff/");
        raw_url.append(plan.package_name.as_str());
        raw_url.append("?version[]=");
        raw_url.append(plan.v1.as_str());
        raw_url.append("&version[]=");
        raw_url.append(plan.v2.as_str());
        if plan.include_node_modules {
            raw_url.append("&include_node_modules=true");
        } else {
            raw_url.append("");
        }
        raw_url.append("&raw=true");
        assert(raw_url@ =~= raw_diff_url(plan.package_name@, plan.v1@, plan.v2@, plan.include_node_modules));
        let html = render_html_page(
            plan.package_name.as_str(),
            plan.v1.as_str(),
            plan.v2.as_str(),
            diff_json.as_str(),
            raw_url.as_str(),
        );
        DiffResponse::Html(html)
    }
}

} // verus!
