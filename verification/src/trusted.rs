//! The library's trusted items: each one calls a single function of std or of
//! an outside crate, and its contract is believed, not proved.

use vstd::prelude::*;
use vstd::utf8::{decode_utf8, valid_utf8};

verus! {

/// `String::from_iter` over `char`s: the string holds exactly the characters
/// of `v`, in order.
#[verifier::external_body]
pub(crate) fn string_from_chars(v: Vec<char>) -> (s: String)
    ensures
        s@ == v@,
{
    String::from_iter(v)
}

/// `std::str::from_utf8`: the bytes read as UTF-8 text, present exactly when
/// they are valid UTF-8.
#[verifier::external_body]
pub(crate) fn utf8_str(bytes: &[u8]) -> (r: Option<&str>)
    ensures
        r is Some <==> valid_utf8(bytes@),
        r matches Some(s) ==> s@ == decode_utf8(bytes@),
{
    match std::str::from_utf8(bytes) {
        Ok(s) => Some(s),
        Err(_) => None,
    }
}

/// What `similar::udiff::unified_diff` gives back: the unified diff, line by
/// line, of `old` and `new`, with `context` lines of context around each
/// change and headed by `--- old_header` and `+++ new_header`.
pub uninterp spec fn unified_line_diff(
    old: Seq<char>,
    new: Seq<char>,
    context: nat,
    old_header: Seq<char>,
    new_header: Seq<char>,
) -> Seq<char>;

/// `similar::udiff::unified_diff` with the Myers algorithm, which is the one
/// `similar::TextDiff::from_lines` uses unless told otherwise. Its result is
/// a function of its arguments alone, named `unified_line_diff`. Of two texts
/// that differ, their lines differ too, so there is a hunk, and the header
/// lines `--- old_header` and `+++ new_header` are written before the first
/// hunk.
#[verifier::external_body]
pub(crate) fn unified_diff(
    old: &str,
    new: &str,
    context: usize,
    old_header: &str,
    new_header: &str,
) -> (r: String)
    ensures
        r@ == unified_line_diff(old@, new@, context as nat, old_header@, new_header@),
        old@ != new@ ==> ("--- "@ + old_header@ + "\n+++ "@ + new_header@ + "\n"@).is_prefix_of(r@),
{
    similar::udiff::unified_diff(
        similar::Algorithm::Myers,
        old,
        new,
        context,
        Some((old_header, new_header)),
    )
}

/// One character of a JSON string literal as `serde_json` writes it: `"` and
/// `\` escaped with a backslash, the control characters backspace, tab, line
/// feed, form feed and carriage return by their short escapes, the other
/// control characters below U+0020 as `\u00` and two lower-case hex digits,
/// and every other character as itself.
pub open spec fn json_escape(c: char) -> Seq<char> {
    if c == '"' {
        seq!['\\', '"']
    } else if c == '\\' {
        seq!['\\', '\\']
    } else if c == '\u{08}' {
        seq!['\\', 'b']
    } else if c == '\t' {
        seq!['\\', 't']
    } else if c == '\n' {
        seq!['\\', 'n']
    } else if c == '\u{0C}' {
        seq!['\\', 'f']
    } else if c == '\r' {
        seq!['\\', 'r']
    } else if (c as u32) < 0x20 {
        seq!['\\', 'u', '0', '0', hex_digit((c as u32) / 16), hex_digit((c as u32) % 16)]
    } else {
        seq![c]
    }
}

/// A lower-case hexadecimal digit.
pub open spec fn hex_digit(n: u32) -> char {
    if n < 10 {
        (n + 48) as char
    } else {
        (n + 87) as char
    }
}

/// The characters of `s`, each escaped for a JSON string literal.
pub open spec fn json_escaped(s: Seq<char>) -> Seq<char>
    decreases s.len(),
{
    if s.len() == 0 {
        seq![]
    } else {
        json_escape(s[0]) + json_escaped(s.drop_first())
    }
}

/// `s` as a JSON string literal.
pub open spec fn json_quote(s: Seq<char>) -> Seq<char> {
    seq!['"'] + json_escaped(s) + seq!['"']
}

/// `serde_json::to_string` on a string: its JSON string literal. Writing a
/// string into memory does not fail, so the result is always present.
#[verifier::external_body]
pub(crate) fn json_string(s: &str) -> (r: Option<String>)
    ensures
        r is Some,
        r.unwrap()@ == json_quote(s@),
{
    serde_json::to_string(s).ok()
}

#[verifier::external_type_specification]
#[verifier::external_body]
#[verifier::reject_recursive_types(R)]
pub struct ExGzDecoder<R>(flate2::read::GzDecoder<R>);

/// The compressed bytes a gzip reader reads from.
pub uninterp spec fn gz_input(gz: flate2::read::GzDecoder<&[u8]>) -> Seq<u8>;

/// `flate2::read::GzDecoder::new`: a reader that inflates the gzip stream in
/// `bytes` as it is read. Nothing is read yet.
#[verifier::external_body]
pub(crate) fn gz_decoder<'a>(bytes: &'a [u8]) -> (r: flate2::read::GzDecoder<&'a [u8]>)
    ensures
        gz_input(r) == bytes@,
{
    flate2::read::GzDecoder::new(bytes)
}

/// What `tar` gives for one entry of an archive, read from its start with
/// every entry either read to its end or not read at all: the entry's path
/// (`tar::Entry::path`, as `to_string_lossy` shows it; `None` when that
/// fails), whether it is a directory (`tar::EntryType::is_dir` of its
/// header's type), and what `read_to_end` gives on it (its contents, or the
/// error, shown by its `Display`); or the error (shown by its `Display`) that
/// `Iterator::next` on `tar::Entries` gives in its place.
pub type TarItem = Result<(Option<Seq<char>>, bool, Result<Seq<u8>, Seq<char>>), Seq<char>>;

/// What `Iterator::next` on the `tar::Entries` of a `tar::Archive` over a
/// `flate2::read::GzDecoder` of `bytes` gives, one item for each call until
/// it gives `None`. The archive and the compressed bytes are in memory, so
/// this is a function of `bytes` alone.
pub uninterp spec fn tar_items(bytes: Seq<u8>) -> Seq<TarItem>;

/// A tar archive read from a gzip stream held in memory. `tar::Archive` is
/// bounded by `std::io::Read`, which Verus does not know, so the archive is
/// held in this opaque struct.
#[verifier::external_body]
pub struct TarArchive<'a> {
    archive: tar::Archive<flate2::read::GzDecoder<&'a [u8]>>,
}

/// The compressed bytes an archive reads from, and whether it has read any.
pub uninterp spec fn archive_state(archive: TarArchive) -> (Seq<u8>, bool);

/// The entries of a `TarArchive`, read one after the other.
#[verifier::external_body]
pub struct TarEntries<'b, 'a> {
    entries: tar::Entries<'b, flate2::read::GzDecoder<&'a [u8]>>,
}

/// The compressed bytes the entries are read from, how many items `next_entry`
/// has given, and whether a read of an entry has failed since (after which
/// nothing is said of what follows).
pub uninterp spec fn entries_state(entries: TarEntries) -> (Seq<u8>, nat, bool);

/// One entry of a `TarArchive`: its header, and its contents as they are read.
#[verifier::external_body]
pub struct TarEntry<'b, 'a> {
    entry: tar::Entry<'b, flate2::read::GzDecoder<&'a [u8]>>,
}

/// The compressed bytes the entry is read from, its position among the items
/// of `tar_items`, and whether its contents are still unread.
pub uninterp spec fn entry_state(entry: TarEntry) -> (Seq<u8>, nat, bool);

/// `tar::Archive::new`: an archive read from `gz`. Nothing is read yet.
#[verifier::external_body]
pub(crate) fn tar_archive<'a>(gz: flate2::read::GzDecoder<&'a [u8]>) -> (r: TarArchive<'a>)
    ensures
        archive_state(r) == (gz_input(gz), false),
{
    TarArchive { archive: tar::Archive::new(gz) }
}

/// `tar::Archive::entries`: the entries of the archive, or the error that
/// stops them, shown by its `Display`. It fails only on an archive that has
/// been read from already.
#[verifier::external_body]
pub(crate) fn archive_entries<'b, 'a>(archive: &'b mut TarArchive<'a>) -> (r: Result<TarEntries<'b, 'a>, String>)
    ensures
        !archive_state(*old(archive)).1 ==> (r matches Ok(e) && entries_state(e) == (
            archive_state(*old(archive)).0,
            0nat,
            false,
        )),
{
    match archive.archive.entries() {
        Ok(entries) => Ok(TarEntries { entries }),
        Err(e) => Err(e.to_string()),
    }
}

/// `Iterator::next` on `tar::Entries`: the next item of `tar_items` (an entry,
/// or the error met in reading it), or `None` once all are given. After an
/// error it gives `None` for good.
#[verifier::external_body]
pub(crate) fn next_entry<'b, 'a>(entries: &mut TarEntries<'b, 'a>) -> (r: Option<Result<TarEntry<'b, 'a>, String>>)
    requires
        !entries_state(*old(entries)).2,
    ensures
        entries_state(*old(entries)).1 >= tar_items(entries_state(*old(entries)).0).len() ==> r is None
            && entries_state(*final(entries)) == entries_state(*old(entries)),
        entries_state(*old(entries)).1 < tar_items(entries_state(*old(entries)).0).len() ==> {
            &&& entries_state(*final(entries)) == (
                entries_state(*old(entries)).0,
                entries_state(*old(entries)).1 + 1,
                false,
            )
            &&& match tar_items(entries_state(*old(entries)).0)[entries_state(*old(entries)).1 as int] {
                Err(m) => r matches Some(Err(s)) && s@ == m,
                Ok(_) => r matches Some(Ok(e)) && entry_state(e) == (
                    entries_state(*old(entries)).0,
                    entries_state(*old(entries)).1,
                    true,
                ),
            }
        },
        r matches Some(Err(_)) ==> entries_state(*old(entries)).1 + 1 == tar_items(
            entries_state(*old(entries)).0,
        ).len(),
{
    match entries.entries.next() {
        Some(Ok(entry)) => Some(Ok(TarEntry { entry })),
        Some(Err(e)) => Some(Err(e.to_string())),
        None => None,
    }
}

/// `tar::Entry::path`: the entry's path as text (`to_string_lossy`), or `None`
/// when the archive gives no path for it.
#[verifier::external_body]
pub(crate) fn entry_path(entry: &TarEntry) -> (r: Option<String>)
    ensures
        entry_state(*entry).1 < tar_items(entry_state(*entry).0).len() ==> (
        tar_items(entry_state(*entry).0)[entry_state(*entry).1 as int] matches Ok(t) ==> opt_string_view(r) == t.0),
{
    match entry.entry.path() {
        Ok(p) => Some(p.to_string_lossy().into_owned()),
        Err(_) => None,
    }
}

/// Whether the entry is a directory: `tar::EntryType::is_dir` of the type
/// (`tar::Header::entry_type`) of its header (`tar::Entry::header`).
#[verifier::external_body]
pub(crate) fn entry_is_dir(entry: &TarEntry) -> (r: bool)
    ensures
        entry_state(*entry).1 < tar_items(entry_state(*entry).0).len() ==> (
        tar_items(entry_state(*entry).0)[entry_state(*entry).1 as int] matches Ok(t) ==> r == t.1),
{
    entry.entry.header().entry_type().is_dir()
}

/// `std::io::Read::read_to_end` on the entry that `entries` gave last: its
/// contents, or the error met in reading them, shown by its `Display`.
/// Reading it moves the reader that `entries` reads from: after a read that
/// succeeds the next item is as `tar_items` says; after one that fails,
/// nothing is said of what follows.
#[verifier::external_body]
pub(crate) fn read_entry(entries: &mut TarEntries, entry: &mut TarEntry) -> (r: Result<Vec<u8>, String>)
    requires
        entry_state(*old(entry)).2,
        entry_state(*old(entry)).0 == entries_state(*old(entries)).0,
        entry_state(*old(entry)).1 + 1 == entries_state(*old(entries)).1,
        !entries_state(*old(entries)).2,
    ensures
        entry_state(*old(entry)).1 < tar_items(entry_state(*old(entry)).0).len() ==> (
        tar_items(entry_state(*old(entry)).0)[entry_state(*old(entry)).1 as int] matches Ok(t) ==> match t.2 {
            Ok(d) => r matches Ok(c) && c@ == d,
            Err(m) => r matches Err(s) && s@ == m,
        }),
        entry_state(*final(entry)).0 == entry_state(*old(entry)).0,
        entry_state(*final(entry)).1 == entry_state(*old(entry)).1,
        r is Ok ==> entries_state(*final(entries)) == entries_state(*old(entries)),
        r is Err ==> entries_state(*final(entries)).2,
{
    let _ = &entries;
    let mut contents = Vec::new();
    match std::io::Read::read_to_end(&mut entry.entry, &mut contents) {
        Ok(_) => Ok(contents),
        Err(e) => Err(e.to_string()),
    }
}

/// What `std::path::Path::strip_prefix` gives back, as text: the rest of
/// `path` after the components of `base`, or `None` when `path` does not
/// begin with them.
pub uninterp spec fn path_without_prefix(path: Seq<char>, base: Seq<char>) -> Option<Seq<char>>;

/// `std::path::Path::strip_prefix`, the rest shown by `to_string_lossy`; its
/// result is a function of its arguments alone, named `path_without_prefix`.
#[verifier::external_body]
pub(crate) fn strip_path_prefix(path: &str, base: &str) -> (r: Option<String>)
    ensures
        opt_string_view(r) == path_without_prefix(path@, base@),
{
    match std::path::Path::new(path).strip_prefix(base) {
        Ok(rest) => Some(rest.to_string_lossy().into_owned()),
        Err(_) => None,
    }
}

/// The contents of an optional string.
pub open spec fn opt_string_view(o: Option<String>) -> Option<Seq<char>> {
    match o {
        Some(s) => Some(s@),
        None => None,
    }
}

#[verifier::external_type_specification]
#[verifier::external_body]
pub struct ExComponents<'a>(std::path::Components<'a>);

/// The components of a path (`std::path::Path::components`), each as the
/// text of `Component::as_os_str`.
pub uninterp spec fn path_components(path: Seq<char>) -> Seq<Seq<char>>;

/// The components that an iterator over a path's components has yet to give.
pub uninterp spec fn components_left(it: std::path::Components) -> Seq<Seq<char>>;

/// `std::path::Path::components`: an iterator that gives every component of
/// `path`, in order.
#[verifier::external_body]
pub(crate) fn components_iter<'a>(path: &'a str) -> (r: std::path::Components<'a>)
    ensures
        components_left(r) == path_components(path@),
{
    std::path::Path::new(path).components()
}

/// `Iterator::next` on `std::path::Components`: the next component, shown by
/// `to_string_lossy` of its `as_os_str`, or `None` when none is left.
#[verifier::external_body]
pub(crate) fn next_component(it: &mut std::path::Components) -> (r: Option<String>)
    ensures
        components_left(*old(it)).len() == 0 ==> r is None && components_left(*final(it)) == components_left(*old(it)),
        components_left(*old(it)).len() > 0 ==> r is Some && r.unwrap()@ == components_left(*old(it))[0]
            && components_left(*final(it)) == components_left(*old(it)).drop_first(),
{
    match it.next() {
        Some(c) => Some(c.as_os_str().to_string_lossy().into_owned()),
        None => None,
    }
}

/// The sign of `std::path::Path::cmp` on two paths: -1, 0 or 1.
pub uninterp spec fn path_order(a: Seq<char>, b: Seq<char>) -> i8;

/// `Ord::cmp` on `std::path::Path`, as -1, 0 or 1. The result is a function of
/// the two paths alone, named `path_order`; `Ord` asks of it that a path
/// equals itself and that swapping the paths flips the sign. Paths are
/// compared component by component, so on Unix targets, which this library
/// is built for (no drive prefixes, and the texts `/`, `.` and `..` of the
/// root, current and parent components are never the text of a normal
/// component), two paths compare equal exactly when their components, as
/// text, are the same.
#[verifier::external_body]
pub(crate) fn compare_paths(a: &str, b: &str) -> (r: i8)
    ensures
        r == path_order(a@, b@),
        -1 <= r <= 1,
        path_order(b@, a@) == -r,
        a@ == b@ ==> r == 0,
        (r == 0) == (path_components(a@) == path_components(b@)),
{
    match std::path::Path::new(a).cmp(std::path::Path::new(b)) {
        std::cmp::Ordering::Less => -1,
        std::cmp::Ordering::Equal => 0,
        std::cmp::Ordering::Greater => 1,
    }
}

/// Whether `semver::Version::parse` accepts the text.
pub uninterp spec fn is_semver(text: Seq<char>) -> bool;

/// `semver::Version::parse`, whether it accepts `text`; a function of the
/// text alone, named `is_semver`.
#[verifier::external_body]
pub(crate) fn parses_as_semver(text: &str) -> (r: bool)
    ensures
        r == is_semver(text@),
{
    semver::Version::parse(text).is_ok()
}

/// The sign of `Ord::cmp` on two parsed semantic versions: -1, 0 or 1.
pub uninterp spec fn semver_order(a: Seq<char>, b: Seq<char>) -> i8;

/// `Ord::cmp` on `semver::Version`, the versions that `a` and `b` parse to
/// (both parse, as `requires` says), as -1, 0 or 1. The result is a function
/// of the two texts alone, named `semver_order`; `Ord` asks of it that a
/// version equals itself and that swapping the versions flips the sign.
#[verifier::external_body]
pub(crate) fn compare_semver(a: &str, b: &str) -> (r: i8)
    requires
        is_semver(a@),
        is_semver(b@),
    ensures
        r == semver_order(a@, b@),
        -1 <= r <= 1,
        semver_order(b@, a@) == -r,
        a@ == b@ ==> r == 0,
{
    match semver::Version::parse(a).unwrap().cmp(&semver::Version::parse(b).unwrap()) {
        std::cmp::Ordering::Less => -1,
        std::cmp::Ordering::Equal => 0,
        std::cmp::Ordering::Greater => 1,
    }
}

} // verus!
