//! The files of a package tarball, and the diff of two of them: which entries
//! of a tarball are kept and under which path, and in which order the paths
//! of both versions are compared.

use vstd::prelude::*;
use vstd::string::StringExecFns;
use crate::routes::diff::{binary, diff_files, file_diff, CONTEXT_LINES};
use vstd::utf8::decode_utf8;
use crate::routes::str_eq;
use crate::text::{str_chars, strings_view};
use crate::trusted::{
    archive_entries, compare_paths, components_iter, components_left, entries_state, entry_is_dir,
    entry_path, gz_decoder, next_component, next_entry, path_components, path_order,
    path_without_prefix, read_entry, string_from_chars, tar_items, unified_line_diff, TarItem,
    strip_path_prefix, tar_archive,
};

verus! {

broadcast use vstd::string::group_string_axioms;

/// One file of a package: its path in the package and its contents.
#[derive(Debug)]
pub struct ArchiveFile {
    pub path: String,
    pub contents: Vec<u8>,
}

/// The files of a package, at most one for each path (paths with the same
/// components are the same path).
#[derive(Debug)]
pub struct ArchiveFiles {
    pub files: Vec<ArchiveFile>,
}

/// A list of files as paths and contents.
pub open spec fn files_view(files: Seq<ArchiveFile>) -> Seq<(Seq<char>, Seq<u8>)> {
    files.map_values(|f: ArchiveFile| (f.path@, f.contents@))
}

/// Two texts name the same path: they have the same components.
pub open spec fn same_path(a: Seq<char>, b: Seq<char>) -> bool {
    path_components(a) == path_components(b)
}

/// The position, from `i` on, of the first file whose path is `path`, or -1.
pub open spec fn position_from(entries: Seq<(Seq<char>, Seq<u8>)>, path: Seq<char>, i: int) -> int
    decreases entries.len() - i,
{
    if i < 0 || i >= entries.len() {
        -1
    } else if same_path(entries[i].0, path) {
        i
    } else {
        position_from(entries, path, i + 1)
    }
}

/// The position of the file whose path is `path`, or -1.
pub open spec fn position(entries: Seq<(Seq<char>, Seq<u8>)>, path: Seq<char>) -> int {
    position_from(entries, path, 0)
}

pub proof fn lemma_position_from(entries: Seq<(Seq<char>, Seq<u8>)>, path: Seq<char>, i: int)
    requires
        0 <= i <= entries.len(),
    ensures
        -1 <= position_from(entries, path, i) < entries.len(),
        position_from(entries, path, i) >= 0 ==> position_from(entries, path, i) >= i
            && same_path(entries[position_from(entries, path, i)].0, path),
        position_from(entries, path, i) == -1 ==> forall|j: int|
            i <= j < entries.len() ==> !same_path(entries[j].0, path),
    decreases entries.len() - i,
{
    if i < entries.len() && !same_path(entries[i].0, path) {
        lemma_position_from(entries, path, i + 1);
    }
}

/// The contents filed under `path`, if any.
pub open spec fn lookup(entries: Seq<(Seq<char>, Seq<u8>)>, path: Seq<char>) -> Option<Seq<u8>> {
    let i = position(entries, path);
    if 0 <= i < entries.len() {
        Some(entries[i].1)
    } else {
        None
    }
}

/// The files once `contents` is filed under `path`: the contents of a file
/// with that path are replaced (its path text is kept), or a new file is
/// added at the end.
pub open spec fn after_insert(entries: Seq<(Seq<char>, Seq<u8>)>, path: Seq<char>, contents: Seq<u8>) -> Seq<(Seq<char>, Seq<u8>)> {
    let i = position(entries, path);
    if 0 <= i < entries.len() {
        entries.update(i, (entries[i].0, contents))
    } else {
        entries.push((path, contents))
    }
}

/// No two files have the same path.
pub open spec fn distinct_paths(entries: Seq<(Seq<char>, Seq<u8>)>) -> bool {
    forall|i: int, j: int| 0 <= i < j < entries.len() ==> !same_path(entries[i].0, entries[j].0)
}

impl ArchiveFiles {
    /// The files as paths and contents.
    pub open spec fn entries(&self) -> Seq<(Seq<char>, Seq<u8>)> {
        files_view(self.files@)
    }

    /// No files.
    pub fn new() -> (r: ArchiveFiles)
        ensures
            r.entries() == Seq::<(Seq<char>, Seq<u8>)>::empty(),
    {
        let r = ArchiveFiles { files: Vec::new() };
        assert(r.entries() =~= Seq::<(Seq<char>, Seq<u8>)>::empty());
        r
    }

    /// The position of the file with `path`.
    pub fn position_of(&self, path: &str) -> (r: Option<usize>)
        ensures
            match r {
                Some(i) => position(self.entries(), path@) == i && i < self.files@.len(),
                None => position(self.entries(), path@) == -1,
            },
    {
        let ghost e = self.entries();
        let mut i: usize = 0;
        while i < self.files.len()
            invariant
                i <= self.files@.len(),
                e == self.entries(),
                e.len() == self.files@.len(),
                position(e, path@) == position_from(e, path@, i as int),
            decreases self.files@.len() - i,
        {
            assert(e[i as int].0 == self.files@[i as int].path@);
            if compare_paths(self.files[i].path.as_str(), path) == 0 {
                return Some(i);
            }
            i = i + 1;
        }
        None
    }

    /// The contents filed under `path`, if any.
    pub fn get(&self, path: &str) -> (r: Option<&[u8]>)
        ensures
            match r {
                Some(b) => lookup(self.entries(), path@) == Some(b@),
                None => lookup(self.entries(), path@) is None,
            },
    {
        match self.position_of(path) {
            Some(i) => Some(self.files[i].contents.as_slice()),
            None => {
                proof {
                    lemma_position_from(self.entries(), path@, 0);
                }
                None
            },
        }
    }

    /// Files `contents` under `path`, replacing the contents of a file with
    /// that path.
    pub fn insert(&mut self, path: String, contents: Vec<u8>)
        ensures
            final(self).entries() == after_insert(old(self).entries(), path@, contents@),
    {
        proof {
            lemma_position_from(self.entries(), path@, 0);
        }
        match self.position_of(path.as_str()) {
            Some(i) => {
                let ghost before = self.entries();
                let kept = self.files[i].path.clone();
                self.files.set(i, ArchiveFile { path: kept, contents });
                assert(self.entries() =~= before.update(i as int, (before[i as int].0, contents@)));
            },
            None => {
                let ghost before = self.entries();
                self.files.push(ArchiveFile { path, contents });
                assert(self.entries() =~= before.push((path@, contents@)));
            },
        }
    }
}

pub proof fn lemma_insert_keeps_distinct(entries: Seq<(Seq<char>, Seq<u8>)>, path: Seq<char>, contents: Seq<u8>)
    requires
        distinct_paths(entries),
    ensures
        distinct_paths(after_insert(entries, path, contents)),
        forall|k: int| 0 <= k < after_insert(entries, path, contents).len() ==> (#[trigger] after_insert(entries, path, contents)[k]).0 == if k < entries.len() {
            entries[k].0
        } else {
            path
        },
{
    lemma_position_from(entries, path, 0);
    let r = after_insert(entries, path, contents);
    assert forall|i: int, j: int| 0 <= i < j < r.len() implies !same_path(r[i].0, r[j].0) by {
        if j == entries.len() {
            assert(!same_path(entries[i].0, path));
        }
    }
}

/// Whether a component of the path is named `node_modules`.
pub open spec fn in_node_modules(components: Seq<Seq<char>>) -> bool {
    exists|i: int| 0 <= i < components.len() && components[i] == "node_modules"@
}

/// The path a tarball entry at `path` is filed under: `path` without its
/// leading `package` directory, if it has one; `None` when the entry lies in
/// `node_modules` and that code is left out.
pub open spec fn entry_key(path: Seq<char>, include_node_modules: bool) -> Option<Seq<char>> {
    let rel = match path_without_prefix(path, "package"@) {
        Some(r) => r,
        None => path,
    };
    if !include_node_modules && in_node_modules(path_components(rel)) {
        None
    } else {
        Some(rel)
    }
}

/// The path a tarball entry at `path` is filed under, or `None` when it is
/// left out.
pub fn archive_key(path: &str, include_node_modules: bool) -> (r: Option<String>)
    ensures
        match entry_key(path@, include_node_modules) {
            Some(k) => r matches Some(s) && s@ == k,
            None => r is None,
        },
{
    let stripped = strip_path_prefix(path, "package");
    let rel = match stripped {
        Some(r) => r,
        None => path.to_owned(),
    };
    let ghost relv = match path_without_prefix(path@, "package"@) {
        Some(r) => r,
        None => path@,
    };
    assert(rel@ == relv);
    if include_node_modules {
        return Some(rel);
    }
    let ghost all = path_components(rel@);
    let mut it = components_iter(rel.as_str());
    let ghost mut seen: int = 0;
    loop
        invariant
            all == path_components(rel@),
            rel@ == relv,
            !include_node_modules,
            relv == match path_without_prefix(path@, "package"@) {
                Some(r) => r,
                None => path@,
            },
            0 <= seen <= all.len(),
            components_left(it) == all.skip(seen),
            forall|j: int| 0 <= j < seen ==> all[j] != "node_modules"@,
        decreases all.len() - seen,
    {
        let ghost before = it;
        match next_component(&mut it) {
            Some(c) => {
                assert(all.skip(seen)[0] == all[seen]);
                assert(all.skip(seen).drop_first() =~= all.skip(seen + 1));
                if str_eq(c.as_str(), "node_modules") {
                    assert(c@ == all[seen]);
                    assert(in_node_modules(all));
                    return None;
                }
                proof {
                    seen = seen + 1;
                }
            },
            None => {
                assert(seen == all.len());
                assert(!in_node_modules(all));
                return Some(rel);
            },
        }
    }
}

/// `prefix` followed by `detail`.
fn message(prefix: &str, detail: &str) -> (r: String)
    ensures
        r@ == prefix@ + detail@,
{
    let mut m = String::new();
    m.append(prefix);
    m.append(detail);
    assert(m@ =~= prefix@ + detail@);
    m
}

/// A path that may be filed: with `node_modules` code left out, it has no
/// `node_modules` component.
pub open spec fn may_be_filed(path: Seq<char>, include_node_modules: bool) -> bool {
    include_node_modules || !in_node_modules(path_components(path))
}

/// The path a tarball entry is filed under: none for an entry without a path
/// or a directory; else as `entry_key` says.
pub open spec fn entry_destination(path: Option<Seq<char>>, is_dir: bool, include_node_modules: bool) -> Option<Seq<char>> {
    match path {
        None => None,
        Some(p) => if is_dir {
            None
        } else {
            entry_key(p, include_node_modules)
        },
    }
}

/// The path a tarball entry is filed under, from what the archive tells of
/// it: `None` when it is skipped.
pub fn archive_destination(path: Option<String>, is_dir: bool, include_node_modules: bool) -> (r: Option<String>)
    ensures
        opt_path(r) == entry_destination(opt_path(path), is_dir, include_node_modules),
{
    match path {
        None => None,
        Some(p) => {
            if is_dir {
                None
            } else {
                archive_key(p.as_str(), include_node_modules)
            }
        },
    }
}

/// The contents of an optional string.
pub open spec fn opt_path(o: Option<String>) -> Option<Seq<char>> {
    match o {
        Some(s) => Some(s@),
        None => None,
    }
}

/// What extracting gives once the items of the archive before `k` are read
/// and `files` are filed: each entry that is not skipped (see
/// `entry_destination`) is read and filed under its path, a later entry
/// replacing the contents of an earlier one with the same path; the first
/// item that is an error, or the first read of a file that fails, stops it.
pub open spec fn extraction(
    items: Seq<TarItem>,
    k: int,
    files: Seq<(Seq<char>, Seq<u8>)>,
    include_node_modules: bool,
) -> Result<Seq<(Seq<char>, Seq<u8>)>, Seq<char>>
    decreases items.len() - k,
{
    if k < 0 || k >= items.len() {
        Ok(files)
    } else {
        match items[k] {
            Err(m) => Err("Corrupt archive entry: "@ + m),
            Ok(t) => match entry_destination(t.0, t.1, include_node_modules) {
                None => extraction(items, k + 1, files, include_node_modules),
                Some(key) => match t.2 {
                    Err(m) => Err("Failed to read file in archive: "@ + m),
                    Ok(d) => extraction(items, k + 1, after_insert(files, key, d), include_node_modules),
                },
            },
        }
    }
}

/// A file that does not lie in `node_modules`.
pub open spec fn outside_modules(e: (Seq<char>, Seq<u8>)) -> bool {
    !in_node_modules(path_components(e.0))
}

/// The files that do not lie in `node_modules`, in order.
pub open spec fn without_modules(files: Seq<(Seq<char>, Seq<u8>)>) -> Seq<(Seq<char>, Seq<u8>)>
    decreases files.len(),
{
    if files.len() == 0 {
        seq![]
    } else if outside_modules(files[0]) {
        seq![files[0]] + without_modules(files.drop_first())
    } else {
        without_modules(files.drop_first())
    }
}

proof fn lemma_position_from_shift(f: Seq<(Seq<char>, Seq<u8>)>, p: Seq<char>, i: int)
    requires
        1 <= i <= f.len(),
    ensures
        position_from(f, p, i) == if position_from(f.drop_first(), p, i - 1) >= 0 {
            position_from(f.drop_first(), p, i - 1) + 1
        } else {
            -1
        },
    decreases f.len() - i,
{
    if i < f.len() {
        assert(f.drop_first()[i - 1] == f[i]);
        if !same_path(f[i].0, p) {
            lemma_position_from_shift(f, p, i + 1);
        }
    }
}

proof fn lemma_after_insert_unfold(f: Seq<(Seq<char>, Seq<u8>)>, p: Seq<char>, d: Seq<u8>)
    requires
        f.len() > 0,
    ensures
        after_insert(f, p, d) == if same_path(f[0].0, p) {
            seq![(f[0].0, d)] + f.drop_first()
        } else {
            seq![f[0]] + after_insert(f.drop_first(), p, d)
        },
{
    let rest = f.drop_first();
    if same_path(f[0].0, p) {
        assert(f.update(0, (f[0].0, d)) =~= seq![(f[0].0, d)] + rest);
    } else {
        lemma_position_from_shift(f, p, 1);
        lemma_position_from(rest, p, 0);
        let j = position(rest, p);
        if 0 <= j < rest.len() {
            assert(f.update(j + 1, (f[j + 1].0, d)) =~= seq![f[0]] + rest.update(j, (rest[j].0, d)));
        } else {
            assert(f.push((p, d)) =~= seq![f[0]] + rest.push((p, d)));
        }
    }
}

proof fn lemma_without_modules_insert(f: Seq<(Seq<char>, Seq<u8>)>, p: Seq<char>, d: Seq<u8>)
    ensures
        in_node_modules(path_components(p)) ==> without_modules(after_insert(f, p, d)) == without_modules(f),
        !in_node_modules(path_components(p)) ==> without_modules(after_insert(f, p, d)) == after_insert(without_modules(f), p, d),
    decreases f.len(),
{
    let empty = Seq::<(Seq<char>, Seq<u8>)>::empty();
    if f.len() == 0 {
        let one = seq![(p, d)];
        assert(f =~= empty);
        assert(after_insert(f, p, d) =~= one);
        assert(one.drop_first() =~= empty);
        assert(without_modules(empty) == empty);
        assert(without_modules(one) == if outside_modules(one[0]) {
            seq![one[0]] + without_modules(one.drop_first())
        } else {
            without_modules(one.drop_first())
        });
        assert(seq![(p, d)] + empty =~= one);
    } else {
        let f0 = f[0];
        let rest = f.drop_first();
        assert(without_modules(f) == if outside_modules(f0) {
            seq![f0] + without_modules(rest)
        } else {
            without_modules(rest)
        });
        lemma_after_insert_unfold(f, p, d);
        lemma_without_modules_insert(rest, p, d);
        if same_path(f0.0, p) {
            let a = seq![(f0.0, d)] + rest;
            assert(a[0] == (f0.0, d));
            assert(a.drop_first() =~= rest);
            assert(without_modules(a) == if outside_modules(a[0]) {
                seq![a[0]] + without_modules(a.drop_first())
            } else {
                without_modules(a.drop_first())
            });
            if outside_modules(f0) {
                let w = seq![f0] + without_modules(rest);
                assert(w[0] == f0);
                assert(w.drop_first() =~= without_modules(rest));
                lemma_after_insert_unfold(w, p, d);
            }
        } else {
            let ar = after_insert(rest, p, d);
            let a = seq![f0] + ar;
            assert(a[0] == f0);
            assert(a.drop_first() =~= ar);
            assert(without_modules(a) == if outside_modules(a[0]) {
                seq![a[0]] + without_modules(a.drop_first())
            } else {
                without_modules(a.drop_first())
            });
            if outside_modules(f0) && !in_node_modules(path_components(p)) {
                let w = seq![f0] + without_modules(rest);
                assert(w[0] == f0);
                assert(w.drop_first() =~= without_modules(rest));
                lemma_after_insert_unfold(w, p, d);
            }
        }
    }
}

proof fn lemma_extraction_without_modules(
    items: Seq<TarItem>,
    k: int,
    with: Seq<(Seq<char>, Seq<u8>)>,
)
    requires
        0 <= k,
        extraction(items, k, with, true) is Ok,
    ensures
        extraction(items, k, without_modules(with), false) == Ok::<Seq<(Seq<char>, Seq<u8>)>, Seq<char>>(
            without_modules(extraction(items, k, with, true)->Ok_0),
        ),
    decreases items.len() - k,
{
    if k < items.len() {
        let t = items[k]->Ok_0;
        match t.0 {
            None => {
                lemma_extraction_without_modules(items, k + 1, with);
            },
            Some(path) => {
                if t.1 {
                    lemma_extraction_without_modules(items, k + 1, with);
                } else {
                    let rel = match path_without_prefix(path, "package"@) {
                        Some(r) => r,
                        None => path,
                    };
                    let d = t.2->Ok_0;
                    lemma_without_modules_insert(with, rel, d);
                    lemma_extraction_without_modules(items, k + 1, after_insert(with, rel, d));
                }
            },
        }
    }
}

/// Leaving `node_modules` out of an extraction that succeeds with it gives
/// the same files, in the same order, without those in `node_modules`.
pub proof fn law_leaving_out_node_modules(bytes: Seq<u8>)
    ensures
        extraction(tar_items(bytes), 0, seq![], true) matches Ok(all) ==> extraction(
            tar_items(bytes),
            0,
            seq![],
            false,
        ) == Ok::<Seq<(Seq<char>, Seq<u8>)>, Seq<char>>(without_modules(all)),
{
    if extraction(tar_items(bytes), 0, seq![], true) is Ok {
        assert(without_modules(Seq::<(Seq<char>, Seq<u8>)>::empty()) =~= Seq::<(Seq<char>, Seq<u8>)>::empty());
        lemma_extraction_without_modules(tar_items(bytes), 0, seq![]);
    }
}

/// The files, or the error message, that extracting gives.
pub open spec fn extracted(r: Result<ArchiveFiles, String>) -> Result<Seq<(Seq<char>, Seq<u8>)>, Seq<char>> {
    match r {
        Ok(files) => Ok(files.entries()),
        Err(m) => Err(m@),
    }
}

/// The files of a gzip-compressed package tarball, each under its path in the
/// package (see `entry_key`); directories and entries without a path are
/// skipped, and with `node_modules` code left out so are the files in it.
/// An entry that cannot be read stops the extraction with an error.
pub fn extract_tarball(bytes: &[u8], include_node_modules: bool) -> (r: Result<ArchiveFiles, String>)
    ensures
        extracted(r) == extraction(tar_items(bytes@), 0, seq![], include_node_modules),
        r matches Ok(files) ==> {
            &&& distinct_paths(files.entries())
            &&& forall|i: int| 0 <= i < files.entries().len() ==> may_be_filed(#[trigger] files.entries()[i].0, include_node_modules)
        },
{
    let ghost items = tar_items(bytes@);
    let gz = gz_decoder(bytes);
    let mut archive = tar_archive(gz);
    let mut files = ArchiveFiles::new();
    let mut entries = match archive_entries(&mut archive) {
        Ok(e) => e,
        Err(e) => {
            return Err(message("Failed to read archive entries: ", e.as_str()));
        },
    };
    loop
        invariant
            entries_state(entries).0 == bytes@,
            !entries_state(entries).2,
            items == tar_items(bytes@),
            entries_state(entries).1 <= items.len(),
            extraction(items, 0, seq![], include_node_modules) == extraction(
                items,
                entries_state(entries).1 as int,
                files.entries(),
                include_node_modules,
            ),
            distinct_paths(files.entries()),
            forall|i: int|
                0 <= i < files.entries().len() ==> may_be_filed(
                    #[trigger] files.entries()[i].0,
                    include_node_modules,
                ),
        ensures
            extraction(items, 0, seq![], include_node_modules) == Ok::<Seq<(Seq<char>, Seq<u8>)>, Seq<char>>(files.entries()),
            distinct_paths(files.entries()),
            forall|i: int|
                0 <= i < files.entries().len() ==> may_be_filed(
                    #[trigger] files.entries()[i].0,
                    include_node_modules,
                ),
        decreases items.len() - entries_state(entries).1,
    {
        let ghost k = entries_state(entries).1 as int;
        let mut entry = match next_entry(&mut entries) {
            None => {
                break ;
            },
            Some(Err(e)) => {
                let m = message("Corrupt archive entry: ", e.as_str());
                return Err(m);
            },
            Some(Ok(x)) => x,
        };
        let ghost t = items[k]->Ok_0;
        let path = entry_path(&entry);
        let is_dir = match &path {
            Some(_) => entry_is_dir(&entry),
            None => false,
        };
        let key = match archive_destination(path, is_dir, include_node_modules) {
            Some(k) => k,
            None => {
                continue ;
            },
        };
        let contents = match read_entry(&mut entries, &mut entry) {
            Ok(c) => c,
            Err(e) => {
                return Err(message("Failed to read file in archive: ", e.as_str()));
            },
        };
        let ghost before = files.entries();
        proof {
            lemma_insert_keeps_distinct(before, key@, contents@);
        }
        files.insert(key, contents);
        proof {
            assert forall|i: int|
                0 <= i < files.entries().len() implies may_be_filed(
                #[trigger] files.entries()[i].0,
                include_node_modules,
            ) by {
                if i < before.len() {
                    assert(may_be_filed(before[i].0, include_node_modules));
                }
            }
        }
    }
    Ok(files)
}

/// The paths of a list of files.
pub open spec fn paths_of(entries: Seq<(Seq<char>, Seq<u8>)>) -> Seq<Seq<char>> {
    entries.map_values(|e: (Seq<char>, Seq<u8>)| e.0)
}

/// The position, from `i` on, of a path equal to `p` in `list`, or -1.
pub open spec fn index_from(list: Seq<Seq<char>>, p: Seq<char>, i: int) -> int
    decreases list.len() - i,
{
    if i < 0 || i >= list.len() {
        -1
    } else if path_order(list[i], p) == 0 {
        i
    } else {
        index_from(list, p, i + 1)
    }
}

/// `p` put in `list` before the first path that comes after it.
pub open spec fn insert_ordered(list: Seq<Seq<char>>, p: Seq<char>) -> Seq<Seq<char>>
    decreases list.len(),
{
    if list.len() == 0 {
        seq![p]
    } else if path_order(p, list[0]) < 0 {
        seq![p] + list
    } else {
        seq![list[0]] + insert_ordered(list.drop_first(), p)
    }
}

/// `list` with `p` put in its place, unless an equal path is there already.
pub open spec fn add_path(list: Seq<Seq<char>>, p: Seq<char>) -> Seq<Seq<char>> {
    if index_from(list, p, 0) >= 0 {
        list
    } else {
        insert_ordered(list, p)
    }
}

/// `list` with each of `ps` added, in order.
pub open spec fn add_paths(list: Seq<Seq<char>>, ps: Seq<Seq<char>>) -> Seq<Seq<char>>
    decreases ps.len(),
{
    if ps.len() == 0 {
        list
    } else {
        add_path(add_paths(list, ps.drop_last()), ps.last())
    }
}

/// Every path of either version once, in path order; a path both versions
/// have is written as the old version writes it.
pub open spec fn union_of(old: Seq<(Seq<char>, Seq<u8>)>, new: Seq<(Seq<char>, Seq<u8>)>) -> Seq<Seq<char>> {
    add_paths(add_paths(seq![], paths_of(old)), paths_of(new))
}

/// `list` holds `p`, or a path equal to it.
pub open spec fn covers(list: Seq<Seq<char>>, p: Seq<char>) -> bool {
    list.contains(p) || exists|k: int| 0 <= k < list.len() && path_order(list[k], p) == 0
}

proof fn lemma_insert_ordered_holds(list: Seq<Seq<char>>, p: Seq<char>)
    ensures
        insert_ordered(list, p).contains(p),
        forall|k: int| 0 <= k < list.len() ==> insert_ordered(list, p).contains(#[trigger] list[k]),
    decreases list.len(),
{
    let r = insert_ordered(list, p);
    if list.len() == 0 {
        assert(r[0] == p);
    } else if path_order(p, list[0]) < 0 {
        assert(r[0] == p);
        assert forall|k: int| 0 <= k < list.len() implies r.contains(#[trigger] list[k]) by {
            assert(r[k + 1] == list[k]);
        }
    } else {
        let rest = list.drop_first();
        lemma_insert_ordered_holds(rest, p);
        let w = choose|w: int| 0 <= w < insert_ordered(rest, p).len() && insert_ordered(rest, p)[w] == p;
        assert(r[w + 1] == p);
        assert forall|k: int| 0 <= k < list.len() implies r.contains(#[trigger] list[k]) by {
            if k == 0 {
                assert(r[0] == list[0]);
            } else {
                assert(rest[k - 1] == list[k]);
                let v = choose|v: int| 0 <= v < insert_ordered(rest, p).len() && insert_ordered(rest, p)[v] == rest[k - 1];
                assert(r[v + 1] == list[k]);
            }
        }
    }
}

proof fn lemma_add_path_covers(list: Seq<Seq<char>>, p: Seq<char>, q: Seq<char>)
    requires
        covers(list, q),
    ensures
        covers(add_path(list, p), q),
        covers(add_path(list, p), p),
{
    let r = add_path(list, p);
    if index_from(list, p, 0) >= 0 {
        lemma_index_from_found(list, p, 0);
    } else {
        lemma_insert_ordered_holds(list, p);
        if list.contains(q) {
            let w = choose|w: int| 0 <= w < list.len() && list[w] == q;
            assert(r.contains(list[w]));
        } else {
            let k = choose|k: int| 0 <= k < list.len() && path_order(list[k], q) == 0;
            assert(r.contains(list[k]));
            let v = choose|v: int| 0 <= v < r.len() && r[v] == list[k];
            assert(path_order(r[v], q) == 0);
        }
    }
}

proof fn lemma_index_from_found(list: Seq<Seq<char>>, p: Seq<char>, i: int)
    requires
        0 <= i <= list.len(),
        index_from(list, p, i) >= 0,
    ensures
        0 <= index_from(list, p, i) < list.len(),
        path_order(list[index_from(list, p, i)], p) == 0,
    decreases list.len() - i,
{
    if i < list.len() && path_order(list[i], p) != 0 {
        lemma_index_from_found(list, p, i + 1);
    }
}

proof fn lemma_add_paths_covers(list: Seq<Seq<char>>, ps: Seq<Seq<char>>)
    ensures
        forall|q: Seq<char>| covers(list, q) ==> #[trigger] covers(add_paths(list, ps), q),
        forall|k: int| 0 <= k < ps.len() ==> covers(add_paths(list, ps), #[trigger] ps[k]),
    decreases ps.len(),
{
    if ps.len() > 0 {
        let init = ps.drop_last();
        lemma_add_paths_covers(list, init);
        let mid = add_paths(list, init);
        assert forall|q: Seq<char>| covers(list, q) implies #[trigger] covers(add_paths(list, ps), q) by {
            lemma_add_path_covers(mid, ps.last(), q);
        }
        assert forall|k: int| 0 <= k < ps.len() implies covers(add_paths(list, ps), #[trigger] ps[k]) by {
            if k < ps.len() - 1 {
                assert(init[k] == ps[k]);
                lemma_add_path_covers(mid, ps.last(), ps[k]);
            } else {
                if ps.len() > 1 {
                    assert(init[0] == ps[0]);
                    lemma_add_path_covers(mid, ps.last(), ps[0]);
                } else {
                    let r = add_path(mid, ps.last());
                    if index_from(mid, ps.last(), 0) >= 0 {
                        lemma_index_from_found(mid, ps.last(), 0);
                    } else {
                        lemma_insert_ordered_holds(mid, ps.last());
                    }
                }
            }
        }
    }
}

/// Every path of either version is compared: the list of paths holds each of
/// them, or a path equal to it.
pub proof fn law_union_covers_both(old: Seq<(Seq<char>, Seq<u8>)>, new: Seq<(Seq<char>, Seq<u8>)>)
    ensures
        forall|i: int| 0 <= i < old.len() ==> covers(union_of(old, new), #[trigger] old[i].0),
        forall|i: int| 0 <= i < new.len() ==> covers(union_of(old, new), #[trigger] new[i].0),
{
    let first = add_paths(seq![], paths_of(old));
    lemma_add_paths_covers(seq![], paths_of(old));
    lemma_add_paths_covers(first, paths_of(new));
    assert forall|i: int| 0 <= i < old.len() implies covers(union_of(old, new), #[trigger] old[i].0) by {
        assert(paths_of(old)[i] == old[i].0);
        assert(covers(first, paths_of(old)[i]));
    }
    assert forall|i: int| 0 <= i < new.len() implies covers(union_of(old, new), #[trigger] new[i].0) by {
        assert(paths_of(new)[i] == new[i].0);
    }
}

/// Each path comes before the next one, and no two are equal.
pub open spec fn in_path_order(list: Seq<Seq<char>>) -> bool {
    &&& forall|i: int| 0 <= i < list.len() - 1 ==> path_order(#[trigger] list[i], list[i + 1]) < 0
    &&& forall|i: int, j: int| 0 <= i < j < list.len() ==> path_order(list[i], list[j]) != 0
}

proof fn lemma_insert_ordered_at(list: Seq<Seq<char>>, p: Seq<char>, j: int)
    requires
        0 <= j <= list.len(),
        forall|k: int| 0 <= k < j ==> path_order(p, list[k]) >= 0,
        j < list.len() ==> path_order(p, list[j]) < 0,
    ensures
        insert_ordered(list, p) == list.take(j) + seq![p] + list.skip(j),
    decreases j,
{
    if j == 0 {
        if list.len() == 0 {
            assert(list.take(0) + seq![p] + list.skip(0) =~= seq![p]);
        } else {
            assert(list.take(0) + seq![p] + list.skip(0) =~= seq![p] + list);
        }
    } else {
        let rest = list.drop_first();
        assert forall|k: int| 0 <= k < j - 1 implies path_order(p, rest[k]) >= 0 by {
            assert(rest[k] == list[k + 1]);
        }
        if j - 1 < rest.len() {
            assert(rest[j - 1] == list[j]);
        }
        lemma_insert_ordered_at(rest, p, j - 1);
        assert(seq![list[0]] + (rest.take(j - 1) + seq![p] + rest.skip(j - 1)) =~= list.take(j)
            + seq![p] + list.skip(j));
    }
}

/// Puts `p` in its place in `list`, unless an equal path is there already.
fn add_path_to(list: &mut Vec<String>, p: &String)
    requires
        in_path_order(strings_view(old(list)@)),
    ensures
        strings_view(final(list)@) == add_path(strings_view(old(list)@), p@),
        in_path_order(strings_view(final(list)@)),
{
    let ghost l = strings_view(list@);
    let mut k: usize = 0;
    while k < list.len()
        invariant
            l == strings_view(list@),
            in_path_order(l),
            l.len() == list@.len(),
            k <= list@.len(),
            index_from(l, p@, 0) == index_from(l, p@, k as int),
            forall|m: int| 0 <= m < k ==> path_order(l[m], p@) != 0 && path_order(p@, l[m]) != 0,
        decreases list@.len() - k,
    {
        assert(l[k as int] == list@[k as int]@);
        if compare_paths(list[k].as_str(), p.as_str()) == 0 {
            return ;
        }
        k = k + 1;
    }
    let mut j: usize = 0;
    while j < list.len() && compare_paths(p.as_str(), list[j].as_str()) >= 0
        invariant
            l == strings_view(list@),
            l.len() == list@.len(),
            j <= list@.len(),
            index_from(l, p@, 0) == -1,
            forall|m: int| 0 <= m < l.len() ==> path_order(l[m], p@) != 0 && path_order(p@, l[m]) != 0,
            forall|m: int| 0 <= m < j ==> path_order(p@, l[m]) > 0 && path_order(l[m], p@) < 0,
        decreases list@.len() - j,
    {
        assert(l[j as int] == list@[j as int]@);
        j = j + 1;
    }
    proof {
        if j < list@.len() {
            assert(l[j as int] == list@[j as int]@);
        }
        lemma_insert_ordered_at(l, p@, j as int);
    }
    list.insert(j, p.clone());
    let ghost m = strings_view(list@);
    assert(m =~= l.take(j as int) + seq![p@] + l.skip(j as int));
    assert forall|i: int| 0 <= i < m.len() - 1 implies path_order(#[trigger] m[i], m[i + 1]) < 0 by {
        if i < j - 1 {
            assert(m[i] == l[i] && m[i + 1] == l[i + 1]);
        } else if i == j - 1 {
            assert(m[i] == l[i] && m[i + 1] == p@);
        } else if i == j {
            assert(m[i] == p@ && m[i + 1] == l[i]);
        } else {
            assert(m[i] == l[i - 1] && m[i + 1] == l[i]);
        }
    }
    assert forall|a: int, b: int| 0 <= a < b < m.len() implies path_order(m[a], m[b]) != 0 by {
        if b < j {
            assert(m[a] == l[a] && m[b] == l[b]);
        } else if b == j {
            assert(m[a] == l[a] && m[b] == p@);
        } else if a < j {
            assert(m[a] == l[a] && m[b] == l[b - 1]);
        } else if a == j {
            assert(m[a] == p@ && m[b] == l[b - 1]);
        } else {
            assert(m[a] == l[a - 1] && m[b] == l[b - 1]);
        }
    }
}

/// Adds the path of every file in `files`, in order.
fn add_paths_of(list: &mut Vec<String>, files: &ArchiveFiles)
    requires
        in_path_order(strings_view(old(list)@)),
    ensures
        strings_view(final(list)@) == add_paths(strings_view(old(list)@), paths_of(files.entries())),
        in_path_order(strings_view(final(list)@)),
{
    let ghost start = strings_view(list@);
    let ghost ps = paths_of(files.entries());
    let mut i: usize = 0;
    while i < files.files.len()
        invariant
            i <= files.files@.len(),
            ps == paths_of(files.entries()),
            ps.len() == files.files@.len(),
            strings_view(list@) == add_paths(start, ps.take(i as int)),
            in_path_order(strings_view(list@)),
        decreases files.files@.len() - i,
    {
        assert(ps.take(i + 1).drop_last() =~= ps.take(i as int));
        assert(ps.take(i + 1).last() == files.files@[i as int].path@);
        add_path_to(list, &files.files[i].path);
        i = i + 1;
    }
    assert(ps.take(files.files@.len() as int) =~= ps);
}

/// Every path of either version once, in path order.
pub fn union_paths(old: &ArchiveFiles, new: &ArchiveFiles) -> (r: Vec<String>)
    ensures
        strings_view(r@) == union_of(old.entries(), new.entries()),
        in_path_order(strings_view(r@)),
{
    let mut list: Vec<String> = Vec::new();
    assert(strings_view(list@) =~= Seq::<Seq<char>>::empty());
    add_paths_of(&mut list, old);
    add_paths_of(&mut list, new);
    list
}

/// A path with every `\` turned into `/`.
pub open spec fn slashed(p: Seq<char>) -> Seq<char> {
    p.map_values(|c: char| if c == '\\' { '/' } else { c })
}

/// A path with every `\` turned into `/`.
pub fn forward_slashes(p: &str) -> (r: String)
    ensures
        r@ == slashed(p@),
{
    let v = str_chars(p);
    let mut out: Vec<char> = Vec::new();
    let mut i: usize = 0;
    while i < v.len()
        invariant
            i <= v@.len(),
            out@ == slashed(v@.take(i as int)),
        decreases v@.len() - i,
    {
        let c = if v[i] == '\\' {
            '/'
        } else {
            v[i]
        };
        out.push(c);
        assert(slashed(v@.take(i + 1)) =~= slashed(v@.take(i as int)).push(c));
        i = i + 1;
    }
    assert(v@.take(v@.len() as int) =~= v@);
    string_from_chars(out)
}

/// The diff that one path contributes.
pub open spec fn path_diff(p: Seq<char>, old: Seq<(Seq<char>, Seq<u8>)>, new: Seq<(Seq<char>, Seq<u8>)>, include_node_modules: bool) -> Seq<char> {
    match file_diff(slashed(p), lookup(old, p), lookup(new, p), include_node_modules) {
        Some(d) => d,
        None => seq![],
    }
}

/// The diffs of the files at `paths`, one after the other.
pub open spec fn diffs_of(paths: Seq<Seq<char>>, old: Seq<(Seq<char>, Seq<u8>)>, new: Seq<(Seq<char>, Seq<u8>)>, include_node_modules: bool) -> Seq<char>
    decreases paths.len(),
{
    if paths.len() == 0 {
        seq![]
    } else {
        diffs_of(paths.drop_last(), old, new, include_node_modules) + path_diff(paths.last(), old, new, include_node_modules)
    }
}

proof fn lemma_diffs_of_same(paths: Seq<Seq<char>>, files: Seq<(Seq<char>, Seq<u8>)>, include_node_modules: bool)
    ensures
        diffs_of(paths, files, files, include_node_modules) == Seq::<char>::empty(),
    decreases paths.len(),
{
    if paths.len() > 0 {
        lemma_diffs_of_same(paths.drop_last(), files, include_node_modules);
        let p = paths.last();
        assert(path_diff(p, files, files, include_node_modules) == Seq::<char>::empty());
        assert(Seq::<char>::empty() + Seq::<char>::empty() =~= Seq::<char>::empty());
    }
}

/// A package diffed against itself shows no difference, whatever paths are
/// compared; so the answer is the note that there is none.
pub proof fn law_same_files_no_difference(files: Seq<(Seq<char>, Seq<u8>)>, include_node_modules: bool)
    ensures
        diffs_of(union_of(files, files), files, files, include_node_modules) == Seq::<char>::empty(),
{
    lemma_diffs_of_same(union_of(files, files), files, include_node_modules);
}

/// The package diff is the diffs of its paths one after the other, each the
/// diff of that file's two versions with the request's own
/// `include_node_modules`: adding a path adds its file diff at the end.
pub proof fn law_each_file_diffed_with_the_option(
    paths: Seq<Seq<char>>,
    p: Seq<char>,
    old: Seq<(Seq<char>, Seq<u8>)>,
    new: Seq<(Seq<char>, Seq<u8>)>,
    include_node_modules: bool,
)
    ensures
        diffs_of(paths.push(p), old, new, include_node_modules) == diffs_of(paths, old, new, include_node_modules)
            + match file_diff(slashed(p), lookup(old, p), lookup(new, p), include_node_modules) {
            Some(d) => d,
            None => Seq::<char>::empty(),
        },
{
    assert(paths.push(p).drop_last() =~= paths);
}

/// With `node_modules` code kept, a text file whose two versions differ is
/// diffed as it is: its diff is the unified diff of the two whole texts,
/// regions of `node_modules` code included.
pub proof fn law_kept_modules_are_diffed(
    p: Seq<char>,
    old: Seq<(Seq<char>, Seq<u8>)>,
    new: Seq<(Seq<char>, Seq<u8>)>,
    o: Seq<u8>,
    n: Seq<u8>,
)
    requires
        lookup(old, p) == Some(o),
        lookup(new, p) == Some(n),
        !binary(o),
        !binary(n),
        decode_utf8(o) != decode_utf8(n),
    ensures
        diffs_of(seq![p], old, new, true) == unified_line_diff(
            decode_utf8(o),
            decode_utf8(n),
            CONTEXT_LINES as nat,
            "a/"@ + slashed(p),
            "b/"@ + slashed(p),
        ),
{
    let e = Seq::<Seq<char>>::empty();
    law_each_file_diffed_with_the_option(e, p, old, new, true);
    assert(e.push(p) =~= seq![p]);
    assert(diffs_of(e, old, new, true) == Seq::<char>::empty());
    let d = unified_line_diff(decode_utf8(o), decode_utf8(n), CONTEXT_LINES as nat, "a/"@ + slashed(p), "b/"@ + slashed(p));
    assert(Seq::<char>::empty() + d =~= d);
}

/// The diff of two versions of a package: the diff of every path either
/// version has, in path order.
pub fn diff_archives(old: &ArchiveFiles, new: &ArchiveFiles, include_node_modules: bool) -> (r: String)
    ensures
        r@ == diffs_of(union_of(old.entries(), new.entries()), old.entries(), new.entries(), include_node_modules),
{
    let paths = union_paths(old, new);
    let ghost ps = strings_view(paths@);
    let mut out = String::new();
    let mut i: usize = 0;
    while i < paths.len()
        invariant
            i <= paths@.len(),
            ps == strings_view(paths@),
            ps.len() == paths@.len(),
            out@ == diffs_of(ps.take(i as int), old.entries(), new.entries(), include_node_modules),
        decreases paths@.len() - i,
    {
        assert(ps.take(i + 1).drop_last() =~= ps.take(i as int));
        assert(ps.take(i + 1).last() == paths@[i as int]@);
        let p = &paths[i];
        let shown = forward_slashes(p.as_str());
        let f1 = old.get(p.as_str());
        let f2 = new.get(p.as_str());
        match diff_files(shown.as_str(), f1, f2, include_node_modules) {
            Some(chunk) => {
                out.append(chunk.as_str());
            },
            None => {
                assert(out@ =~= out@ + Seq::<char>::empty());
            },
        }
        i = i + 1;
    }
    assert(ps.take(paths@.len() as int) =~= ps);
    out
}

} // verus!
