//! The release list of a package: every published version with its tarball,
//! its sum and its publication time, in version order, each release after the
//! first linked to its diff against the one before it.

use vstd::prelude::*;
use vstd::string::StringExecFns;
use crate::models::{NpmPackage, NpmVersion, Release};
use crate::routes::diff::{find_key, first_with_key};
use crate::routes::{registry_url, route_error, str_eq, RouteError, BAD_REQUEST, NOT_FOUND, REGISTRY_URL};
use crate::text::{compare_text, lemma_text_order_flip, lemma_text_order_trans, text_order};
use crate::trusted::{compare_semver, is_semver, parses_as_semver, semver_order};

verus! {

broadcast use {vstd::string::group_string_axioms, vstd::seq_lib::group_to_multiset_ensures};

/// Checks the package name of a release-list request and gives the address
/// of the package's document: a request that names no package is bad, and
/// `favicon.ico` names none the registry is asked for.
pub fn check_package_name(package_name: &str) -> (r: Result<String, RouteError>)
    ensures
        package_name@.len() == 0 ==> (r matches Err(e) && e.is(BAD_REQUEST, "Package name is empty"@)),
        package_name@ == "favicon.ico"@ ==> (r matches Err(e) && e.is(NOT_FOUND, "Not Found"@)),
        package_name@.len() != 0 && package_name@ != "favicon.ico"@ ==> (r matches Ok(u) && u@
            == REGISTRY_URL@ + package_name@),
{
    proof {
        reveal_strlit("favicon.ico");
    }
    if package_name.is_empty() {
        return Err(route_error(BAD_REQUEST, String::from_str("Package name is empty")));
    }
    if str_eq(package_name, "favicon.ico") {
        return Err(route_error(NOT_FOUND, String::from_str("Not Found")));
    }
    Ok(registry_url(package_name))
}

/// The order of releases by their version: two semantic versions by their
/// precedence, a semantic version before any other text, and two other texts
/// in the order of `str`; -1, 0 or 1.
pub open spec fn version_order(a: Seq<char>, b: Seq<char>) -> int {
    if is_semver(a) && is_semver(b) {
        semver_order(a, b) as int
    } else if is_semver(a) {
        -1
    } else if is_semver(b) {
        1
    } else {
        text_order(a, b)
    }
}

/// Two versions in release order: -1, 0 or 1.
pub fn compare_versions(a: &str, b: &str) -> (r: i8)
    ensures
        r == version_order(a@, b@),
        version_order(b@, a@) == -r,
{
    let sa = parses_as_semver(a);
    let sb = parses_as_semver(b);
    if sa && sb {
        compare_semver(a, b)
    } else if sa {
        -1
    } else if sb {
        1
    } else {
        proof {
            lemma_text_order_flip(a@, b@);
        }
        compare_text(a, b)
    }
}

/// The release of a published version, filed under `key`, before it is linked
/// to any diff.
pub open spec fn release_of(key: String, info: NpmVersion, time: Option<Vec<(String, String)>>) -> Release {
    Release {
        version: info.version,
        date_time: match time {
            Some(t) => first_with_key(t@, key@),
            None => None,
        },
        tarball: info.dist.tarball,
        shasum: info.dist.shasum,
        diff: None,
        diff_raw: None,
    }
}

/// The releases of a package's versions, in the order its document lists them.
pub open spec fn releases_of(package: NpmPackage) -> Seq<Release> {
    package.versions@.map_values(|e: (String, NpmVersion)| release_of(e.0, e.1, package.time))
}

/// The release of one published version.
fn make_release(key: &String, info: &NpmVersion, time: &Option<Vec<(String, String)>>) -> (r: Release)
    ensures
        r == release_of(*key, *info, *time),
{
    let date_time = match time {
        Some(t) => match find_key(t, key.as_str()) {
            Some(i) => Some(t[i].1.clone()),
            None => None,
        },
        None => None,
    };
    Release {
        version: info.version.clone(),
        date_time,
        tarball: info.dist.tarball.clone(),
        shasum: info.dist.shasum.clone(),
        diff: None,
        diff_raw: None,
    }
}

/// `list` with `x` put after the last release that does not come after it.
pub open spec fn place(list: Seq<Release>, x: Release) -> Seq<Release>
    decreases list.len(),
{
    if list.len() == 0 {
        seq![x]
    } else if version_order(x.version@, list.last().version@) < 0 {
        place(list.drop_last(), x).push(list.last())
    } else {
        list.push(x)
    }
}

/// The releases in version order; releases of equal versions keep their order.
pub open spec fn in_version_order(releases: Seq<Release>) -> Seq<Release>
    decreases releases.len(),
{
    if releases.len() == 0 {
        seq![]
    } else {
        place(in_version_order(releases.drop_last()), releases.last())
    }
}

proof fn lemma_place_permutes(list: Seq<Release>, x: Release)
    ensures
        place(list, x).to_multiset() == list.to_multiset().insert(x),
    decreases list.len(),
{
    if list.len() > 0 && version_order(x.version@, list.last().version@) < 0 {
        let init = list.drop_last();
        lemma_place_permutes(init, x);
        assert(init.push(list.last()) =~= list);
        assert(place(init, x).push(list.last()).to_multiset() == place(init, x).to_multiset().insert(list.last()));
        assert(list.to_multiset() == init.to_multiset().insert(list.last()));
        assert(place(list, x).to_multiset() =~= list.to_multiset().insert(x));
    }
}

/// Sorting releases by version keeps every release, no more and no fewer.
pub proof fn law_version_order_permutes(releases: Seq<Release>)
    ensures
        in_version_order(releases).to_multiset() == releases.to_multiset(),
        in_version_order(releases).len() == releases.len(),
    decreases releases.len(),
{
    if releases.len() > 0 {
        let init = releases.drop_last();
        law_version_order_permutes(init);
        lemma_place_permutes(in_version_order(init), releases.last());
        assert(init.push(releases.last()) =~= releases);
        assert(releases.to_multiset() == init.to_multiset().insert(releases.last()));
    } else {
        assert(releases.to_multiset() =~= vstd::multiset::Multiset::<Release>::empty());
        assert(in_version_order(releases).to_multiset() =~= vstd::multiset::Multiset::<Release>::empty());
    }
    assert(in_version_order(releases).to_multiset().len() == in_version_order(releases).len());
    assert(releases.to_multiset().len() == releases.len());
}

/// A release carries the data of the published version it lists: its
/// version, tarball and sum are those of that version's document entry, and
/// its date is the time filed under that entry's key.
pub open spec fn lists_version(r: Release, package: NpmPackage, j: int) -> bool {
    let key = package.versions@[j].0;
    let info = package.versions@[j].1;
    &&& r.version == info.version
    &&& r.tarball == info.dist.tarball
    &&& r.shasum == info.dist.shasum
    &&& r.date_time == match package.time {
        Some(t) => first_with_key(t@, key@),
        None => None,
    }
}

/// A release lists one of the package's published versions.
pub open spec fn lists_some_version(r: Release, package: NpmPackage) -> bool {
    exists|j: int| 0 <= j < package.versions@.len() && #[trigger] lists_version(r, package, j)
}

/// Every release in version order lists one of the package's published
/// versions, with that version's own tarball, sum and date.
pub proof fn law_releases_carry_their_version_data(package: NpmPackage)
    ensures
        forall|i: int|
            0 <= i < in_version_order(releases_of(package)).len() ==> #[trigger] lists_some_version(
                in_version_order(releases_of(package))[i],
                package,
            ),
{
    let all = releases_of(package);
    let sorted = in_version_order(all);
    law_version_order_permutes(all);
    assert forall|i: int| 0 <= i < sorted.len() implies #[trigger] lists_some_version(sorted[i], package) by {
        let x = sorted[i];
        assert(sorted.contains(x));
        assert(sorted.to_multiset().count(x) > 0);
        assert(all.to_multiset().count(x) > 0);
        assert(all.contains(x));
        assert(all.len() == package.versions@.len());
        let j = choose|j: int| 0 <= j < all.len() && all[j] == x;
        assert(all[j] == release_of(package.versions@[j].0, package.versions@[j].1, package.time));
        assert(lists_version(x, package, j));
    }
}

proof fn lemma_listed_releases_carry_data(list: Seq<Release>, package: NpmPackage)
    requires
        list.len() == in_version_order(releases_of(package)).len(),
        forall|i: int|
            0 <= i < list.len() ==> {
                let a = #[trigger] list[i];
                let b = in_version_order(releases_of(package))[i];
                &&& a.version == b.version
                &&& a.date_time == b.date_time
                &&& a.tarball == b.tarball
                &&& a.shasum == b.shasum
            },
    ensures
        forall|i: int| 0 <= i < list.len() ==> #[trigger] lists_some_version(list[i], package),
{
    law_releases_carry_their_version_data(package);
    let order = in_version_order(releases_of(package));
    assert forall|i: int| 0 <= i < list.len() implies #[trigger] lists_some_version(list[i], package) by {
        assert(lists_some_version(order[i], package));
        let j = choose|j: int| 0 <= j < package.versions@.len() && lists_version(order[i], package, j);
        assert(lists_version(order[i], package, j));
        assert(lists_version(list[i], package, j));
    }
}

/// Each release's version comes no later than the next one's.
pub open spec fn ordered_by_version(releases: Seq<Release>) -> bool {
    forall|i: int|
        0 <= i < releases.len() - 1 ==> version_order(
            #[trigger] releases[i].version@,
            releases[i + 1].version@,
        ) <= 0
}

/// Semantic version precedence is transitive, as `Ord` asks of
/// `semver::Version`.
pub open spec fn semver_order_transitive() -> bool {
    forall|a: Seq<char>, b: Seq<char>, c: Seq<char>|
        is_semver(a) && is_semver(b) && is_semver(c) && #[trigger] semver_order(a, b) <= 0
            && #[trigger] semver_order(b, c) <= 0 ==> semver_order(a, c) <= 0
}

/// Every release's version comes no later than that of any release after it.
pub open spec fn sorted_by_version(releases: Seq<Release>) -> bool {
    forall|i: int, j: int|
        0 <= i < j < releases.len() ==> version_order(
            #[trigger] releases[i].version@,
            #[trigger] releases[j].version@,
        ) <= 0
}

proof fn lemma_version_order_trans(a: Seq<char>, b: Seq<char>, c: Seq<char>)
    requires
        semver_order_transitive(),
        version_order(a, b) <= 0,
        version_order(b, c) <= 0,
    ensures
        version_order(a, c) <= 0,
{
    if is_semver(a) && is_semver(b) && is_semver(c) {
        assert(semver_order(a, b) <= 0 && semver_order(b, c) <= 0);
    } else if !is_semver(a) {
        lemma_text_order_trans(a, b, c);
    }
}

proof fn lemma_ordered_chain(releases: Seq<Release>, i: int, j: int)
    requires
        semver_order_transitive(),
        ordered_by_version(releases),
        0 <= i < j < releases.len(),
    ensures
        version_order(releases[i].version@, releases[j].version@) <= 0,
    decreases j - i,
{
    if j > i + 1 {
        lemma_ordered_chain(releases, i, j - 1);
        assert(version_order(releases[j - 1].version@, releases[j].version@) <= 0);
        lemma_version_order_trans(releases[i].version@, releases[j - 1].version@, releases[j].version@);
    }
}

/// Releases each no later than the next are in version order as a whole:
/// every release comes no later than any after it, since the order of
/// versions is transitive.
pub proof fn law_neighbours_order_all(releases: Seq<Release>)
    requires
        semver_order_transitive(),
        ordered_by_version(releases),
    ensures
        sorted_by_version(releases),
{
    assert forall|i: int, j: int| 0 <= i < j < releases.len() implies version_order(
        #[trigger] releases[i].version@,
        #[trigger] releases[j].version@,
    ) <= 0 by {
        lemma_ordered_chain(releases, i, j);
    }
}

proof fn lemma_place_at(list: Seq<Release>, x: Release, j: int)
    requires
        0 <= j <= list.len(),
        forall|k: int| j <= k < list.len() ==> version_order(x.version@, list[k].version@) < 0,
        j > 0 ==> version_order(x.version@, list[j - 1].version@) >= 0,
    ensures
        place(list, x) == list.insert(j, x),
    decreases list.len(),
{
    if list.len() == 0 {
        assert(list.insert(0, x) =~= seq![x]);
    } else if j == list.len() {
        assert(list.insert(j, x) =~= list.push(x));
    } else {
        let init = list.drop_last();
        assert forall|k: int| j <= k < init.len() implies version_order(x.version@, init[k].version@) < 0 by {
            assert(init[k] == list[k]);
        }
        if j > 0 {
            assert(init[j - 1] == list[j - 1]);
        }
        lemma_place_at(init, x, j);
        assert(init.insert(j, x).push(list.last()) =~= list.insert(j, x));
    }
}

/// Sorts releases by version, the releases of equal versions keeping their
/// order.
#[verifier::spinoff_prover]
#[verifier::rlimit(40)]
pub fn sort_releases(releases: Vec<Release>) -> (r: Vec<Release>)
    ensures
        r@ == in_version_order(releases@),
        r@.to_multiset() == releases@.to_multiset(),
        ordered_by_version(r@),
        semver_order_transitive() ==> sorted_by_version(r@),
{
    let ghost all = releases@;
    let mut sorted: Vec<Release> = Vec::new();
    let mut rest = releases;
    let ghost mut k: int = 0;
    assert(all.skip(0) =~= all);
    assert(all.take(0) =~= Seq::<Release>::empty());
    while rest.len() > 0
        invariant
            0 <= k <= all.len(),
            rest@ == all.skip(k),
            sorted@ == in_version_order(all.take(k)),
            sorted@.to_multiset() == all.take(k).to_multiset(),
            ordered_by_version(sorted@),
        decreases rest@.len(),
    {
        let x = rest.remove(0);
        assert(x == all[k]);
        let mut j = sorted.len();
        loop
            invariant
                j <= sorted@.len(),
                forall|m: int|
                    j <= m < sorted@.len() ==> version_order(x.version@, sorted@[m].version@) < 0
                        && version_order(sorted@[m].version@, x.version@) > 0,
            ensures
                j <= sorted@.len(),
                forall|m: int|
                    j <= m < sorted@.len() ==> version_order(x.version@, sorted@[m].version@) < 0
                        && version_order(sorted@[m].version@, x.version@) > 0,
                j > 0 ==> version_order(x.version@, sorted@[j - 1].version@) >= 0
                    && version_order(sorted@[j - 1].version@, x.version@) <= 0,
            decreases j,
        {
            if j == 0 {
                break ;
            }
            let o = compare_versions(x.version.as_str(), sorted[j - 1].version.as_str());
            if o >= 0 {
                break ;
            }
            j = j - 1;
        }
        let ghost before = sorted@;
        proof {
            lemma_place_at(before, x, j as int);
            assert(all.take(k + 1).drop_last() =~= all.take(k));
            assert(all.take(k + 1).last() == x);
            assert(all.take(k + 1) =~= all.take(k).push(x));
            assert(all.skip(k).drop_first() =~= all.skip(k + 1));
        }
        sorted.insert(j, x);
        proof {
            let m = sorted@;
            assert(m == before.insert(j as int, x));
            assert forall|i: int| 0 <= i < m.len() - 1 implies version_order(
                #[trigger] m[i].version@,
                m[i + 1].version@,
            ) <= 0 by {
                if i < j - 1 {
                    assert(m[i] == before[i] && m[i + 1] == before[i + 1]);
                } else if i == j - 1 {
                    assert(m[i] == before[i] && m[i + 1] == x);
                } else if i == j {
                    assert(m[i] == x && m[i + 1] == before[i]);
                } else {
                    assert(m[i] == before[i - 1] && m[i + 1] == before[i]);
                }
            }
            k = k + 1;
        }
    }
    assert(all.take(k) =~= all);
    proof {
        if semver_order_transitive() {
            law_neighbours_order_all(sorted@);
        }
    }
    sorted
}

/// The address of the diff between two versions of a package.
pub open spec fn diff_link(package_name: Seq<char>, prev: Seq<char>, curr: Seq<char>) -> Seq<char> {
    "/diff/"@ + package_name + "?version[]="@ + prev + "&version[]="@ + curr
}

/// The address of the raw diff between two versions of a package.
pub open spec fn raw_diff_link(package_name: Seq<char>, prev: Seq<char>, curr: Seq<char>) -> Seq<char> {
    diff_link(package_name, prev, curr) + "&raw=true"@
}

/// The contents of an optional string.
pub open spec fn opt_text(o: Option<String>) -> Option<Seq<char>> {
    match o {
        Some(s) => Some(s@),
        None => None,
    }
}

/// Links each release after the first to the diff, and the raw diff, of its
/// version against the version of the release before it; the first release
/// and every other field are left as they are.
pub fn add_diff_links(releases: &mut Vec<Release>, package_name: &str)
    ensures
        final(releases)@.len() == old(releases)@.len(),
        forall|i: int|
            0 <= i < old(releases)@.len() ==> {
                let a = #[trigger] final(releases)@[i];
                let b = old(releases)@[i];
                &&& a.version == b.version
                &&& a.date_time == b.date_time
                &&& a.tarball == b.tarball
                &&& a.shasum == b.shasum
            },
        old(releases)@.len() > 0 ==> final(releases)@[0] == old(releases)@[0],
        forall|i: int|
            1 <= i < old(releases)@.len() ==> opt_text(#[trigger] final(releases)@[i].diff) == Some(
                diff_link(package_name@, old(releases)@[i - 1].version@, old(releases)@[i].version@),
            ) && opt_text(final(releases)@[i].diff_raw) == Some(
                raw_diff_link(
                    package_name@,
                    old(releases)@[i - 1].version@,
                    old(releases)@[i].version@,
                ),
            ),
{
    let ghost start = releases@;
    let mut i: usize = 1;
    while i < releases.len()
        invariant
            1 <= i,
            releases@.len() == start.len(),
            i <= releases@.len() || start.len() == 0,
            forall|m: int| 0 <= m < start.len() ==> {
                let a = #[trigger] releases@[m];
                let b = start[m];
                &&& a.version == b.version
                &&& a.date_time == b.date_time
                &&& a.tarball == b.tarball
                &&& a.shasum == b.shasum
            },
            forall|m: int| i <= m < start.len() ==> releases@[m] == start[m],
            start.len() > 0 ==> releases@[0] == start[0],
            forall|m: int|
                1 <= m < i && m < start.len() ==> opt_text(#[trigger] releases@[m].diff) == Some(
                    diff_link(package_name@, start[m - 1].version@, start[m].version@),
                ) && opt_text(releases@[m].diff_raw) == Some(
                    raw_diff_link(package_name@, start[m - 1].version@, start[m].version@),
                ),
        decreases releases@.len() - i,
    {
        let mut link = String::new();
        link.append("/diff/");
        link.append(package_name);
        link.append("?version[]=");
        link.append(releases[i - 1].version.as_str());
        link.append("&version[]=");
        link.append(releases[i].version.as_str());
        assert(link@ =~= diff_link(package_name@, start[i - 1].version@, start[i as int].version@));
        let mut raw_link = link.clone();
        raw_link.append("&raw=true");
        let cur = &releases[i];
        let updated = Release {
            version: cur.version.clone(),
            date_time: match &cur.date_time {
                Some(d) => Some(d.clone()),
                None => None,
            },
            tarball: cur.tarball.clone(),
            shasum: cur.shasum.clone(),
            diff: Some(link),
            diff_raw: Some(raw_link),
        };
        releases.set(i, updated);
        i = i + 1;
    }
}

/// The release list of a package: its releases in version order, each after
/// the first linked to its diff against the one before it.
pub fn list_releases(package_name: &str, package: &NpmPackage) -> (r: Vec<Release>)
    ensures
        r@.len() == package.versions@.len(),
        forall|i: int|
            0 <= i < r@.len() ==> {
                let a = #[trigger] r@[i];
                let b = in_version_order(releases_of(*package))[i];
                &&& a.version == b.version
                &&& a.date_time == b.date_time
                &&& a.tarball == b.tarball
                &&& a.shasum == b.shasum
            },
        r@.len() > 0 ==> r@[0] == in_version_order(releases_of(*package))[0],
        forall|i: int|
            1 <= i < r@.len() ==> opt_text(#[trigger] r@[i].diff) == Some(
                diff_link(package_name@, r@[i - 1].version@, r@[i].version@),
            ) && opt_text(r@[i].diff_raw) == Some(
                raw_diff_link(package_name@, r@[i - 1].version@, r@[i].version@),
            ),
        ordered_by_version(r@),
        semver_order_transitive() ==> sorted_by_version(r@),
        forall|i: int| 0 <= i < r@.len() ==> #[trigger] lists_some_version(r@[i], *package),
{
    let mut releases: Vec<Release> = Vec::new();
    let mut i: usize = 0;
    while i < package.versions.len()
        invariant
            i <= package.versions@.len(),
            releases@ == releases_of(*package).take(i as int),
        decreases package.versions@.len() - i,
    {
        let r = make_release(&package.versions[i].0, &package.versions[i].1, &package.time);
        releases.push(r);
        assert(releases_of(*package).take(i + 1) =~= releases_of(*package).take(i as int).push(r));
        i = i + 1;
    }
    assert(releases_of(*package).take(i as int) =~= releases_of(*package));
    let mut sorted = sort_releases(releases);
    let ghost before = sorted@;
    assert(before.to_multiset().len() == releases_of(*package).to_multiset().len());
    assert(before.len() == releases_of(*package).len());
    add_diff_links(&mut sorted, package_name);
    assert forall|i: int| 0 <= i < sorted@.len() - 1 implies version_order(
        #[trigger] sorted@[i].version@,
        sorted@[i + 1].version@,
    ) <= 0 by {
        assert(sorted@[i].version == before[i].version);
        assert(sorted@[i + 1].version == before[i + 1].version);
    }
    proof {
        if semver_order_transitive() {
            law_neighbours_order_all(sorted@);
        }
        lemma_listed_releases_carry_data(sorted@, *package);
    }
    sorted
}

} // verus!
