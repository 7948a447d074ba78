use npmv::models::{NpmDist, NpmPackage, NpmVersion, Release};
use npmv::routes::archive::{archive_destination, archive_key, diff_archives, extract_tarball, forward_slashes, ArchiveFiles};
use npmv::routes::diff::{
    bytes_equal, diff_files, finish_diff, is_binary, is_blank, keep_nonblank, plan_diff,
    render_html_page, select_tarballs, strip_node_modules_regions, tarball_extract_error,
    DiffPlan, DiffQuery, DiffResponse, TWO_VERSIONS_REQUIRED,
};
use npmv::routes::page::PAGE_HEAD;
use npmv::routes::index::{index, SERVICE_VERSION};
use npmv::routes::package::{check_package_name, compare_versions, list_releases, sort_releases};
use npmv::routes::{check_registry_status, package_name_from_segments, registry_unreachable};
use npmv::text::compare_text;

fn empty_query() -> DiffQuery {
    DiffQuery {
        version: None,
        v: None,
        from: None,
        to: None,
        v1: None,
        v2: None,
        include_node_modules: None,
        raw: None,
    }
}

fn tgz(entries: &[(&str, &[u8], bool)]) -> Vec<u8> {
    let mut builder = tar::Builder::new(Vec::new());
    for (path, data, dir) in entries {
        let mut header = tar::Header::new_gnu();
        header.set_size(data.len() as u64);
        header.set_mode(0o644);
        if *dir {
            header.set_entry_type(tar::EntryType::Directory);
        }
        header.set_cksum();
        builder.append_data(&mut header, path, *data).unwrap();
    }
    let tar_bytes = builder.into_inner().unwrap();
    let mut enc = flate2::write::GzEncoder::new(Vec::new(), flate2::Compression::default());
    std::io::Write::write_all(&mut enc, &tar_bytes).unwrap();
    enc.finish().unwrap()
}

fn release(version: &str) -> Release {
    Release {
        version: version.to_string(),
        date_time: None,
        tarball: String::new(),
        shasum: String::new(),
        diff: None,
        diff_raw: None,
    }
}

fn npm_version(version: &str) -> NpmVersion {
    NpmVersion {
        version: version.to_string(),
        dist: NpmDist {
            tarball: format!("https://registry.npmjs.org/p/-/p-{}.tgz", version),
            shasum: format!("sum-{}", version),
        },
    }
}

#[test]
fn versions_from_repeated_parameter() {
    let mut q = empty_query();
    q.version = Some(vec!["4.8.6".to_string()]);
    q.v = Some(vec!["4.8.7".to_string()]);
    assert_eq!(q.extract_versions(), vec!["4.8.6", "4.8.7"]);
}

#[test]
fn versions_from_comma_separated_value() {
    let mut q = empty_query();
    q.version = Some(vec![" 4.8.6 , 4.8.7,,".to_string()]);
    assert_eq!(q.extract_versions(), vec!["4.8.6", "4.8.7"]);
}

#[test]
fn versions_from_v1_and_v2_after_the_others() {
    let mut q = empty_query();
    q.v1 = Some("1.0.0".to_string());
    q.v2 = Some("\u{3000}2.0.0\t".to_string());
    q.from = Some("0.9.0".to_string());
    assert_eq!(q.extract_versions(), vec!["0.9.0", "1.0.0", "2.0.0"]);
}

#[test]
fn versions_none_named() {
    let mut q = empty_query();
    q.to = Some(" , ".to_string());
    assert!(q.extract_versions().is_empty());
}

#[test]
fn strip_keeps_other_lines_and_ends_each_with_newline() {
    let text = "a\r\n// see node_modules/x\n * node_modules/y\nb";
    assert_eq!(strip_node_modules_regions(text), "a\nb\n");
}

#[test]
fn strip_region_ends_at_any_endregion_marker() {
    let text = "/* node_modules/a.js */\nx\n/* #endregion */\ny\n// node_modules/b.js\nz\n  // ... #endregion\nw\n";
    assert_eq!(strip_node_modules_regions(text), "y\nw\n");
}

#[test]
fn strip_region_without_end_drops_the_rest() {
    let text = "keep\n//#region \\0helper\nx\ny";
    assert_eq!(strip_node_modules_regions(text), "keep\n");
}

#[test]
fn strip_is_idempotent_on_example() {
    let text = "a\n//#region node_modules/q\nb\n//#endregion\nc\n";
    let once = strip_node_modules_regions(text);
    assert_eq!(strip_node_modules_regions(&once), once);
}

#[test]
fn binary_detection() {
    assert!(!is_binary(b"plain text"));
    assert!(is_binary(&[b'a', 0, b'b']));
    assert!(is_binary(&[0xff, 0xfe]));
    let mut late_nul = vec![b'a'; 9000];
    late_nul[8500] = 0;
    assert!(!is_binary(&late_nul));
    late_nul[8191] = 0;
    assert!(is_binary(&late_nul));
}

#[test]
fn byte_equality_and_blank_text() {
    assert!(bytes_equal(b"abc", b"abc"));
    assert!(!bytes_equal(b"abc", b"abd"));
    assert!(is_blank(" \n\t"));
    assert!(!is_blank(" x "));
    assert_eq!(keep_nonblank(" \n".to_string()), None);
    assert_eq!(keep_nonblank("-a\n".to_string()), Some("-a\n".to_string()));
}

#[test]
fn identical_files_have_no_diff() {
    assert_eq!(diff_files("a.js", Some(b"x\n"), Some(b"x\n"), false), None);
    assert_eq!(diff_files("a.js", None, None, true), None);
}

#[test]
fn files_differing_only_in_node_modules_regions_have_no_diff() {
    let old = b"//#region node_modules/a\nold\n//#endregion\nsame\n";
    let new = b"//#region node_modules/a\nnew\n//#endregion\nsame\n";
    assert_eq!(diff_files("b.js", Some(old), Some(new), false), None);
    assert!(diff_files("b.js", Some(old), Some(new), true).unwrap().contains("+new"));
}

#[test]
fn deleted_and_created_files() {
    let deleted = diff_files("gone.js", Some(b"bye\n"), None, false).unwrap();
    assert!(deleted.contains("--- a/gone.js"));
    assert!(deleted.contains("+++ /dev/null"));
    assert!(deleted.contains("-bye"));
    let created = diff_files("new.js", None, Some(b"hi\n"), false).unwrap();
    assert!(created.contains("--- /dev/null"));
    assert!(created.contains("+++ b/new.js"));
    assert!(created.contains("+hi"));
    assert_eq!(diff_files("blank.js", None, Some(b"  \n"), false), None);
    assert_eq!(
        diff_files("img.png", Some(&[1, 0, 2]), None, false),
        Some("diff -r a/img.png /dev/null\nBinary file a/img.png deleted\n".to_string())
    );
    assert_eq!(
        diff_files("img.png", None, Some(&[1, 0, 2]), false),
        Some("diff -r /dev/null b/img.png\nBinary file b/img.png created\n".to_string())
    );
    assert_eq!(
        diff_files("x.bin", Some(&[1, 0]), Some(&[2, 0]), false),
        Some("diff -r a/x.bin b/x.bin\nBinary files a/x.bin and b/x.bin differ\n".to_string())
    );
}

#[test]
fn plan_refuses_missing_package_or_versions() {
    let e = plan_diff("", None).unwrap_err();
    assert_eq!(e.status, 400);
    assert_eq!(e.response.error, "Package name is required");
    let e = plan_diff("favicon.ico", None).unwrap_err();
    assert_eq!(e.status, 400);
    let e = plan_diff("react", None).unwrap_err();
    assert_eq!(e.status, 400);
    assert_eq!(e.response.error, TWO_VERSIONS_REQUIRED);
    let mut q = empty_query();
    q.version = Some(vec!["1,2,3".to_string()]);
    assert_eq!(plan_diff("react", Some(&q)).unwrap_err().status, 400);
}

#[test]
fn plan_accepts_two_versions() {
    let mut q = empty_query();
    q.version = Some(vec!["4.8.6,4.8.7".to_string()]);
    q.raw = Some(true);
    let p = plan_diff("@payfurl/client", Some(&q)).unwrap();
    assert_eq!(p.registry_url, "https://registry.npmjs.org/@payfurl/client");
    assert_eq!(p.v1, "4.8.6");
    assert_eq!(p.v2, "4.8.7");
    assert!(p.raw);
    assert!(!p.include_node_modules);
}

#[test]
fn registry_status_answers() {
    assert!(check_registry_status("react", 200, "200 OK").is_none());
    let e = check_registry_status("nope", 404, "404 Not Found").unwrap();
    assert_eq!(e.status, 404);
    assert_eq!(e.response.error, "Package 'nope' not found in NPM registry");
    let e = check_registry_status("react", 503, "503 Service Unavailable").unwrap();
    assert_eq!(e.status, 502);
    assert_eq!(e.response.error, "NPM registry returned HTTP status: 503 Service Unavailable");
    let e = registry_unreachable("timed out");
    assert_eq!(e.status, 502);
    assert_eq!(e.response.error, "Failed to connect to NPM registry: timed out");
    let e = tarball_extract_error("1.0.0", "bad gzip");
    assert_eq!(e.status, 422);
    assert_eq!(e.response.error, "Failed to extract tarball for version 1.0.0: bad gzip");
}

fn plan(raw: bool, keep_modules: bool) -> DiffPlan {
    DiffPlan {
        package_name: "pkg".to_string(),
        registry_url: "https://registry.npmjs.org/pkg".to_string(),
        v1: "1.0.0".to_string(),
        v2: "1.1.0".to_string(),
        include_node_modules: keep_modules,
        raw,
    }
}

#[test]
fn tarball_selection() {
    let package = NpmPackage {
        versions: vec![("1.0.0".to_string(), npm_version("1.0.0")), ("1.1.0".to_string(), npm_version("1.1.0"))],
        time: None,
    };
    let (a, b) = select_tarballs(&package, &plan(true, false)).unwrap();
    assert_eq!(a, "https://registry.npmjs.org/p/-/p-1.0.0.tgz");
    assert_eq!(b, "https://registry.npmjs.org/p/-/p-1.1.0.tgz");
    let mut missing = plan(true, false);
    missing.v2 = "9.9.9".to_string();
    let e = select_tarballs(&package, &missing).unwrap_err();
    assert_eq!(e.status, 404);
    assert_eq!(e.response.error, "Version '9.9.9' not found for package 'pkg'");
}

#[test]
fn raw_answer_and_no_difference_note() {
    match finish_diff(&plan(true, false), String::new()) {
        DiffResponse::Text(t) => assert_eq!(t, "# Package: pkg\n# Version 1.0.0 -> 1.1.0\n# No differences found.\n"),
        DiffResponse::Html(_) => panic!("raw diff expected"),
    }
    match finish_diff(&plan(true, false), "-a\n+b\n".to_string()) {
        DiffResponse::Text(t) => assert_eq!(t, "-a\n+b\n"),
        DiffResponse::Html(_) => panic!("raw diff expected"),
    }
}

#[test]
fn html_answer_embeds_json_and_raw_link() {
    match finish_diff(&plan(false, true), "a\"b\\c\n\u{1}".to_string()) {
        DiffResponse::Html(h) => {
            assert!(h.starts_with(PAGE_HEAD));
            assert!(h.contains("const diffString = \"a\\\"b\\\\c\\n\\u0001\";"));
            assert!(h.contains("href=\"/diff/pkg?version[]=1.0.0&version[]=1.1.0&include_node_modules=true&raw=true\""));
            assert!(h.contains("<title>Diff: pkg (1.0.0 &rarr; 1.1.0)</title>"));
        }
        DiffResponse::Text(_) => panic!("page expected"),
    }
}

#[test]
fn page_places_its_arguments() {
    let h = render_html_page("p", "1", "2", "\"d\"", "/raw");
    assert!(h.contains("<span class=\"package-name\">p</span>"));
    assert!(h.contains("<span class=\"version-badge\">1 &rarr; 2</span>"));
    assert!(h.contains("<a href=\"/raw\" class=\"btn\">Raw Diff</a>"));
    assert!(h.ends_with("</html>"));
}

#[test]
fn package_names() {
    assert_eq!(package_name_from_segments(&vec!["@payfurl".to_string(), "client".to_string()]), "@payfurl/client");
    assert_eq!(package_name_from_segments(&vec![]), "");
    let e = check_package_name("").unwrap_err();
    assert_eq!((e.status, e.response.error.as_str()), (400, "Package name is empty"));
    let e = check_package_name("favicon.ico").unwrap_err();
    assert_eq!((e.status, e.response.error.as_str()), (404, "Not Found"));
    assert_eq!(check_package_name("react").unwrap(), "https://registry.npmjs.org/react");
}

#[test]
fn version_order_semver_first_then_text() {
    assert_eq!(compare_versions("1.2.0", "1.10.0"), -1);
    assert_eq!(compare_versions("1.0.0-beta", "1.0.0"), -1);
    assert_eq!(compare_versions("1.0.0", "latest"), -1);
    assert_eq!(compare_versions("banana", "1.0.0"), 1);
    assert_eq!(compare_versions("apple", "banana"), -1);
    assert_eq!(compare_versions("2.0.0", "2.0.0"), 0);
    assert_eq!(compare_text("ab", "a"), 1);
    assert_eq!(compare_text("", ""), 0);
}

#[test]
fn sorting_releases_is_stable_version_order() {
    let sorted = sort_releases(vec![release("1.10.0"), release("x"), release("1.2.0"), release("0.1.0")]);
    let names: Vec<&str> = sorted.iter().map(|r| r.version.as_str()).collect();
    assert_eq!(names, vec!["0.1.0", "1.2.0", "1.10.0", "x"]);
}

#[test]
fn release_list_from_package_document() {
    let package = NpmPackage {
        versions: vec![
            ("1.1.0".to_string(), npm_version("1.1.0")),
            ("1.0.0".to_string(), npm_version("1.0.0")),
        ],
        time: Some(vec![
            ("created".to_string(), "2020-01-01T00:00:00.000Z".to_string()),
            ("1.0.0".to_string(), "2020-01-02T00:00:00.000Z".to_string()),
        ]),
    };
    let list = list_releases("p", &package);
    assert_eq!(list.len(), 2);
    assert_eq!(list[0].version, "1.0.0");
    assert_eq!(list[0].date_time, Some("2020-01-02T00:00:00.000Z".to_string()));
    assert_eq!(list[0].diff, None);
    assert_eq!(list[1].version, "1.1.0");
    assert_eq!(list[1].date_time, None);
    assert_eq!(list[1].shasum, "sum-1.1.0");
    assert_eq!(list[1].diff, Some("/diff/p?version[]=1.0.0&version[]=1.1.0".to_string()));
    assert_eq!(list[1].diff_raw, Some("/diff/p?version[]=1.0.0&version[]=1.1.0&raw=true".to_string()));
}

#[test]
fn keys_of_tarball_entries() {
    assert_eq!(archive_key("package/lib/a.js", false), Some("lib/a.js".to_string()));
    assert_eq!(archive_key("other/a.js", false), Some("other/a.js".to_string()));
    assert_eq!(archive_key("package/node_modules/x/i.js", false), None);
    assert_eq!(archive_key("package/node_modules/x/i.js", true), Some("node_modules/x/i.js".to_string()));
    assert_eq!(archive_key("package/node_modules_extra/i.js", false), Some("node_modules_extra/i.js".to_string()));
    assert_eq!(forward_slashes("a\\b/c"), "a/b/c");
}

#[test]
fn extracting_a_tarball() {
    let bytes = tgz(&[
        ("package/", b"", true),
        ("package/index.js", b"one\n", false),
        ("package/node_modules/dep/x.js", b"dep\n", false),
        ("package/lib/b.js", b"b\n", false),
    ]);
    let files = extract_tarball(&bytes, false).unwrap();
    let paths: Vec<&str> = files.files.iter().map(|f| f.path.as_str()).collect();
    assert_eq!(paths, vec!["index.js", "lib/b.js"]);
    assert_eq!(files.get("index.js"), Some(&b"one\n"[..]));
    let all = extract_tarball(&bytes, true).unwrap();
    assert_eq!(all.files.len(), 3);
}

#[test]
fn extracting_garbage_fails() {
    let e = extract_tarball(b"not a tarball", false).unwrap_err();
    assert!(e.starts_with("Corrupt archive entry: "));
}

#[test]
fn archive_insert_replaces_same_path() {
    let mut files = ArchiveFiles::new();
    files.insert("a/b.js".to_string(), b"1".to_vec());
    files.insert("a//b.js".to_string(), b"2".to_vec());
    assert_eq!(files.files.len(), 1);
    assert_eq!(files.files[0].path, "a/b.js");
    assert_eq!(files.get("a/b.js"), Some(&b"2"[..]));
}

#[test]
fn diffing_two_archives_in_path_order() {
    let old = extract_tarball(&tgz(&[("package/z.js", b"z\n", false), ("package/a.js", b"a\n", false)]), false).unwrap();
    let new = extract_tarball(&tgz(&[("package/a.js", b"A\n", false), ("package/m.js", b"m\n", false)]), false).unwrap();
    let out = diff_archives(&old, &new, false);
    let a = out.find("a/a.js").unwrap();
    let m = out.find("b/m.js").unwrap();
    let z = out.find("a/z.js").unwrap();
    assert!(a < m && m < z);
    assert!(out.contains("+A"));
    assert!(out.contains("-z"));
}

#[test]
fn index_describes_the_service() {
    let r = index();
    assert_eq!(r.service, "npmv");
    assert_eq!(r.version, SERVICE_VERSION);
    assert!(r.usage.starts_with("GET /<package-name>"));
}

#[test]
fn destinations_of_tarball_entries() {
    assert_eq!(archive_destination(None, false, true), None);
    assert_eq!(archive_destination(Some("package/lib".to_string()), true, true), None);
    assert_eq!(archive_destination(Some("package/lib/a.js".to_string()), false, false), Some("lib/a.js".to_string()));
    assert_eq!(archive_destination(Some("package/node_modules/a.js".to_string()), false, false), None);
}

#[test]
fn query_styles_name_the_same_versions() {
    let xs = vec!["4.8.6".to_string(), " 4.8.7".to_string()];
    let mut repeated = empty_query();
    repeated.version = Some(xs.clone());
    let mut comma = empty_query();
    comma.version = Some(vec![xs.join(",")]);
    let mut short = empty_query();
    short.v = Some(xs.clone());
    assert_eq!(repeated.extract_versions(), vec!["4.8.6", "4.8.7"]);
    assert_eq!(comma.extract_versions(), repeated.extract_versions());
    assert_eq!(short.extract_versions(), repeated.extract_versions());
}

#[test]
fn releases_are_ordered_for_every_pair() {
    let versions = ["1.10.0", "beta", "1.2.0", "0.1.0", "alpha", "1.2.0-rc.1", "10.0.0", "1.2.0"];
    let package = NpmPackage {
        versions: versions.iter().map(|v| (v.to_string(), npm_version(v))).collect(),
        time: None,
    };
    let list = list_releases("p", &package);
    let names: Vec<&str> = list.iter().map(|r| r.version.as_str()).collect();
    assert_eq!(names, vec!["0.1.0", "1.2.0-rc.1", "1.2.0", "1.2.0", "1.10.0", "10.0.0", "alpha", "beta"]);
    for i in 0..list.len() {
        for j in i + 1..list.len() {
            assert!(compare_versions(&list[i].version, &list[j].version) <= 0);
        }
    }
}

#[test]
fn later_tarball_entry_replaces_earlier_one() {
    let bytes = tgz(&[
        ("package/a.js", b"first\n", false),
        ("package/b.js", b"b\n", false),
        ("package/a.js", b"second\n", false),
    ]);
    let files = extract_tarball(&bytes, false).unwrap();
    let paths: Vec<&str> = files.files.iter().map(|f| f.path.as_str()).collect();
    assert_eq!(paths, vec!["a.js", "b.js"]);
    assert_eq!(files.get("a.js"), Some(&b"second\n"[..]));
}

#[test]
fn leaving_out_node_modules_keeps_the_other_files() {
    let bytes = tgz(&[
        ("package/node_modules/dep/x.js", b"dep\n", false),
        ("package/index.js", b"one\n", false),
        ("package/lib/node_modules/y.js", b"y\n", false),
        ("package/lib/b.js", b"b\n", false),
    ]);
    let all = extract_tarball(&bytes, true).unwrap();
    let some = extract_tarball(&bytes, false).unwrap();
    let kept: Vec<(&str, &[u8])> = all
        .files
        .iter()
        .filter(|f| !f.path.split('/').any(|c| c == "node_modules"))
        .map(|f| (f.path.as_str(), f.contents.as_slice()))
        .collect();
    let got: Vec<(&str, &[u8])> = some.files.iter().map(|f| (f.path.as_str(), f.contents.as_slice())).collect();
    assert_eq!(all.files.len(), 4);
    assert_eq!(got, kept);
}

#[test]
fn a_tarball_against_itself_has_no_difference() {
    let bytes = tgz(&[("package/a.js", b"a\n", false), ("package/b.bin", b"\0\x01", false)]);
    let one = extract_tarball(&bytes, true).unwrap();
    let two = extract_tarball(&bytes, true).unwrap();
    let out = diff_archives(&one, &two, true);
    assert_eq!(out, "");
    let answer = finish_diff(&plan(true, true), out);
    match answer {
        DiffResponse::Text(t) => assert!(t.ends_with("# No differences found.\n")),
        DiffResponse::Html(_) => panic!("raw answer expected"),
    }
}

#[test]
fn leaving_out_node_modules_adds_no_difference() {
    let old = b"a\n//#region node_modules/x\nold\n//#endregion\n".to_vec();
    let new = b"a\n//#region node_modules/x\nnew\n//#endregion\n".to_vec();
    assert!(diff_files("f.js", Some(&old), Some(&old), true).is_none());
    assert!(diff_files("f.js", Some(&old), Some(&old), false).is_none());
    assert!(diff_files("f.js", Some(b" \n"), None, true).is_none());
    assert!(diff_files("f.js", Some(b" \n"), None, false).is_none());
    assert!(diff_files("f.js", Some(&old), Some(&new), true).is_some());
    assert!(diff_files("f.js", Some(&old), Some(&new), false).is_none());
}

#[test]
fn text_diffs_begin_with_both_header_lines() {
    let both = diff_files("p.js", Some(b"a\n"), Some(b"b\n"), true).unwrap();
    assert!(both.starts_with("--- a/p.js\n+++ b/p.js\n"));
    let deleted = diff_files("p.js", Some(b"a\n"), None, true).unwrap();
    assert!(deleted.starts_with("--- a/p.js\n+++ /dev/null\n"));
    let created = diff_files("p.js", None, Some(b"b\n"), false).unwrap();
    assert!(created.starts_with("--- /dev/null\n+++ b/p.js\n"));
}

#[test]
fn change_inside_a_node_modules_region_shows_only_with_that_code() {
    let old = b"//#region node_modules/a\nx\n//#endregion\nk\n";
    let new = b"//#region node_modules/a\ny\n//#endregion\nk\n";
    assert!(diff_files("b.js", Some(old), Some(new), false).is_none());
    let kept = diff_files("b.js", Some(old), Some(new), true).unwrap();
    assert!(kept.starts_with("--- a/b.js\n+++ b/b.js\n"));
    assert!(kept.contains("-x\n") && kept.contains("+y\n"));
}
