use lpm::bundler::bundler::BundleError;
use lpm::bundler::bundler::LuaBundler;
use lpm::bundler::code_src_file::CodeSrcFile;
use lpm::bundler::code_src_file::scan_requires;

fn files(entries: &[(&str, &str)]) -> Vec<(String, String)> {
    entries
        .iter()
        .map(|(p, c)| (p.to_string(), c.to_string()))
        .collect()
}

#[test]
fn scan_accepts_the_enumerated_import_forms() {
    let src = "require(\"a\")\nrequire('b')\nrequire \"c\" \nlocal d = require 'd' ";
    let names = scan_requires(src);
    assert_eq!(names, vec!["a", "b", "c", "d"]);
}

#[test]
fn scan_keeps_duplicates_and_skips_matched_spans() {
    let names = scan_requires("require(\"a\") require(\"a\")");
    assert_eq!(names, vec!["a", "a"]);
}

#[test]
fn parse_captures_source_and_requires() {
    let mut src_file = CodeSrcFile::new("main.lua".to_string());
    src_file.parse("require(\"utils\")\nreturn 1\n".to_string());
    assert_eq!(src_file.source, "require(\"utils\")\nreturn 1\n");
    assert_eq!(src_file.requires, vec!["utils"]);
}

#[test]
fn scenario_a_utils_before_entry() {
    // entry imports `utils`; `utils` has no requires: utils comes
    // first, the import call becomes a registry lookup, and the final
    // statement invokes the entry point
    let fs = files(&[
        ("main.lua", "local u = require(\"utils\")\nu.go()\n"),
        ("utils.lua", "return { go = function() end }\n"),
    ]);
    let mut bundler = LuaBundler::new();
    let out = bundler.bundle(&"main.lua".to_string(), &fs).unwrap();

    let utils_at = out.find("-- Begin: utils module").unwrap();
    let entry_at = out.find("-- Begin: entry_point module").unwrap();
    assert!(utils_at < entry_at);
    assert!(out.contains("load_module(\"utils\")"));
    assert!(!out.contains("require(\"utils\")"));
    assert!(out.ends_with("\nload_module('entry_point')\n"));
    assert!(bundler.unresolved.is_empty());
}

#[test]
fn scenario_b_missing_module_is_nonfatal_pass_through() {
    let fs = files(&[("main.lua", "local m = require(\"missing\")\n")]);
    let mut bundler = LuaBundler::new();
    let out = bundler.bundle(&"main.lua".to_string(), &fs).unwrap();
    assert!(out.contains("require(\"missing\")"));
    assert!(!out.contains("load_module(\"missing\")"));
    assert_eq!(bundler.unresolved, vec!["missing"]);
}

#[test]
fn scenario_c_cycle_is_fatal_and_names_the_cycle() {
    let fs = files(&[
        ("a.lua", "require(\"b\")\n"),
        ("b.lua", "require(\"a\")\n"),
        ("main.lua", "require(\"a\")\n"),
    ]);
    let mut bundler = LuaBundler::new();
    let err = bundler.bundle(&"main.lua".to_string(), &fs).unwrap_err();
    match err {
        BundleError::Cycle(stuck) => {
            assert!(stuck.contains(&"a".to_string()));
            assert!(stuck.contains(&"b".to_string()));
        }
        other => panic!("expected a cycle error, got {:?}", other),
    }
}

#[test]
fn unreadable_entry_is_fatal() {
    let fs = files(&[("utils.lua", "return 1\n")]);
    let mut bundler = LuaBundler::new();
    let err = bundler.bundle(&"main.lua".to_string(), &fs).unwrap_err();
    assert!(matches!(err, BundleError::EntryUnreadable));
}

#[test]
fn transitive_requires_are_ordered() {
    let fs = files(&[
        ("main.lua", "require(\"mid\")\n"),
        ("lib/mid.lua", "require(\"leaf\")\n"),
        ("lib/nested/leaf.lua", "return 0\n"),
    ]);
    let mut bundler = LuaBundler::new();
    let out = bundler.bundle(&"main.lua".to_string(), &fs).unwrap();
    let leaf_at = out.find("-- Begin: leaf module").unwrap();
    let mid_at = out.find("-- Begin: mid module").unwrap();
    let entry_at = out.find("-- Begin: entry_point module").unwrap();
    assert!(leaf_at < mid_at && mid_at < entry_at);
}

#[test]
fn find_module_takes_the_first_listed_match() {
    let fs = files(&[
        ("a/utils.lua", "return 1\n"),
        ("b/utils.lua", "return 2\n"),
    ]);
    let found = LuaBundler::find_module(&"utils".to_string(), &fs);
    assert_eq!(found, Some(0));
    assert_eq!(LuaBundler::find_module(&"missing".to_string(), &fs), None);
}

#[test]
fn sort_sources_emits_dependencies_first() {
    let mut bundler = LuaBundler::new();
    let mut a = CodeSrcFile::new("a.lua".to_string());
    a.parse("require(\"b\")\nrequire(\"ext\")\n".to_string());
    let mut b = CodeSrcFile::new("b.lua".to_string());
    b.parse("return 1\n".to_string());
    bundler.sources.push(("a".to_string(), a));
    bundler.sources.push(("b".to_string(), b));
    let order = bundler.sort_sources().unwrap();
    // b (position 1) must precede a (position 0); `ext` is external
    assert_eq!(order, vec![1, 0]);
}

#[test]
fn sort_sources_holds_the_entry_for_the_final_pass() {
    // x (position 0) requires y; entry (position 2) requires y too.
    // Without holding the entry back it would be emitted in the second
    // pass, before x; the entry's block must come structurally last.
    let mut bundler = LuaBundler::new();
    let mut x = CodeSrcFile::new("x.lua".to_string());
    x.parse("require(\"y\")\n".to_string());
    let mut y = CodeSrcFile::new("y.lua".to_string());
    y.parse("return 1\n".to_string());
    let mut entry = CodeSrcFile::new("main.lua".to_string());
    entry.parse("require(\"y\")\n".to_string());
    bundler.sources.push(("x".to_string(), x));
    bundler.sources.push(("y".to_string(), y));
    bundler.sources.push(("entry_point".to_string(), entry));
    let order = bundler.sort_sources().unwrap();
    assert_eq!(order, vec![1, 0, 2]);
}

#[test]
fn bundle_places_the_entry_block_last() {
    let fs = files(&[
        ("main.lua", "local y = require(\"y\")\nlocal x = require(\"x\")\ny(x)\n"),
        ("x.lua", "require(\"y\")\nreturn 2\n"),
        ("y.lua", "return function() end\n"),
    ]);
    let mut bundler = LuaBundler::new();
    let out = bundler.bundle(&"main.lua".to_string(), &fs).unwrap();
    let entry_at = out.find("-- Begin: entry_point module").unwrap();
    for name in ["x", "y"] {
        let at = out.find(&format!("-- Begin: {} module", name)).unwrap();
        assert!(at < entry_at);
    }
}

#[test]
fn sort_sources_reports_a_stuck_pair() {
    let mut bundler = LuaBundler::new();
    let mut a = CodeSrcFile::new("a.lua".to_string());
    a.parse("require(\"b\")\n".to_string());
    let mut b = CodeSrcFile::new("b.lua".to_string());
    b.parse("require(\"a\")\n".to_string());
    let mut c = CodeSrcFile::new("c.lua".to_string());
    c.parse("return 1\n".to_string());
    bundler.sources.push(("a".to_string(), a));
    bundler.sources.push(("b".to_string(), b));
    bundler.sources.push(("c".to_string(), c));
    let stuck = bundler.sort_sources().unwrap_err();
    assert_eq!(stuck, vec!["a", "b"]);
}
