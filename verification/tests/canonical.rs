use actix_clean_path::CanonicalizationResult;
use actix_clean_path::CleanPath;
use actix_clean_path::canonicalize;
use actix_clean_path::clean;
use actix_clean_path::has_ext;
use actix_clean_path::is_canonical_fast;
use actix_clean_path::redirect_target;

fn normalize_uri(uri: &str) -> Option<String> {
    let (path, query) = match uri.find('?') {
        Some(i) => (&uri[..i], Some(uri[i + 1..].as_bytes())),
        None => (uri, None),
    };
    CleanPath
        .normalize(path.as_bytes(), query)
        .map(|t| String::from_utf8(t).unwrap())
}

fn canonical_str(path: &str) -> String {
    String::from_utf8(canonicalize(path.as_bytes())).unwrap()
}

#[test]
fn test_clean() {
    let cases = vec![
        ("/.", "/"),
        ("/..", "/"),
        ("/..//..", "/"),
        ("/./", "/"),
        ("//", "/"),
        ("///", "/"),
        ("///?a=1", "/?a=1"),
        ("///?a=1&b=2", "/?a=1&b=2"),
        ("//?a=1", "/?a=1"),
        ("//a//b//", "/a/b/"),
        ("//a//b//.", "/a/b/"),
        ("//a//b//../", "/a/"),
        ("//a//b//./", "/a/b/"),
        ("//m.js", "/m.js"),
        ("/a//b", "/a/b/"),
        ("/a//b/", "/a/b/"),
        ("/a//b//", "/a/b/"),
        ("/a//m.js", "/a/m.js"),
        ("/m.", "/m./"),
    ];
    for (given, cleaned) in cases.iter() {
        let res = normalize_uri(given);
        assert!(res.is_some(), "for {}", given);
        assert_eq!(res.unwrap().as_str(), *cleaned, "for {}", given);
    }
}

#[test]
fn test_pristine() {
    let cases = vec!["/", "/a/", "/a/b/", "/m.js", "/m./"];
    for given in cases.iter() {
        let res = normalize_uri(given);
        assert!(res.is_none(), "for {}", given);
    }
}

#[test]
fn clean_resolves_segments() {
    assert_eq!(clean(b"/..//..".as_slice()), b"/".to_vec());
    assert_eq!(clean(b"//a//b//../".as_slice()), b"/a".to_vec());
    assert_eq!(clean(b"/a/b/c/./../d".as_slice()), b"/a/b/d".to_vec());
    assert_eq!(clean(b"".as_slice()), b"/".to_vec());
}

#[test]
fn canonical_scenarios() {
    assert_eq!(canonical_str("/."), "/");
    assert_eq!(canonical_str("/..//.."), "/");
    assert_eq!(canonical_str("//a//b//../"), "/a/");
    assert_eq!(canonical_str("//m.js"), "/m.js");
    assert_eq!(canonical_str("/m."), "/m./");
    assert_eq!(canonical_str("/a/"), "/a/");
}

#[test]
fn has_ext_on_final_segment() {
    assert!(has_ext(b"/m.js".as_slice()));
    assert!(has_ext(b"/a/b.tar.gz".as_slice()));
    assert!(!has_ext(b"/m.".as_slice()));
    assert!(!has_ext(b"/m.js/".as_slice()));
    assert!(!has_ext(b"/a.b/c".as_slice()));
    assert!(!has_ext(b"/".as_slice()));
    assert!(!has_ext(b"".as_slice()));
}

#[test]
fn fast_detector_scenarios() {
    assert!(is_canonical_fast(b"/".as_slice()));
    assert!(is_canonical_fast(b"/a/".as_slice()));
    assert!(is_canonical_fast(b"/m.js".as_slice()));
    assert!(is_canonical_fast(b"/m./".as_slice()));
    assert!(is_canonical_fast(b"/m.js/".as_slice()));
    assert!(!is_canonical_fast(b"//".as_slice()));
    assert!(!is_canonical_fast(b"/.".as_slice()));
    assert!(!is_canonical_fast(b"/a".as_slice()));
}

#[test]
fn fast_detector_matches_canonicalizer() {
    let inputs = vec![
        "/", "/a", "/a/", "/a/b", "/a/b/", "/m.js", "/m.js/", "/m.", "/m./", "//", "/.", "/..",
        "//a//b//", "/a/../b", "/a/./b/", "/index.html", "/index.html/",
    ];
    for given in inputs.iter() {
        let unchanged = canonicalize(given.as_bytes()) == given.as_bytes().to_vec();
        assert_eq!(
            is_canonical_fast(given.as_bytes()),
            unchanged,
            "for {}",
            given
        );
    }
}

#[test]
fn fast_detector_is_conservative_on_dot_segments() {
    // `/.hidden` is its own canonical form, yet the cheap check declines it
    // because of the `/.` substring; the full canonicalizer then settles it.
    assert_eq!(canonicalize(b"/.hidden".as_slice()), b"/.hidden".to_vec());
    assert!(!is_canonical_fast(b"/.hidden".as_slice()));
    assert!(normalize_uri("/.hidden").is_none());
}

#[test]
fn canonicalize_is_idempotent() {
    let inputs = vec!["//a//b//../", "/m.", "/..//..", "/a//b", "///?", "/x/y/z"];
    for given in inputs.iter() {
        let once = canonicalize(given.as_bytes());
        let twice = canonicalize(&once);
        assert_eq!(once, twice, "for {}", given);
    }
}

#[test]
fn updir_runs_clamp_to_root() {
    let inputs = vec!["/..", "/../..", "//..//..//", "/../../../../..", "..", "../.."];
    for given in inputs.iter() {
        assert_eq!(canonical_str(given), "/", "for {}", given);
    }
}

#[test]
fn extension_policy() {
    // Final segment with an extension and no trailing separator in the
    // request: the canonical path stays extension-terminated.
    assert_eq!(canonical_str("/a/../m.js"), "/m.js");
    assert_eq!(canonical_str("//a//m.js"), "/a/m.js");
    // Everything else that is not the root gains a trailing separator.
    assert_eq!(canonical_str("/a//b"), "/a/b/");
    assert_eq!(canonical_str("/m.js/"), "/m.js/");
    assert_eq!(canonical_str("/m."), "/m./");
    // The policy looks at the cleaned path's final segment: a trailing `.`
    // segment is dropped by cleaning and `m.js` keeps its extension.
    assert_eq!(canonical_str("/m.js/."), "/m.js");
}

#[test]
fn redirect_target_reattaches_query() {
    assert_eq!(
        redirect_target(b"/a/".to_vec(), Some(b"x=1&y=2".as_slice())),
        b"/a/?x=1&y=2".to_vec()
    );
    assert_eq!(redirect_target(b"/a/".to_vec(), None), b"/a/".to_vec());
    assert_eq!(
        redirect_target(b"/".to_vec(), Some(b"".as_slice())),
        b"/?".to_vec()
    );
}

#[test]
fn query_is_preserved_verbatim() {
    assert_eq!(normalize_uri("///?a=1").unwrap(), "/?a=1");
    assert_eq!(normalize_uri("//a//b?q=/..//").unwrap(), "/a/b/?q=/..//");
    assert_eq!(normalize_uri("/a//b").unwrap(), "/a/b/");
}

#[test]
fn canonical_result_reports_changes() {
    match CleanPath.canonical_result(b"/a/".as_slice()) {
        CanonicalizationResult::Unchanged => {}
        CanonicalizationResult::Changed(_) => panic!("expected an unchanged path"),
    }
    match CleanPath.canonical_result(b"//a".as_slice()) {
        CanonicalizationResult::Unchanged => panic!("expected a changed path"),
        CanonicalizationResult::Changed(c) => assert_eq!(c, b"/a/".to_vec()),
    }
}
