use request_gate::context::Extensions;
use request_gate::params::{ErrorKind, UriParams};
use request_gate::path::PathFilter;
use request_gate::percent::decode_segment;

fn sorted_entries(params: &UriParams) -> Option<Vec<(String, String)>> {
    match params.entries() {
        Ok(mut entries) => {
            entries.sort();
            Some(entries)
        }
        Err(_) => None,
    }
}

fn with_params(pairs: &[(&str, &str)]) -> UriParams {
    let mut params = UriParams::default();
    for (name, value) in pairs {
        params.insert(name.to_string(), value.to_string());
    }
    params
}

fn with_glob(mut params: UriParams, segments: &[&str]) -> UriParams {
    for segment in segments {
        params.append_glob(segment);
    }
    params
}

struct TestCase {
    path: &'static str,
    filter_path: &'static str,
    result: Option<UriParams>,
}

impl TestCase {
    fn some(path: &'static str, filter_path: &'static str, result: UriParams) -> Self {
        Self { path, filter_path, result: Some(result) }
    }

    fn none(path: &'static str, filter_path: &'static str) -> Self {
        Self { path, filter_path, result: None }
    }
}

#[test]
fn test_path_filter_match_path() {
    let test_cases = vec![
        TestCase::some("/", "/", UriParams::default()),
        TestCase::some("", "/", UriParams::default()),
        TestCase::some("/", "", UriParams::default()),
        TestCase::some("", "", UriParams::default()),
        TestCase::some("/foo", "/foo", UriParams::default()),
        TestCase::some("/foo", "//foo//", UriParams::default()),
        TestCase::some("/*foo", "/*foo", UriParams::default()),
        TestCase::some("/foo/*bar/baz", "/foo/*bar/baz", UriParams::default()),
        TestCase::none("/foo/*bar/baz", "/foo/*bar"),
        TestCase::none("/", "/:foo"),
        TestCase::some("/", "/*", with_glob(UriParams::default(), &[""])),
        TestCase::none("/", "//:foo"),
        TestCase::none("", "/:foo"),
        TestCase::none("/foo", "/bar"),
        TestCase::some(
            "/person/glen%20dc/age",
            "/person/:name/age",
            with_params(&[("name", "glen dc")]),
        ),
        TestCase::none("/foo", "/bar"),
        TestCase::some("/foo", "foo", UriParams::default()),
        TestCase::some("/foo/bar/", "foo/bar", UriParams::default()),
        TestCase::none("/foo/bar/", "foo/baz"),
        TestCase::some("/foo/bar/", "/foo/bar", UriParams::default()),
        TestCase::some("/foo/bar", "/foo/bar", UriParams::default()),
        TestCase::some("/foo/bar", "foo/bar", UriParams::default()),
        TestCase::some(
            "/book/oxford-dictionary/author",
            "/book/:title/author",
            with_params(&[("title", "oxford-dictionary")]),
        ),
        TestCase::some(
            "/book/oxford-dictionary/author/0",
            "/book/:title/author/:index",
            with_params(&[("title", "oxford-dictionary"), ("index", "0")]),
        ),
        TestCase::none("/book/oxford-dictionary", "/book/:title/author"),
        TestCase::none("/book/oxford-dictionary/author/birthdate", "/book/:title/author"),
        TestCase::none("oxford-dictionary/author", "/book/:title/author"),
        TestCase::none("/foo", "/"),
        TestCase::none("/foo", "/*f"),
        TestCase::some("/foo", "/*", with_glob(UriParams::default(), &["foo"])),
        TestCase::some(
            "/assets/css/reset.css",
            "/assets/*",
            with_glob(UriParams::default(), &["css", "reset.css"]),
        ),
        TestCase::some(
            "/assets/eu/css/reset.css",
            "/assets/:local/*",
            with_glob(with_params(&[("local", "eu")]), &["css", "reset.css"]),
        ),
        TestCase::some(
            "/assets/eu/css/reset.css",
            "/assets/:local/css/*",
            with_glob(with_params(&[("local", "eu")]), &["reset.css"]),
        ),
    ];
    for test_case in test_cases.into_iter() {
        let filter = PathFilter::new(test_case.filter_path);
        let result = filter.matches_path(test_case.path);
        match (result.as_ref(), test_case.result.as_ref()) {
            (None, None) => (),
            (Some(result), Some(expected_result)) => {
                assert_eq!(
                    sorted_entries(result),
                    sorted_entries(expected_result),
                    "unexpected result params: ({}).filter({}) => {:?} != {:?}",
                    test_case.filter_path,
                    test_case.path,
                    result,
                    expected_result,
                );
                assert_eq!(
                    result.glob(),
                    expected_result.glob(),
                    "unexpected result glob: ({}).filter({}) => {:?} != {:?}",
                    test_case.filter_path,
                    test_case.path,
                    result.glob(),
                    expected_result.glob(),
                );
            }
            _ => {
                panic!(
                    "unexpected result: ({}).filter({}) => {:?} != {:?}",
                    test_case.filter_path, test_case.path, result, test_case.result
                )
            }
        }
    }
}

#[test]
fn test_deserialize_uri_params() {
    let params = with_glob(with_params(&[("name", "glen dc"), ("age", "42")]), &["age"]);
    assert_eq!(params.glob(), Some("/age"));

    let entries = params.entries().unwrap();
    assert_eq!(entries.len(), 2);
    let mut name: Option<String> = None;
    let mut age: Option<u8> = None;
    for (key, value) in entries {
        match key.as_str() {
            "name" => name = Some(value),
            "age" => age = Some(value.parse().unwrap()),
            other => panic!("unexpected parameter {}", other),
        }
    }
    assert_eq!(name.unwrap(), "glen dc");
    assert_eq!(age.unwrap(), 42);
}

#[test]
fn entries_without_params_is_no_params() {
    let filter = PathFilter::new("/assets/*");
    let params = filter.matches_path("/assets/a.css").unwrap();
    let error = params.entries().unwrap_err();
    assert!(matches!(error.kind, ErrorKind::NoParams));
    assert!(matches!(UriParams::new().entries().unwrap_err().kind, ErrorKind::NoParams));
}

#[test]
fn entries_list_each_name_once() {
    let mut params = UriParams::new();
    params.insert("a".to_owned(), "1".to_owned());
    params.insert("b".to_owned(), "2".to_owned());
    params.insert("a".to_owned(), "3".to_owned());
    assert_eq!(
        sorted_entries(&params),
        Some(vec![("a".to_owned(), "3".to_owned()), ("b".to_owned(), "2".to_owned())])
    );
    assert_eq!(params.get("a"), Some("3"));
    assert_eq!(params.get("b"), Some("2"));
    assert_eq!(params.get("c"), None);
    assert_eq!(params.glob(), None);
}

#[test]
fn get_without_params_is_none() {
    let params = UriParams::new();
    assert_eq!(params.get("a"), None);
    assert_eq!(params.glob(), None);
}

#[test]
fn append_glob_joins_with_slashes() {
    let mut params = UriParams::new();
    params.append_glob("css");
    assert_eq!(params.glob(), Some("/css"));
    params.append_glob("reset.css");
    assert_eq!(params.glob(), Some("/css/reset.css"));
    params.append_glob("");
    assert_eq!(params.glob(), Some("/css/reset.css/"));
    assert!(params.entries().is_err());
}

#[test]
fn clone_keeps_params_and_glob() {
    let params = with_glob(with_params(&[("a", "1")]), &["x"]);
    let copy = params.clone();
    assert_eq!(copy.get("a"), Some("1"));
    assert_eq!(copy.glob(), Some("/x"));
    let filter = PathFilter::new("/a/:b/*");
    let copy = filter.clone();
    let found = copy.matches_path("/a/1/2/3").unwrap();
    assert_eq!(found.get("b"), Some("1"));
    assert_eq!(found.glob(), Some("/2/3"));
}

#[test]
fn literal_pattern_ignores_ascii_case_and_outer_slashes() {
    let filter = PathFilter::new("//Foo/BAR/");
    assert!(filter.matches_path("/fOO/bar").is_some());
    assert!(filter.matches_path("foo/bar///").is_some());
    assert!(filter.matches_path("/foo/bar/baz").is_none());
    assert!(filter.matches_path("/foo").is_none());
    assert!(filter.matches_path("/foo//bar").is_none());
    let found = filter.matches_path("/FOO/BAR").unwrap();
    assert!(found.entries().is_err());
    assert_eq!(found.glob(), None);
}

#[test]
fn pattern_is_lowercased_beyond_ascii() {
    let filter = PathFilter::new("/\u{c9}t\u{c9}");
    assert!(filter.matches_path("/\u{e9}t\u{e9}").is_some());
    assert!(filter.matches_path("/\u{e9}T\u{e9}").is_some());
    assert!(filter.matches_path("/\u{c9}t\u{c9}").is_none());
    let filter = PathFilter::new("/:\u{c9}/x");
    let found = filter.matches_path("/1/X").unwrap();
    assert_eq!(found.get("\u{e9}"), Some("1"));
    assert_eq!(found.get("\u{c9}"), None);
}

#[test]
fn empty_path_and_root_agree() {
    for pattern in ["", "/", "/foo", "/:a", "/*", "/a/*", "/:a/*", "*", ":x"] {
        let filter = PathFilter::new(pattern);
        let empty = filter.matches_path("");
        let root = filter.matches_path("/");
        assert_eq!(empty.is_some(), root.is_some(), "pattern {}", pattern);
        if let (Some(empty), Some(root)) = (empty, root) {
            assert_eq!(sorted_entries(&empty), sorted_entries(&root));
            assert_eq!(empty.glob(), root.glob());
        }
    }
    let filter = PathFilter::new("/a/:b/*");
    let plain = filter.matches_path("a/1/2").unwrap();
    let slashed = filter.matches_path("///a/1/2//").unwrap();
    assert_eq!(sorted_entries(&plain), sorted_entries(&slashed));
    assert_eq!(plain.glob(), slashed.glob());
}

#[test]
fn param_never_captures_empty_segment() {
    assert!(PathFilter::new("/:x").matches_path("/").is_none());
    assert!(PathFilter::new("/:x").matches_path("").is_none());
    assert!(PathFilter::new("/a/:x/b").matches_path("/a//b").is_none());
    assert!(PathFilter::new("/a/:x/b").matches_path("/a/1/b").is_some());
}

#[test]
fn glob_is_slash_joined_in_order() {
    let found = PathFilter::new("/assets/*").matches_path("/assets/css/reset.css").unwrap();
    assert_eq!(found.glob(), Some("/css/reset.css"));
    assert!(found.entries().is_err());
    let found = PathFilter::new("/assets/*").matches_path("/assets/a//b").unwrap();
    assert_eq!(found.glob(), Some("/a//b"));
}

#[test]
fn mixed_pattern_yields_param_and_glob() {
    let found = PathFilter::new("/assets/:local/*").matches_path("/assets/eu/css/reset.css").unwrap();
    assert_eq!(found.get("local"), Some("eu"));
    assert_eq!(found.glob(), Some("/css/reset.css"));
    assert_eq!(sorted_entries(&found), Some(vec![("local".to_owned(), "eu".to_owned())]));
}

#[test]
fn param_value_is_percent_decoded() {
    let found = PathFilter::new("/person/:name/age").matches_path("/person/glen%20dc/age").unwrap();
    assert_eq!(found.get("name"), Some("glen dc"));
    assert_eq!(found.glob(), None);
}

#[test]
fn decode_segment_values() {
    assert_eq!(decode_segment("glen%20dc"), "glen dc");
    assert_eq!(decode_segment("plain"), "plain");
    assert_eq!(decode_segment(""), "");
    assert_eq!(decode_segment("%41%6a%6A"), "Ajj");
    assert_eq!(decode_segment("100%"), "100%");
    assert_eq!(decode_segment("%4"), "%4");
    assert_eq!(decode_segment("%zz"), "%zz");
    assert_eq!(decode_segment("%%41"), "%A");
    assert_eq!(decode_segment("%C3%A9"), "\u{e9}");
    assert_eq!(decode_segment("%F0%9F%92%96"), "\u{1f496}");
    assert_eq!(decode_segment("\u{e9}%20"), "\u{e9} ");
}

#[test]
fn invalid_utf8_after_decoding_keeps_raw_segment() {
    assert_eq!(decode_segment("%FF"), "%FF");
    assert_eq!(decode_segment("a%00%9F%92%96"), "a%00%9F%92%96");
    let found = PathFilter::new("/:x").matches_path("/%C3").unwrap();
    assert_eq!(found.get("x"), Some("%C3"));
}

#[test]
fn glob_segments_are_not_decoded() {
    let found = PathFilter::new("/*").matches_path("/a%20b/c").unwrap();
    assert_eq!(found.glob(), Some("/a%20b/c"));
}

#[test]
fn glob_without_leftover_segment_captures_nothing() {
    let found = PathFilter::new("/assets/*").matches_path("/assets").unwrap();
    assert_eq!(found.glob(), None);
    assert!(found.entries().is_err());
    let found = PathFilter::new("/assets/:local/*").matches_path("/assets/eu/").unwrap();
    assert_eq!(found.get("local"), Some("eu"));
    assert_eq!(found.glob(), None);
    assert!(PathFilter::new("/assets/:local/*").matches_path("/assets").is_none());
    assert!(PathFilter::new("/a/b/*").matches_path("/a").is_none());
}

#[test]
fn star_that_is_not_last_is_a_literal() {
    let filter = PathFilter::new("/foo/*/bar");
    assert!(filter.matches_path("/foo/*/bar").is_some());
    assert!(filter.matches_path("/foo/x/bar").is_none());
    assert!(filter.matches_path("/foo/*/bar/baz").is_none());
    let found = filter.matches_path("/FOO/*/BAR").unwrap();
    assert_eq!(found.glob(), None);
    let filter = PathFilter::new("/*/*");
    assert!(filter.matches_path("/x/y").is_none());
    assert_eq!(filter.matches_path("/*/y/z").unwrap().glob(), Some("/y/z"));
}

#[test]
fn repeated_slashes_in_a_pattern_leave_no_fragment() {
    let filter = PathFilter::new("//a///:b//");
    let found = filter.matches_path("/a/1").unwrap();
    assert_eq!(found.get("b"), Some("1"));
    assert!(filter.matches_path("/a//1").is_none());
}

#[test]
fn param_names_lose_colons_and_case() {
    let found = PathFilter::new("/::Name").matches_path("/v").unwrap();
    assert_eq!(found.get("name"), Some("v"));
    assert_eq!(found.get("Name"), None);
    assert_eq!(found.get(":name"), None);
    let found = PathFilter::new("/:").matches_path("/v").unwrap();
    assert_eq!(found.get(""), Some("v"));
}

#[test]
fn later_param_of_same_name_wins() {
    let found = PathFilter::new("/:a/:A/:b").matches_path("/1/2/3").unwrap();
    assert_eq!(found.get("a"), Some("2"));
    assert_eq!(found.get("b"), Some("3"));
    assert_eq!(found.entries().unwrap().len(), 2);
}

#[test]
fn literal_fragments_ignore_ascii_case() {
    let filter = PathFilter::new("/Book/:title/AUTHOR");
    let found = filter.matches_path("/bOOk/War%20and%20Peace/author").unwrap();
    assert_eq!(found.get("title"), Some("War and Peace"));
    assert!(filter.matches_path("/book/x/authors").is_none());
}

#[test]
fn path_is_too_short_or_too_long() {
    let filter = PathFilter::new("/a/:b");
    assert!(filter.matches_path("/a").is_none());
    assert!(filter.matches_path("/a/1/2").is_none());
    assert!(filter.matches_path("/a/1").is_some());
}

#[test]
fn matches_records_params_in_the_context() {
    let filter = PathFilter::new("/user/:id/*");
    let mut ext = Extensions::new();
    assert!(!filter.matches(&mut ext, "/users/7"));
    assert!(ext.uri_params.is_none());
    assert!(filter.matches(&mut ext, "/user/7/a/b"));
    let params = ext.uri_params.as_ref().unwrap();
    assert_eq!(params.get("id"), Some("7"));
    assert_eq!(params.glob(), Some("/a/b"));
    assert!(ext.basic.is_none());
    assert!(ext.filter.is_none());
    assert!(!filter.matches(&mut ext, "/nope"));
    assert_eq!(ext.uri_params.as_ref().unwrap().get("id"), Some("7"));
    assert!(filter.matches(&mut ext, "/user/8"));
    assert_eq!(ext.uri_params.as_ref().unwrap().get("id"), Some("8"));
    assert_eq!(ext.uri_params.as_ref().unwrap().glob(), None);
}
