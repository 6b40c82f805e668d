//! The search with its doubles: walker, matcher and searcher.

use bulked::execute::ExecuteConfig;
use bulked::filesystem::memory::MemoryFS;
use bulked::matcher::info::{copy_of, MatchInfo};
use bulked::matcher::stub::{contains_bytes, Predicate, StubMatcher};
use bulked::matcher::Matcher;
use bulked::searcher::{add_outcome, check_file, matches_of, Searcher};
use bulked::filesystem::errors::FilesystemError;
use bulked::types::{MatchResult, SearchError, SearchResult};
use bulked::walker::simple::SimpleWalker;
use bulked::walker::Walker;

fn info(line_num: usize, byte_offset: usize, line_content: &str) -> MatchInfo {
    MatchInfo {
        line_num,
        byte_offset,
        line_content: line_content.to_string(),
        line_match: None,
        previous_lines: String::new(),
        next_lines: String::new(),
    }
}

#[test]
fn test_execute_config_builder() {
    let config = ExecuteConfig::new("test", "/path")
        .with_context_lines(10)
        .with_respect_gitignore(false);

    assert_eq!(config.pattern, "test");
    assert_eq!(config.path, "/path");
    assert_eq!(config.context_lines, 10);
    assert!(!config.respect_gitignore);
}

#[test]
fn test_execute_config_defaults() {
    let config = ExecuteConfig::new("pattern", "/some/path");

    assert_eq!(config.context_lines, 20);
    assert!(config.respect_gitignore);
}

#[test]
fn execute_config_hidden_is_off_until_set() {
    let config = ExecuteConfig::new("p", ".");
    assert!(!config.hidden);
    let config = config.with_hidden(true);
    assert!(config.hidden);
    assert_eq!((config.pattern.as_str(), config.context_lines), ("p", 20));
}

#[test]
fn test_search_result_new() {
    let result = SearchResult::new();
    assert!(result.matches.is_empty());
}

#[test]
fn test_search_result_add_match() {
    let mut result = SearchResult::new();
    let match_result = MatchResult {
        file_path: "/test/file.txt".to_string(),
        line_number: 42,
        line_content: "test line".to_string(),
        line_match: None,
        byte_offset: 100,
        context_before: vec![],
        context_after: vec![],
    };
    result.add_match(match_result.clone());
    assert_eq!(result.matches.len(), 1);
    assert_eq!(result.matches[0], match_result);
}

#[test]
fn mod_test_simple_walker_empty() {
    let walker = SimpleWalker::new(vec![]);
    let files: Vec<String> = walker.files();
    assert_eq!(files.len(), 0);
}

#[test]
fn test_simple_walker_with_files() {
    let paths = vec![
        "/test/file1.txt".to_string(),
        "/test/file2.txt".to_string(),
        "/test/subdir/file3.txt".to_string(),
    ];

    let walker = SimpleWalker::new(paths.clone());
    let files: Vec<String> = walker.files();

    assert_eq!(files.len(), 3);
    assert_eq!(files[0], "/test/file1.txt");
    assert_eq!(files[1], "/test/file2.txt");
    assert_eq!(files[2], "/test/subdir/file3.txt");
}

#[test]
fn simple_test_simple_walker_empty() {
    let walker = SimpleWalker::new(vec![]);
    let files: Vec<String> = walker.files();
    assert!(files.is_empty());
}

#[test]
fn test_simple_walker_single_file() {
    let walker = SimpleWalker::new(vec!["/test/file.txt".to_string()]);
    let files: Vec<String> = walker.files();

    assert_eq!(files.len(), 1);
    assert_eq!(files[0], "/test/file.txt");
}

#[test]
fn test_simple_walker_multiple_files() {
    let walker = SimpleWalker::new(vec![
        "/test/file1.txt".to_string(),
        "/test/file2.txt".to_string(),
        "/test/file3.txt".to_string(),
    ]);

    let files: Vec<String> = walker.files();

    assert_eq!(files.len(), 3);
}

#[test]
fn test_simple_walker_from_paths() {
    let walker = SimpleWalker::from_paths(&["/test/file1.txt", "/test/file2.txt"]);

    let files: Vec<String> = walker.files();

    assert_eq!(files.len(), 2);
    assert_eq!(files[0], "/test/file1.txt");
    assert_eq!(files[1], "/test/file2.txt");
}

#[test]
fn test_stub_matcher_returns_predefined_matches() {
    let mut matcher = StubMatcher::new();
    matcher.add_match(info(10, 100, "test line"));

    let matches = matcher.search_in_content("any content");

    assert_eq!(matches.len(), 1);
    assert_eq!(matches[0].line_num, 10);
    assert_eq!(matches[0].line_content, "test line");
}

#[test]
fn test_stub_matcher_new_has_no_matches() {
    let matcher = StubMatcher::new();
    let matches = matcher.search_in_content("any content");
    assert_eq!(matches.len(), 0);
}

#[test]
fn test_stub_matcher_add_match() {
    let mut matcher = StubMatcher::new();
    matcher.add_match(info(5, 42, "test line"));

    let matches = matcher.search_in_content("ignored");

    assert_eq!(matches.len(), 1);
    assert_eq!(matches[0].line_num, 5);
    assert_eq!(matches[0].byte_offset, 42);
    assert_eq!(matches[0].line_content, "test line");
}

#[test]
fn test_stub_matcher_multiple_matches() {
    let mut matcher = StubMatcher::new();
    matcher.add_match(info(1, 0, "first"));
    matcher.add_match(info(2, 10, "second"));

    let matches = matcher.search_in_content("ignored");

    assert_eq!(matches.len(), 2);
    assert_eq!(matches[0].line_content, "first");
    assert_eq!(matches[1].line_content, "second");
}

#[test]
fn test_stub_matcher_always_match() {
    let matcher = StubMatcher::always_match();

    assert!(matcher.is_match("anything"));
    assert!(matcher.is_match(""));
    assert!(matcher.is_match("whatever"));
}

#[test]
fn test_stub_matcher_never_match() {
    let matcher = StubMatcher::never_match();

    assert!(!matcher.is_match("anything"));
    assert!(!matcher.is_match(""));
    assert!(!matcher.is_match("whatever"));
}

#[test]
fn test_stub_matcher_match_containing() {
    let matcher = StubMatcher::match_containing("target".to_string());

    assert!(matcher.is_match("this has target in it"));
    assert!(matcher.is_match("target"));
    assert!(!matcher.is_match("no match here"));
}

#[test]
fn test_stub_matcher_compile_always_succeeds() {
    let result = StubMatcher::compile("any pattern");
    assert!(result.is_ok());
}

#[test]
fn stub_matcher_goes_by_the_predicate_that_was_set() {
    let mut matcher = StubMatcher::default();
    assert!(!matcher.is_match("x"));
    matcher.set_predicate(Predicate::Containing("".to_string()));
    assert!(matcher.is_match(""));
    matcher.set_predicate(Predicate::Containing("ab".to_string()));
    assert!(matcher.matches_text("aab"));
    assert!(!matcher.matches_text("a"));
    assert!(!matcher.matches_text("ba"));
    matcher.set_predicate(Predicate::Always);
    assert!(matcher.is_match("ba"));
    assert!(matcher.search_path("/any").is_none());
    assert!(contains_bytes(b"xyz", b"yz"));
    assert!(!contains_bytes(b"xyz", b"zy"));
    let original = MatchInfo { line_match: Some(2..5), ..info(3, 9, "line") };
    assert_eq!(copy_of(&original), original);
}

/// All three parts of the search are doubles.
#[test]
fn test_searcher_with_all_test_doubles() {
    let mut fs = MemoryFS::new();
    let test_path = "/test/foo.txt";
    fs.add_file(test_path, "line 1\nTARGET line\nline 3").unwrap();

    let mut stub_matcher = StubMatcher::new();
    stub_matcher.add_match(info(2, 7, "TARGET line"));

    let walker = SimpleWalker::new(vec![test_path.to_string()]);
    let searcher = Searcher::new(fs, stub_matcher, walker);

    let result = searcher.search_all().unwrap();

    assert_eq!(result.matches.len(), 1);

    let match_result = &result.matches[0];
    assert_eq!(match_result.file_path, test_path);
    assert_eq!(match_result.line_number, 2);
    assert_eq!(match_result.line_content, "TARGET line");
}

#[test]
fn searcher_goes_on_behind_a_file_that_is_missing() {
    let mut fs = MemoryFS::new();
    fs.add_file("/b", "text").unwrap();
    let mut matcher = StubMatcher::new();
    matcher.add_match(info(1, 0, "text"));
    let walker = SimpleWalker::from_paths(&["/a", "/b"]);
    let result = Searcher::new(fs, matcher, walker).search_all();
    assert!(matches!(
        result,
        Err(SearchError::FileReadError { source: FilesystemError::FileNotFound { path } }) if path == "/a"
    ));
}

#[test]
fn check_file_tells_what_is_missing() {
    assert!(check_file("/p", true, true).is_ok());
    assert!(matches!(
        check_file("/p", false, true),
        Err(SearchError::FileReadError { source: FilesystemError::FileNotFound { path } }) if path == "/p"
    ));
    assert!(matches!(
        check_file("/p", true, false),
        Err(SearchError::FileReadError { source: FilesystemError::NotAFile { path } }) if path == "/p"
    ));
}

#[test]
fn matches_number_their_context_lines() {
    let with_context = MatchInfo {
        previous_lines: "two\nthree\n".to_string(),
        next_lines: "five\r\nsix".to_string(),
        line_match: Some(1..3),
        ..info(4, 14, "four")
    };
    let m = MatchResult::from_match_info(with_context.clone(), "f".to_string());
    assert_eq!((m.file_path.as_str(), m.line_number, m.byte_offset), ("f", 4, 14));
    assert_eq!(m.line_match, Some(1..3));
    let lines = |all: &[bulked::types::ContextLine]| {
        all.iter().map(|l| (l.line_number, l.content.clone())).collect::<Vec<_>>()
    };
    assert_eq!(lines(&m.context_before), [(2, "two\n".to_string()), (3, "three\n".to_string())]);
    assert_eq!(lines(&m.context_after), [(5, "five\r\n".to_string()), (6, "six".to_string())]);
    assert_eq!(MatchResult::checked_from_match_info(with_context.clone(), "f".to_string()), Some(m));
    // More lines before the match than its line number allows.
    let wrong = MatchInfo { line_num: 1, ..with_context };
    assert_eq!(MatchResult::checked_from_match_info(wrong.clone(), "f".to_string()), None);
    assert!(matches!(
        matches_of(&vec![info(1, 0, "ok"), wrong], "f"),
        Err(SearchError::MatcherError { .. })
    ));
    assert_eq!(matches_of(&vec![info(1, 0, "ok")], "f").unwrap().len(), 1);
}

#[test]
fn search_files_names_the_files_of_its_matches() {
    let mut fs = MemoryFS::new();
    fs.add_file("/a", "x").unwrap();
    fs.add_file("/b", "y").unwrap();
    let mut matcher = StubMatcher::new();
    matcher.add_match(info(1, 0, "line"));
    let searcher = Searcher::new(fs, matcher, SimpleWalker::new(vec![]));
    let files = vec!["/b".to_string(), "/a".to_string()];
    let result = searcher.search_files(&files).unwrap();
    let paths: Vec<&str> = result.matches.iter().map(|m| m.file_path.as_str()).collect();
    assert_eq!(paths, ["/b", "/a"]);
    assert!(searcher.search_files(&vec![]).unwrap().matches.is_empty());
    assert!(searcher.search_all().unwrap().matches.is_empty());
}

fn found(path: &str, line: usize) -> MatchResult {
    MatchResult::from_match_info(info(line, 0, "text"), path.to_string())
}

fn missing(path: &str) -> SearchError {
    SearchError::FileReadError { source: FilesystemError::FileNotFound { path: path.to_string() } }
}

#[test]
fn add_outcome_gathers_matches_and_keeps_the_first_failure() {
    let mut so_far = SearchResult::new();
    so_far.add_match(found("/a", 1));
    let sum = add_outcome(Ok(so_far.clone()), Ok(vec![found("/b", 2), found("/b", 3)])).unwrap();
    assert_eq!(sum.matches, [found("/a", 1), found("/b", 2), found("/b", 3)]);
    let same = add_outcome(Ok(so_far.clone()), Ok(vec![])).unwrap();
    assert_eq!(same.matches, [found("/a", 1)]);
    assert!(matches!(
        add_outcome(Ok(so_far), Err(missing("/b"))),
        Err(SearchError::FileReadError { source: FilesystemError::FileNotFound { path } }) if path == "/b"
    ));
    // A failure stays, whatever the next file gives.
    assert!(matches!(
        add_outcome(Err(missing("/a")), Ok(vec![found("/b", 2)])),
        Err(SearchError::FileReadError { source: FilesystemError::FileNotFound { path } }) if path == "/a"
    ));
    assert!(matches!(
        add_outcome(Err(missing("/a")), Err(missing("/b"))),
        Err(SearchError::FileReadError { source: FilesystemError::FileNotFound { path } }) if path == "/a"
    ));
}

#[test]
fn searched_matches_number_the_lines_around_them() {
    let mut fs = MemoryFS::new();
    fs.add_file("/a", "one
two
three
four
").unwrap();
    let mut matcher = StubMatcher::new();
    matcher.add_match(MatchInfo {
        previous_lines: "one
two
".to_string(),
        next_lines: "four
".to_string(),
        ..info(3, 8, "three")
    });
    let searcher = Searcher::new(fs, matcher, SimpleWalker::from_paths(&["/a"]));
    let result = searcher.search_all().unwrap();
    assert_eq!(result.matches.len(), 1);
    let m = &result.matches[0];
    assert_eq!((m.file_path.as_str(), m.line_number), ("/a", 3));
    let before: Vec<usize> = m.context_before.iter().map(|l| l.line_number).collect();
    let after: Vec<usize> = m.context_after.iter().map(|l| l.line_number).collect();
    assert_eq!(before, [1, 2]);
    assert_eq!(after, [4]);
}

#[test]
fn stub_matcher_compiles_to_one_that_never_matches() {
    let matcher = StubMatcher::compile("a+").unwrap();
    assert!(matcher.search_in_content("aaa").is_empty());
    assert!(!matcher.is_match("aaa"));
    assert!(matcher.search_path("/a").is_none());
    let never = StubMatcher::never_match();
    assert!(never.search_in_content("aaa").is_empty());
    assert!(!never.is_match(""));
}

#[test]
fn test_searcher_handles_nonexistent_files() {
    let fs = MemoryFS::new();
    let nonexistent = "/nonexistent.txt".to_string();

    let matcher = StubMatcher::compile("test").unwrap();
    let walker = SimpleWalker::new(vec![nonexistent.clone()]);

    let searcher = Searcher::new(fs, matcher, walker);
    let result = searcher.search_all();

    assert!(result.is_err());
    match result.unwrap_err() {
        SearchError::FileReadError { .. } => {}
        _ => panic!("Expected FileReadError"),
    }
}
