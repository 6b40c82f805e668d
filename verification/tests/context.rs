//! The lines around a line of a file.

use bulked::context::{add_context_to_match, context_in, context_of_read, extract_context, with_context, ContextError};
use bulked::filesystem::errors::FilesystemError;
use bulked::filesystem::memory::MemoryFS;
use bulked::types::MatchResult;

#[test]
fn test_extract_context_middle_of_file() {
    let mut fs = MemoryFS::new();
    let path = "/test/file.txt";
    // Create a file with 10 lines
    let content = (1..=10)
        .map(|i| format!("line {}", i))
        .collect::<Vec<_>>()
        .join("\n");
    fs.add_file(path, &content).unwrap();

    // Match on line 5, request 2 lines of context
    let (before, after) = extract_context(&fs, path, 5, 2).unwrap();

    // Should get lines 3-4 before
    assert_eq!(before.len(), 2);
    assert_eq!(before[0].line_number, 3);
    assert_eq!(before[0].content, "line 3");
    assert_eq!(before[1].line_number, 4);
    assert_eq!(before[1].content, "line 4");

    // Should get lines 6-7 after
    assert_eq!(after.len(), 2);
    assert_eq!(after[0].line_number, 6);
    assert_eq!(after[0].content, "line 6");
    assert_eq!(after[1].line_number, 7);
    assert_eq!(after[1].content, "line 7");
}

#[test]
fn test_extract_context_near_start() {
    let mut fs = MemoryFS::new();
    let path = "/test/file.txt";
    let content = "line 1\nline 2\nline 3\nline 4\nline 5";
    fs.add_file(path, content).unwrap();

    // Match on line 2, request 5 lines of context
    let (before, after) = extract_context(&fs, path, 2, 5).unwrap();

    // Should only get line 1 before (not 5 lines)
    assert_eq!(before.len(), 1);
    assert_eq!(before[0].line_number, 1);
    assert_eq!(before[0].content, "line 1");

    // Should get lines 3-5 after
    assert_eq!(after.len(), 3);
}

#[test]
fn test_extract_context_near_end() {
    let mut fs = MemoryFS::new();
    let path = "/test/file.txt";
    let content = "line 1\nline 2\nline 3\nline 4\nline 5";
    fs.add_file(path, content).unwrap();

    // Match on line 4, request 5 lines of context
    let (before, after) = extract_context(&fs, path, 4, 5).unwrap();

    // Should get lines 1-3 before (within bounds, but limited by line 1)
    assert_eq!(before.len(), 3);

    // Should only get line 5 after (not 5 lines)
    assert_eq!(after.len(), 1);
    assert_eq!(after[0].line_number, 5);
    assert_eq!(after[0].content, "line 5");
}

#[test]
fn test_extract_context_first_line() {
    let mut fs = MemoryFS::new();
    let path = "/test/file.txt";
    let content = "line 1\nline 2\nline 3";
    fs.add_file(path, content).unwrap();

    // Match on line 1
    let (before, after) = extract_context(&fs, path, 1, 2).unwrap();

    // No context before
    assert_eq!(before.len(), 0);

    // Should get lines 2-3 after
    assert_eq!(after.len(), 2);
    assert_eq!(after[0].line_number, 2);
    assert_eq!(after[1].line_number, 3);
}

#[test]
fn test_extract_context_last_line() {
    let mut fs = MemoryFS::new();
    let path = "/test/file.txt";
    let content = "line 1\nline 2\nline 3";
    fs.add_file(path, content).unwrap();

    // Match on line 3 (last line)
    let (before, after) = extract_context(&fs, path, 3, 2).unwrap();

    // Should get lines 1-2 before
    assert_eq!(before.len(), 2);
    assert_eq!(before[0].line_number, 1);
    assert_eq!(before[1].line_number, 2);

    // No context after
    assert_eq!(after.len(), 0);
}

#[test]
fn test_extract_context_single_line_file() {
    let mut fs = MemoryFS::new();
    let path = "/test/file.txt";
    fs.add_file(path, "only line").unwrap();

    // Match on line 1
    let (before, after) = extract_context(&fs, path, 1, 20).unwrap();

    // No context available
    assert_eq!(before.len(), 0);
    assert_eq!(after.len(), 0);
}

#[test]
fn test_extract_context_empty_file() {
    let mut fs = MemoryFS::new();
    let path = "/test/file.txt";
    fs.add_file(path, "").unwrap();

    // Try to match on line 1 of empty file (should error)
    let result = extract_context(&fs, path, 1, 2);
    assert!(result.is_err());
}

#[test]
fn test_extract_context_invalid_line_number() {
    let mut fs = MemoryFS::new();
    let path = "/test/file.txt";
    fs.add_file(path, "line 1\nline 2").unwrap();

    // Line 0 is invalid
    assert!(extract_context(&fs, path, 0, 2).is_err());

    // Line beyond file length
    assert!(extract_context(&fs, path, 100, 2).is_err());
}

#[test]
fn test_add_context_to_match() {
    let mut fs = MemoryFS::new();
    let path = "/test/file.txt";
    let content = "line 1\nline 2\nMATCH\nline 4\nline 5";
    fs.add_file(path, content).unwrap();

    let match_result = MatchResult {
        file_path: path.to_string(),
        line_number: 3,
        line_content: "MATCH".to_string(),
        line_match: None,
        byte_offset: 14,
        context_before: vec![],
        context_after: vec![],
    };

    let result = add_context_to_match(&fs, match_result, 1);

    assert_eq!(result.context_before.len(), 1);
    assert_eq!(result.context_before[0].content, "line 2");

    assert_eq!(result.context_after.len(), 1);
    assert_eq!(result.context_after[0].content, "line 4");
}

fn texts(lines: &[bulked::types::ContextLine]) -> Vec<(usize, &str)> {
    lines.iter().map(|l| (l.line_number, l.content.as_str())).collect()
}

#[test]
fn context_lines_come_without_their_line_ends() {
    let content = "a\r\nb\n\r\nd\r";
    let (before, after) = context_in(content, 3, usize::MAX).unwrap();
    assert_eq!(texts(&before), [(1, "a"), (2, "b")]);
    // A carriage return that no line feed follows stays.
    assert_eq!(texts(&after), [(4, "d\r")]);
    let (before, after) = context_in(content, 2, 0).unwrap();
    assert!(before.is_empty() && after.is_empty());
}

#[test]
fn context_failures_tell_the_numbers() {
    assert!(matches!(context_in("a\nb\n", 0, 1), Err(ContextError::LineZero)));
    assert!(matches!(
        context_in("a\nb\n", 3, 1),
        Err(ContextError::BeyondEnd { match_line: 3, total_lines: 2 })
    ));
    assert!(context_in("a\nb\n", 2, 1).is_ok());
    let fs = MemoryFS::new();
    assert!(matches!(extract_context(&fs, "/none", 1, 1), Err(ContextError::Read { .. })));
    assert!(matches!(extract_context(&fs, "/none", 0, 1), Err(ContextError::LineZero)));
}

#[test]
fn with_context_keeps_a_match_where_nothing_was_found() {
    let m = MatchResult {
        file_path: "f".to_string(),
        line_number: 9,
        line_content: "x".to_string(),
        line_match: Some(0..1),
        byte_offset: 3,
        context_before: vec![],
        context_after: vec![],
    };
    let kept = with_context(m.clone(), Err(ContextError::LineZero));
    assert_eq!(kept, m);
    let fs = MemoryFS::new();
    assert_eq!(add_context_to_match(&fs, m.clone(), 2), m);
}

#[test]
fn context_of_read_goes_by_what_was_read() {
    let (before, after) = context_of_read(Ok("a\nb\nc\nd\n".to_string()), 2, 1).unwrap();
    assert_eq!(texts(&before), [(1, "a")]);
    assert_eq!(texts(&after), [(3, "c")]);
    assert!(matches!(
        context_of_read(Ok("a\n".to_string()), 2, 1),
        Err(ContextError::BeyondEnd { match_line: 2, total_lines: 1 })
    ));
    assert!(matches!(
        context_of_read(Err(FilesystemError::FileNotFound { path: "/p".to_string() }), 2, 1),
        Err(ContextError::Read { source: FilesystemError::FileNotFound { path } }) if path == "/p"
    ));
}

#[test]
fn add_context_leaves_line_zero_and_lines_beyond_the_end_alone() {
    let mut fs = MemoryFS::new();
    fs.add_file("f", "a\nb\n").unwrap();
    let m = MatchResult {
        file_path: "f".to_string(),
        line_number: 0,
        line_content: "x".to_string(),
        line_match: None,
        byte_offset: 0,
        context_before: vec![bulked::types::ContextLine { line_number: 7, content: "kept".to_string() }],
        context_after: vec![],
    };
    assert_eq!(add_context_to_match(&fs, m.clone(), 2), m);
    let beyond = MatchResult { line_number: 3, ..m.clone() };
    assert_eq!(add_context_to_match(&fs, beyond.clone(), 2), beyond);
    // Where the file has the line, the lines around it take the place of
    // those that the match held.
    let second = add_context_to_match(&fs, MatchResult { line_number: 2, ..m }, 2);
    assert_eq!(texts(&second.context_before), [(1, "a")]);
    assert!(second.context_after.is_empty());
    assert_eq!((second.line_number, second.line_content.as_str()), (2, "x"));
}
