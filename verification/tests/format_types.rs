//! Chunks and documents: merging, sorting, grouping and writing.

use bulked::format::types::{Chunk, Format, Rank, rank_bytes};
use bulked::types::{ContextLine, MatchResult};

fn chunk(path: &str, start_line: usize, num_lines: usize, content: &str) -> Chunk {
    Chunk::new(path.to_string(), start_line, num_lines, content.to_string())
}

#[test]
fn types_test_chunk_new() {
    let chunk = Chunk::new("test.txt".to_string(), 42, 1, "test content".to_string());
    assert_eq!(chunk.start_line, 42);
    assert_eq!(chunk.num_lines, 1);
    assert_eq!(chunk.content, "test content");
    assert_eq!(chunk.path, "test.txt");
}

#[test]
fn types_test_format_to_string_single_chunk() {
    let format = Format(vec![chunk(
        "src/main.rs",
        10,
        3,
        "fn main() {\n    println!(\"Hello\");\n}",
    )]);

    let output = format.to_string();
    assert!(output.contains("@src/main.rs:10:3"));
    assert!(output.contains("fn main()"));
    assert!(output.contains("@@@"));
}

#[test]
fn types_test_format_to_string_multiple_chunks() {
    let format = Format(vec![
        chunk("test.txt", 5, 1, "line 5"),
        chunk("test.txt", 10, 1, "line 10"),
    ]);

    let output = format.to_string();
    assert!(output.contains("@test.txt:5:1"));
    assert!(output.contains("@test.txt:10:1"));
    assert!(output.contains("line 5"));
    assert!(output.contains("line 10"));
    // Should have two @@@ delimiters
    assert_eq!(output.matches("@@@").count(), 2);
}

#[test]
fn types_test_format_to_string_with_special_chars() {
    let format = Format(vec![chunk("test.txt", 1, 1, "user@domain.com\\path")]);

    let output = format.to_string();
    // Special characters should be escaped
    assert!(output.contains("user\\@domain.com\\\\path"));
}

#[test]
fn format_test_format_to_string_single_chunk() {
    let format = Format::new(vec![chunk(
        "src/main.rs",
        10,
        3,
        "fn main() {\n    println!(\"Hello\");\n}",
    )]);

    let output = format.to_string();
    assert!(output.contains("@src/main.rs:10:3"));
    assert!(output.contains("fn main()"));
    assert!(output.contains("@@@"));
}

#[test]
fn format_test_format_to_string_multiple_chunks() {
    let format = Format::new(vec![
        chunk("test.txt", 5, 1, "line 5"),
        chunk("test.txt", 10, 1, "line 10"),
    ]);

    let output = format.to_string();
    assert!(output.contains("@test.txt:5:1"));
    assert!(output.contains("@test.txt:10:1"));
    assert!(output.contains("line 5"));
    assert!(output.contains("line 10"));
    // Should have two @@@ delimiters
    assert_eq!(output.matches("@@@").count(), 2);
}

#[test]
fn format_test_format_to_string_with_special_chars() {
    let format = Format::new(vec![chunk("test.txt", 1, 1, "user@domain.com\\path")]);

    let output = format.to_string();
    // Special characters should be escaped
    assert!(output.contains("user\\@domain.com\\\\path"));
}

#[test]
fn test_chunk_can_merge_same_path_adjacent() {
    let chunk1 = chunk("test.txt", 1, 3, "line1\nline2\nline3");
    let chunk2 = chunk("test.txt", 4, 2, "line4\nline5");
    assert!(chunk1.can_merge(&chunk2));
}

#[test]
fn test_chunk_can_merge_overlapping() {
    let chunk1 = chunk("test.txt", 1, 4, "line1\nline2\nline3\nline4");
    let chunk2 = chunk("test.txt", 3, 3, "line3\nline4\nline5");
    assert!(chunk1.can_merge(&chunk2));
}

#[test]
fn test_chunk_cannot_merge_different_paths() {
    let chunk1 = chunk("test1.txt", 1, 3, "content1");
    let chunk2 = chunk("test2.txt", 1, 3, "content2");
    assert!(!chunk1.can_merge(&chunk2));
}

#[test]
fn test_chunk_cannot_merge_non_overlapping() {
    let chunk1 = chunk("test.txt", 1, 3, "content1");
    let chunk2 = chunk("test.txt", 5, 3, "content2");
    assert!(!chunk1.can_merge(&chunk2));
}

#[test]
fn test_chunk_merge_adjacent() {
    let mut chunk1 = chunk("test.txt", 1, 3, "line1\nline2\nline3");
    let chunk2 = chunk("test.txt", 4, 2, "line4\nline5");

    chunk1.merge(chunk2).unwrap();

    assert_eq!(chunk1.start_line, 1);
    assert_eq!(chunk1.num_lines, 5);
    assert_eq!(chunk1.content, "line1\nline2\nline3\nline4\nline5");
}

#[test]
fn test_chunk_merge_overlapping() {
    let mut chunk1 = chunk("test.txt", 1, 4, "line1\nline2\nline3\nline4");
    let chunk2 = chunk("test.txt", 3, 3, "line3\nline4\nline5");

    chunk1.merge(chunk2).unwrap();

    assert_eq!(chunk1.start_line, 1);
    assert_eq!(chunk1.num_lines, 5);
    // The merge keeps chunk1's content for the overlap and appends the rest
    assert_eq!(chunk1.content, "line1\nline2\nline3\nline4\nline5");
}

#[test]
fn test_chunk_merge_contained() {
    let mut chunk1 = chunk("test.txt", 1, 5, "line1\nline2\nline3\nline4\nline5");
    let chunk2 = chunk("test.txt", 2, 2, "line2\nline3");

    chunk1.merge(chunk2).unwrap();

    assert_eq!(chunk1.start_line, 1);
    assert_eq!(chunk1.num_lines, 5);
    // chunk2 is completely contained in chunk1, so content stays the same
    assert_eq!(chunk1.content, "line1\nline2\nline3\nline4\nline5");
}

#[test]
fn test_chunk_merge_reverse_order() {
    let mut chunk1 = chunk("test.txt", 4, 2, "line4\nline5");
    let chunk2 = chunk("test.txt", 1, 3, "line1\nline2\nline3");

    chunk1.merge(chunk2).unwrap();

    assert_eq!(chunk1.start_line, 1);
    assert_eq!(chunk1.num_lines, 5);
    assert_eq!(chunk1.content, "line1\nline2\nline3\nline4\nline5");
}

#[test]
fn test_chunk_merge_returns_error_for_different_paths() {
    let mut chunk1 = chunk("test1.txt", 1, 3, "content1");
    let chunk2 = chunk("test2.txt", 1, 3, "content2");

    let result = chunk1.merge(chunk2);
    assert!(result.is_err());
}

#[test]
fn test_format_merge_empty() {
    let mut format = Format(vec![]);
    format.merge();
    assert_eq!(format.len(), 0);
}

#[test]
fn test_format_merge_single_chunk() {
    let mut format = Format(vec![chunk("test.txt", 1, 3, "line1\nline2\nline3")]);
    format.merge();
    assert_eq!(format.len(), 1);
    assert_eq!(format.0[0].start_line, 1);
    assert_eq!(format.0[0].num_lines, 3);
}

#[test]
fn test_format_merge_two_adjacent_chunks() {
    let mut format = Format(vec![
        chunk("test.txt", 1, 3, "line1\nline2\nline3"),
        chunk("test.txt", 4, 2, "line4\nline5"),
    ]);
    format.merge();
    assert_eq!(format.len(), 1);
    assert_eq!(format.0[0].start_line, 1);
    assert_eq!(format.0[0].num_lines, 5);
    assert_eq!(format.0[0].content, "line1\nline2\nline3\nline4\nline5");
}

#[test]
fn test_format_merge_two_overlapping_chunks() {
    let mut format = Format(vec![
        chunk("test.txt", 1, 4, "line1\nline2\nline3\nline4"),
        chunk("test.txt", 3, 3, "line3\nline4\nline5"),
    ]);
    format.merge();
    assert_eq!(format.len(), 1);
    assert_eq!(format.0[0].start_line, 1);
    assert_eq!(format.0[0].num_lines, 5);
    assert_eq!(format.0[0].content, "line1\nline2\nline3\nline4\nline5");
}

#[test]
fn test_format_merge_two_non_adjacent_chunks() {
    let mut format = Format(vec![
        chunk("test.txt", 1, 3, "line1\nline2\nline3"),
        chunk("test.txt", 7, 2, "line7\nline8"),
    ]);
    format.merge();
    // Should remain 2 chunks since they can't be merged
    assert_eq!(format.len(), 2);
    // Check they're in the correct order
    assert_eq!(format.0[0].start_line, 1);
    assert_eq!(format.0[1].start_line, 7);
}

#[test]
fn test_format_merge_unsorted_chunks() {
    let mut format = Format(vec![
        chunk("test.txt", 7, 2, "line7\nline8"),
        chunk("test.txt", 1, 3, "line1\nline2\nline3"),
        chunk("test.txt", 4, 2, "line4\nline5"),
    ]);
    format.merge();
    // First and second should merge (1-3 and 4-5), third stays separate (7-8)
    assert_eq!(format.len(), 2);
    // Check the merged chunk
    assert_eq!(format.0[0].start_line, 1);
    assert_eq!(format.0[0].num_lines, 5);
    assert_eq!(format.0[1].start_line, 7);
}

#[test]
fn test_format_merge_multiple_files() {
    let mut format = Format(vec![
        chunk("file1.txt", 1, 2, "file1 line1\nfile1 line2"),
        chunk("file1.txt", 3, 2, "file1 line3\nfile1 line4"),
        chunk("file2.txt", 1, 2, "file2 line1\nfile2 line2"),
        chunk("file2.txt", 3, 2, "file2 line3\nfile2 line4"),
    ]);
    format.merge();
    // Should merge to 2 chunks (one per file)
    assert_eq!(format.len(), 2);

    // Find chunks by path
    let file1_chunks: Vec<_> = format.0.iter().filter(|c| c.path == "file1.txt").collect();
    let file2_chunks: Vec<_> = format.0.iter().filter(|c| c.path == "file2.txt").collect();

    assert_eq!(file1_chunks.len(), 1);
    assert_eq!(file2_chunks.len(), 1);
    assert_eq!(file1_chunks[0].num_lines, 4);
    assert_eq!(file2_chunks[0].num_lines, 4);
}

#[test]
fn test_format_merge_all_mergeable() {
    let mut format = Format(vec![
        chunk("test.txt", 1, 2, "line1\nline2"),
        chunk("test.txt", 3, 2, "line3\nline4"),
        chunk("test.txt", 5, 2, "line5\nline6"),
        chunk("test.txt", 7, 2, "line7\nline8"),
    ]);
    format.merge();
    // All should merge into one chunk
    assert_eq!(format.len(), 1);
    assert_eq!(format.0[0].start_line, 1);
    assert_eq!(format.0[0].num_lines, 8);
}

#[test]
fn test_file_chunks_multiple_files() {
    let mut format = Format(vec![
        chunk("src/main.rs", 1, 2, "fn main() {\n    println!(\"Hello\");"),
        chunk("src/main.rs", 10, 1, "// comment"),
        chunk("src/lib.rs", 5, 3, "pub fn test() {\n    // test\n}"),
        chunk("src/lib.rs", 20, 2, "pub fn another() {\n}"),
        chunk("tests/integration.rs", 1, 1, "#[test]"),
    ]);

    let file_chunks = format.file_chunks();

    // Should have 3 different files
    assert_eq!(file_chunks.len(), 3);

    // Verify first file (src/lib.rs comes first alphabetically after sorting)
    assert_eq!(file_chunks[0].0, "src/lib.rs");
    assert_eq!(file_chunks[0].1.len(), 2);
    assert_eq!(file_chunks[0].1[0].start_line, 5);
    assert_eq!(file_chunks[0].1[1].start_line, 20);

    // Verify second file (src/main.rs)
    assert_eq!(file_chunks[1].0, "src/main.rs");
    assert_eq!(file_chunks[1].1.len(), 2);
    assert_eq!(file_chunks[1].1[0].start_line, 1);
    assert_eq!(file_chunks[1].1[1].start_line, 10);

    // Verify third file (tests/integration.rs)
    assert_eq!(file_chunks[2].0, "tests/integration.rs");
    assert_eq!(file_chunks[2].1.len(), 1);
    assert_eq!(file_chunks[2].1[0].start_line, 1);

    // Verify that all chunks in each group have the correct path
    for (path, chunks) in file_chunks {
        for chunk in chunks {
            assert_eq!(
                chunk.path.as_str(),
                path,
                "Chunk path mismatch: expected {:?}, got {:?}",
                path,
                chunk.path
            );
        }
    }
}

fn summary(format: &Format) -> Vec<(String, usize, usize, String)> {
    format
        .0
        .iter()
        .map(|c| (c.path.clone(), c.start_line, c.num_lines, c.content.clone()))
        .collect()
}

#[test]
fn merge_does_not_depend_on_the_order_given() {
    let make = |order: [usize; 4]| {
        let all = [
            chunk("a", 1, 2, "a1\na2"),
            chunk("a", 3, 1, "a3"),
            chunk("a", 2, 3, "A2\nA3\nA4"),
            chunk("b", 9, 1, "b9"),
        ];
        Format(order.iter().map(|&i| all[i].clone()).collect())
    };
    let mut first = make([0, 1, 2, 3]);
    first.merge();
    assert_eq!(
        summary(&first),
        [
            ("a".to_string(), 1, 4, "a1\na2\nA3\nA4".to_string()),
            ("b".to_string(), 9, 1, "b9".to_string()),
        ]
    );
    for order in [[3, 2, 1, 0], [1, 3, 0, 2], [2, 0, 3, 1], [0, 2, 1, 3]] {
        let mut other = make(order);
        other.merge();
        assert_eq!(summary(&other), summary(&first));
    }
}

#[test]
fn merge_of_rivals_depends_on_the_order_given() {
    // Two chunks with the same key and different content: the first wins.
    let mut one = Format(vec![chunk("a", 1, 1, "x"), chunk("a", 1, 1, "y")]);
    let mut two = Format(vec![chunk("a", 1, 1, "y"), chunk("a", 1, 1, "x")]);
    one.merge();
    two.merge();
    assert_eq!(summary(&one), [("a".to_string(), 1, 1, "x".to_string())]);
    assert_eq!(summary(&two), [("a".to_string(), 1, 1, "y".to_string())]);
}

#[test]
fn merge_with_a_gap_of_one_line_does_not_merge() {
    let a = chunk("a", 1, 2, "1\n2");
    assert!(a.can_merge(&chunk("a", 3, 1, "3")));
    assert!(!a.can_merge(&chunk("a", 4, 1, "4")));
    assert!(chunk("a", 4, 1, "4").can_merge(&chunk("a", 1, 3, "x")));
    assert!(!chunk("a", 5, 1, "5").can_merge(&chunk("a", 1, 3, "x")));
    // Numbers at the end of the range do not wrap.
    assert!(!chunk("a", usize::MAX, usize::MAX, "x").can_merge(&chunk("a", 1, 1, "y")));
}

#[test]
fn merge_hands_back_what_cannot_merge() {
    let mut a = chunk("a", 1, 1, "1");
    let back = a.merge(chunk("a", 5, 2, "5\n6")).unwrap_err();
    assert_eq!((back.start_line, back.num_lines, back.content.as_str()), (5, 2, "5\n6"));
    assert_eq!((a.start_line, a.num_lines, a.content.as_str()), (1, 1, "1"));
}

#[test]
fn merge_overlap_skips_lines_split_at_line_feeds() {
    // Three lines overlap; the other chunk holds two line feeds only.
    let mut a = chunk("a", 1, 5, "1\n2\n3\n4\n5");
    a.merge(chunk("a", 3, 4, "x\ny\nz")).unwrap();
    assert_eq!((a.start_line, a.num_lines, a.content.as_str()), (1, 6, "1\n2\n3\n4\n5"));
    // Two lines overlap; what stands behind the second line feed is added.
    let mut b = chunk("a", 1, 3, "1\n2\n3");
    b.merge(chunk("a", 2, 4, "x\ny\nz\r\nw")).unwrap();
    assert_eq!((b.start_line, b.num_lines, b.content.as_str()), (1, 5, "1\n2\n3\nz\r\nw"));
    // A chunk that begins at the same line counts as the later one.
    let mut c = chunk("a", 2, 1, "self");
    c.merge(chunk("a", 2, 2, "o1\no2")).unwrap();
    assert_eq!((c.start_line, c.num_lines, c.content.as_str()), (2, 2, "self\no2"));
}

#[test]
fn sort_orders_by_path_line_and_count_and_keeps_ties() {
    let mut format = Format(vec![
        chunk("b", 1, 1, "1"),
        chunk("a/b", 2, 2, "2"),
        chunk("a-b", 2, 1, "3"),
        chunk("a/b", 2, 1, "4"),
        chunk("a/b", 2, 1, "5"),
        chunk("a/b", 1, 9, "6"),
    ]);
    format.sort();
    let contents: Vec<String> = format.0.iter().map(|c| c.content.clone()).collect();
    assert_eq!(contents, ["3", "6", "4", "5", "2", "1"]);
    format.sort();
    let again: Vec<String> = format.0.iter().map(|c| c.content.clone()).collect();
    assert_eq!(again, contents);
}

#[test]
fn rank_bytes_is_the_order_of_a_dictionary() {
    assert_eq!(rank_bytes(b"", b""), Rank::Same);
    assert_eq!(rank_bytes(b"", b"a"), Rank::Before);
    assert_eq!(rank_bytes(b"a", b""), Rank::After);
    assert_eq!(rank_bytes(b"ab", b"abc"), Rank::Before);
    assert_eq!(rank_bytes(b"b", b"abc"), Rank::After);
    assert_eq!(rank_bytes(b"abc", b"abc"), Rank::Same);
}

#[test]
fn as_ref_gives_the_key() {
    let c = chunk("p", 3, 4, "text");
    let key = c.as_ref();
    assert_eq!((key.path, key.start_line, key.num_lines), ("p", 3, 4));
    assert!(!Format(vec![c]).is_empty());
    assert!(Format::new(vec![]).is_empty());
}

#[test]
fn file_chunks_of_an_empty_document() {
    assert!(Format(vec![]).file_chunks().is_empty());
}

fn found(path: &str, line: usize, text: &str, before: &[(usize, &str)], after: &[(usize, &str)]) -> MatchResult {
    let lines = |given: &[(usize, &str)]| {
        given
            .iter()
            .map(|(n, t)| ContextLine { line_number: *n, content: t.to_string() })
            .collect::<Vec<_>>()
    };
    MatchResult {
        file_path: path.to_string(),
        line_number: line,
        line_content: text.to_string(),
        line_match: None,
        byte_offset: 0,
        context_before: lines(before),
        context_after: lines(after),
    }
}

#[test]
fn from_matches_makes_a_chunk_of_each_match() {
    let matches = vec![
        found("a", 3, "three", &[(1, "one"), (2, "two")], &[(4, "four")]),
        found("b", 7, "seven", &[], &[]),
    ];
    let format = Format::from_matches(&matches);
    assert_eq!(
        summary(&format),
        [
            ("a".to_string(), 1, 4, "one\ntwo\nthree\nfour".to_string()),
            ("b".to_string(), 7, 1, "seven".to_string()),
        ]
    );
    assert!(Format::from_matches(&[]).is_empty());
}

#[test]
fn format_test_chunk_new() {
    let chunk = Chunk::new("test.txt".to_string(), 42, 1, "test content".to_string());
    assert_eq!(chunk.line_number(), 42);
    assert_eq!(chunk.content(), "test content");
}

#[test]
fn test_format_new() {
    let path = "src/main.rs";
    let chunks = vec![chunk(path, 1, 1, "fn main() {}")];
    let format = Format::new(chunks);
    // Just verify it constructs without panic
    assert_eq!(format.0[0].path, path);
}

#[test]
fn chunks_are_looked_up_by_key_and_the_last_of_a_key_wins() {
    let format = Format(vec![
        chunk("b", 1, 1, "first b"),
        chunk("a", 7, 2, "a7"),
        chunk("b", 1, 1, "second b"),
        chunk("a", 7, 1, "a7 short"),
        chunk("a", 2, 9, "a2"),
    ]);
    let table = format.chunks();
    let seen: Vec<(&str, usize, usize, &str)> = table
        .iter()
        .map(|(key, c)| (key.path, key.start_line, key.num_lines, c.content.as_str()))
        .collect();
    assert_eq!(
        seen,
        [
            ("a", 2, 9, "a2"),
            ("a", 7, 1, "a7 short"),
            ("a", 7, 2, "a7"),
            ("b", 1, 1, "second b"),
        ]
    );
    for (key, c) in &table {
        assert_eq!((key.path, key.start_line, key.num_lines), (c.path.as_str(), c.start_line, c.num_lines));
    }
    assert!(Format(vec![]).chunks().is_empty());
}

#[test]
fn merged_chunks_lie_apart_and_merge_no_further() {
    let mut format = Format(vec![
        chunk("a", 9, 1, "9"),
        chunk("a", 1, 2, "1\n2"),
        chunk("b", 3, 1, "b3"),
        chunk("a", 3, 1, "3"),
        chunk("a", 5, 2, "5\n6"),
        chunk("a", 6, 3, "6\n7\n8"),
    ]);
    format.merge();
    let once = summary(&format);
    assert_eq!(
        once,
        [
            ("a".to_string(), 1, 3, "1\n2\n3".to_string()),
            ("a".to_string(), 5, 5, "5\n6\n7\n8\n9".to_string()),
            ("b".to_string(), 3, 1, "b3".to_string()),
        ]
    );
    for pair in format.0.windows(2) {
        assert!(!pair[0].can_merge(&pair[1]));
    }
    format.merge();
    assert_eq!(summary(&format), once);
}
