//! The apply engine on given chunks and contents.

use bulked::apply::{apply_format, apply_format_to_fs, apply_to_read, note_written, ApplyError};
use bulked::filesystem::errors::FilesystemError;
use bulked::filesystem::memory::MemoryFS;
use bulked::filesystem::FileSystem;
use bulked::format::types::{Chunk, Format};

fn chunk(path: &str, start_line: usize, num_lines: usize, content: &str) -> Chunk {
    Chunk::new(path.to_string(), start_line, num_lines, content.to_string())
}

#[test]
fn test_apply_empty_chunks() {
    let content = "line1\nline2\nline3";
    let chunks = vec![];
    let result = apply_format(&chunks, content).unwrap();
    assert_eq!(result, content);
}

#[test]
fn test_apply_single_chunk_replace() {
    let content = "line1\nline2\nline3\nline4";
    let chunks = vec![chunk("test.txt", 2, 2, "modified2\nmodified3\n")];
    let result = apply_format(&chunks, content).unwrap();
    assert_eq!(result, "line1\nmodified2\nmodified3\nline4");
}

#[test]
fn test_apply_multiple_chunks() {
    let content = "line1\nline2\nline3\nline4\nline5";
    let chunks = vec![
        chunk("test.txt", 1, 1, "mod1\n"),
        chunk("test.txt", 4, 2, "mod4\nmod5\n"),
    ];
    let result = apply_format(&chunks, content).unwrap();
    assert_eq!(result, "mod1\nline2\nline3\nmod4\nmod5\n");
}

#[test]
fn test_apply_chunk_at_start() {
    let content = "line1\nline2\nline3";
    let chunks = vec![chunk("test.txt", 1, 1, "modified1\n")];
    let result = apply_format(&chunks, content).unwrap();
    assert_eq!(result, "modified1\nline2\nline3");
}

#[test]
fn test_apply_chunk_at_end() {
    let content = "line1\nline2\nline3\n";
    let chunks = vec![chunk("test.txt", 3, 1, "modified3\n")];
    let result = apply_format(&chunks, content).unwrap();
    assert_eq!(result, "line1\nline2\nmodified3\n");
}

#[test]
fn test_apply_mixed_paths_error() {
    let content = "line1\nline2";
    let chunks = vec![
        chunk("test1.txt", 1, 1, "mod1\n"),
        chunk("test2.txt", 2, 1, "mod2\n"),
    ];
    let result = apply_format(&chunks, content);
    assert!(matches!(
        result.as_ref().map_err(|r| r.as_slice()),
        Err([ApplyError::MixedPaths])
    ));
}

#[test]
fn test_apply_overlapping_chunks_error() {
    let content = "line1\nline2\nline3\nline4";
    let chunks = vec![
        chunk("test.txt", 1, 3, "mod1"),
        chunk("test.txt", 2, 2, "mod2"),
    ];
    let result = apply_format(&chunks, content);
    assert!(matches!(
        result.as_ref().map_err(|r| r.as_slice()),
        Err([ApplyError::OverlappingChunks(_, _, _, _)])
    ));
}

#[test]
fn test_apply_chunk_out_of_bounds() {
    let content = "line1\nline2\nline3";
    let chunks = vec![chunk("test.txt", 3, 2, "mod")];
    let result = apply_format(&chunks, content);
    assert!(matches!(
        result.as_ref().map_err(|r| r.as_slice()),
        Err([ApplyError::ChunkOutOfBounds { .. }])
    ));
}

#[test]
fn test_apply_replace_entire_file() {
    let content = "line1\nline2\nline3";
    let chunks = vec![chunk("test.txt", 1, 3, "new1\nnew2\nnew3")];
    let result = apply_format(&chunks, content).unwrap();
    assert_eq!(result, "new1\nnew2\nnew3");
}

#[test]
fn test_apply_unsorted_chunks() {
    let content = "line1\nline2\nline3\nline4\nline5";
    let chunks = vec![
        chunk("test.txt", 3, 1, "mod4"),
        chunk("test.txt", 1, 1, "mod1"),
    ];
    let result = apply_format(&chunks, content);
    assert!(matches!(
        result.as_ref().map_err(|r| r.as_slice()),
        Err([ApplyError::UnsortedChunks])
    ));
}

#[test]
fn apply_without_chunks_keeps_every_byte() {
    for content in ["", "\n", "a", "a\r\nb\n\nc", "日本語\r\n@@@\n\\"] {
        assert_eq!(apply_format(&[], content).unwrap(), content);
    }
}

#[test]
fn apply_keeps_line_endings_of_untouched_lines() {
    let content = "one\r\ntwo\nthree\r\nfour";
    let chunks = vec![chunk("f", 2, 1, "TWO\n")];
    assert_eq!(apply_format(&chunks, content).unwrap(), "one\r\nTWO\nthree\r\nfour");
}

#[test]
fn apply_overlap_names_the_lines_of_both_chunks() {
    let chunks = vec![chunk("f", 1, 3, "a"), chunk("f", 2, 2, "b")];
    let errors = apply_format(&chunks, "1\n2\n3\n4\n").unwrap_err();
    assert_eq!(errors.len(), 1);
    assert!(matches!(errors[0], ApplyError::OverlappingChunks(1, 3, 2, 3)));
}

#[test]
fn apply_chunks_that_touch_do_not_overlap() {
    let chunks = vec![chunk("f", 1, 2, "A\nB\n"), chunk("f", 3, 1, "C\n")];
    assert_eq!(apply_format(&chunks, "1\n2\n3\n4\n").unwrap(), "A\nB\nC\n4\n");
}

#[test]
fn apply_out_of_bounds_tells_the_numbers() {
    let chunks = vec![chunk("f", 3, 2, "x")];
    let errors = apply_format(&chunks, "1\n2\n3").unwrap_err();
    assert_eq!(errors.len(), 1);
    assert!(matches!(
        errors[0],
        ApplyError::ChunkOutOfBounds { line: 3, num_lines: 2, file_lines: 3 }
    ));
    // A chunk that ends at the last line is inside.
    assert!(apply_format(&[chunk("f", 2, 2, "x")], "1\n2\n3").is_ok());
}

#[test]
fn apply_equal_first_lines_are_unsorted() {
    let chunks = vec![chunk("f", 2, 1, "a"), chunk("f", 2, 1, "b")];
    let errors = apply_format(&chunks, "1\n2\n3\n").unwrap_err();
    assert!(matches!(
        errors.as_slice(),
        [ApplyError::UnsortedChunks, ApplyError::OverlappingChunks(2, 2, 2, 2)]
    ));
}

#[test]
fn apply_zero_length_and_line_zero() {
    let errors = apply_format(&[chunk("f", 1, 0, "a")], "1\n").unwrap_err();
    assert!(matches!(errors.as_slice(), [ApplyError::InvalidNumberOfLines]));
    let errors = apply_format(&[chunk("f", 0, 1, "a")], "1\n").unwrap_err();
    assert!(matches!(errors.as_slice(), [ApplyError::InvalidLineNumber]));
}

#[test]
fn apply_reports_every_failure_in_the_order_of_the_checks() {
    let chunks = vec![chunk("a", 5, 0, "x"), chunk("b", 0, 9, "y")];
    let errors = apply_format(&chunks, "1\n2\n").unwrap_err();
    assert!(matches!(
        errors.as_slice(),
        [
            ApplyError::MixedPaths,
            ApplyError::InvalidNumberOfLines,
            ApplyError::InvalidLineNumber,
            ApplyError::UnsortedChunks,
            ApplyError::ChunkOutOfBounds { line: 5, num_lines: 0, file_lines: 2 },
        ]
    ));
}

#[test]
fn apply_huge_line_numbers_do_not_wrap() {
    let chunks = vec![chunk("f", usize::MAX, usize::MAX, "x")];
    let errors = apply_format(&chunks, "1\n").unwrap_err();
    assert!(matches!(
        errors.as_slice(),
        [ApplyError::ChunkOutOfBounds { line: usize::MAX, num_lines: usize::MAX, file_lines: 1 }]
    ));
}

#[test]
fn apply_to_read_passes_a_read_failure_on() {
    let read = Err(FilesystemError::FileNotFound { path: "f".to_string() });
    let errors = apply_to_read("f", &[chunk("f", 1, 1, "x")], read).unwrap_err();
    assert!(matches!(
        errors.as_slice(),
        [ApplyError::ModifyError { path, source: FilesystemError::FileNotFound { .. } }] if path == "f"
    ));
    let text = apply_to_read("f", &[chunk("f", 1, 1, "x\n")], Ok("1\n2\n".to_string())).unwrap();
    assert_eq!(text, "x\n2\n");
}

#[test]
fn note_written_adds_a_write_failure() {
    let mut errors = Vec::new();
    note_written("f", Ok(()), &mut errors);
    assert!(errors.is_empty());
    note_written("f", Err(FilesystemError::WriteError { path: "f".to_string() }), &mut errors);
    assert!(matches!(
        errors.as_slice(),
        [ApplyError::ModifyError { path, source: FilesystemError::WriteError { .. } }] if path == "f"
    ));
}

#[test]
fn apply_format_to_fs_goes_on_behind_a_file_that_fails() {
    let mut fs = MemoryFS::new();
    fs.add_file("a.txt", "a1\na2\na3\n").unwrap();
    fs.add_file("c.txt", "c1\nc2\n").unwrap();
    let mut format = Format(vec![
        chunk("c.txt", 2, 1, "C2\n"),
        chunk("b.txt", 1, 1, "B1\n"),
        chunk("a.txt", 3, 1, "A3\n"),
        chunk("a.txt", 1, 1, "A1\n"),
    ]);
    let errors = apply_format_to_fs(&mut format, &mut fs).unwrap_err();
    assert!(matches!(
        errors.as_slice(),
        [ApplyError::ModifyError { path, source: FilesystemError::FileNotFound { .. } }] if path == "b.txt"
    ));
    assert_eq!(fs.read_to_string("a.txt").unwrap(), "A1\na2\nA3\n");
    assert_eq!(fs.read_to_string("c.txt").unwrap(), "c1\nC2\n");
    assert!(!fs.path_exists("b.txt"));
    // The document is sorted afterwards.
    let order: Vec<(&str, usize)> =
        format.0.iter().map(|c| (c.path.as_str(), c.start_line)).collect();
    assert_eq!(order, [("a.txt", 1), ("a.txt", 3), ("b.txt", 1), ("c.txt", 2)]);
}

#[test]
fn apply_format_to_fs_leaves_a_file_with_bad_chunks_alone() {
    let mut fs = MemoryFS::new();
    fs.add_file("a.txt", "a1\na2\n").unwrap();
    let mut format = Format(vec![chunk("a.txt", 2, 5, "x\n")]);
    let errors = apply_format_to_fs(&mut format, &mut fs).unwrap_err();
    assert!(matches!(errors.as_slice(), [ApplyError::ChunkOutOfBounds { .. }]));
    assert_eq!(fs.read_to_string("a.txt").unwrap(), "a1\na2\n");
    assert!(apply_format_to_fs(&mut Format(vec![]), &mut fs).is_ok());
}

#[test]
fn apply_format_to_fs_writes_nothing_where_chunks_overlap() {
    let mut fs = MemoryFS::new();
    fs.add_file("test.txt", "line1\nline2\nline3\nline4").unwrap();
    let mut format = Format(vec![chunk("test.txt", 1, 3, "a"), chunk("test.txt", 2, 2, "b")]);
    let errors = apply_format_to_fs(&mut format, &mut fs).unwrap_err();
    assert!(errors.iter().any(|e| matches!(e, ApplyError::OverlappingChunks { .. })));
    assert_eq!(fs.read_to_string("test.txt").unwrap(), "line1\nline2\nline3\nline4");
}

#[test]
fn apply_format_to_fs_names_the_file_that_is_missing() {
    let mut fs = MemoryFS::new();
    fs.add_file("a.txt", "l1\nl2\n").unwrap();
    let mut format = Format(vec![chunk("a.txt", 1, 1, "X\n"), chunk("b.txt", 1, 1, "Y\n")]);
    let errors = apply_format_to_fs(&mut format, &mut fs).unwrap_err();
    assert_eq!(errors.len(), 1);
    assert!(matches!(&errors[0], ApplyError::ModifyError { path, .. } if path == "b.txt"));
    assert_eq!(fs.read_to_string("a.txt").unwrap(), "X\nl2\n");
    assert!(!fs.path_exists("b.txt"));
}

#[test]
fn apply_format_to_fs_writes_every_file_that_passes() {
    let mut fs = MemoryFS::new();
    fs.add_file("b.txt", "b1\nb2\nb3\n").unwrap();
    fs.add_file("a.txt", "a1\na2\n").unwrap();
    fs.add_file("other.txt", "kept\n").unwrap();
    let mut format = Format(vec![
        chunk("b.txt", 3, 1, "B3\n"),
        chunk("a.txt", 2, 1, "A2\nmore\n"),
        chunk("b.txt", 1, 1, ""),
    ]);
    assert!(apply_format_to_fs(&mut format, &mut fs).is_ok());
    assert_eq!(fs.read_to_string("a.txt").unwrap(), "a1\nA2\nmore\n");
    assert_eq!(fs.read_to_string("b.txt").unwrap(), "b2\nB3\n");
    assert_eq!(fs.read_to_string("other.txt").unwrap(), "kept\n");
    let order: Vec<(&str, usize, usize)> =
        format.0.iter().map(|c| (c.path.as_str(), c.start_line, c.num_lines)).collect();
    assert_eq!(order, [("a.txt", 2, 1), ("b.txt", 1, 1), ("b.txt", 3, 1)]);
    // With no chunk, nothing is read or written.
    let mut none = Format(vec![]);
    assert!(apply_format_to_fs(&mut none, &mut MemoryFS::new()).is_ok());
}
