//! Ranges of lines around the lines asked for, and reading them.

use bulked::filesystem::memory::MemoryFS;
use bulked::ingest::groups::{group_inputs_by_path, group_inputs_by_path_and_create_ranges, ingest, insert_line};
use bulked::ingest::{create_ranges, process_file, process_range, process_read, read_line, IngestError, Positions, Range};
use bulked::filesystem::errors::FilesystemError;
use bulked::ingest::input::{column_for, locate_headers, parse_grep_line, parse_row, Column, Format, HeaderLocs, RowError};
use bulked::types::IngestInput;

#[test]
fn test_create_ranges_multiple_lines() {
    let input = vec![1, 2, 3];
    let ranges: Vec<Range> = create_ranges(&input, 20);

    assert_eq!(ranges.len(), 3);

    assert_eq!(ranges[0].start, 1);
    assert_eq!(ranges[0].line, 1);
    assert_eq!(ranges[0].end, 2);

    assert_eq!(ranges[1].start, 2);
    assert_eq!(ranges[1].line, 2);
    assert_eq!(ranges[1].end, 3);

    assert_eq!(ranges[2].start, 3);
    assert_eq!(ranges[2].line, 3);
    assert_eq!(ranges[2].end, 24);
}

#[test]
fn test_create_ranges_single_line() {
    let input = vec![1];
    let ranges: Vec<Range> = create_ranges(&input, 20);

    assert_eq!(ranges.len(), 1);
    assert_eq!(ranges[0].start, 1);
    assert_eq!(ranges[0].line, 1);
    assert_eq!(ranges[0].end, 22);
}

#[test]
fn test_create_ranges_overlapping_context() {
    // Lines close together share their context
    let input = vec![5, 8];
    let ranges: Vec<Range> = create_ranges(&input, 2);

    assert_eq!(ranges.len(), 2);

    assert_eq!(ranges[0].start, 3);
    assert_eq!(ranges[0].line, 5);
    assert_eq!(ranges[0].end, 8);

    assert_eq!(ranges[1].start, 8);
    assert_eq!(ranges[1].line, 8);
    assert_eq!(ranges[1].end, 11);
}

#[test]
fn test_create_ranges_no_overlap() {
    // Lines far apart should create separate ranges
    let input = vec![5, 50];
    let ranges: Vec<Range> = create_ranges(&input, 2);

    assert_eq!(ranges.len(), 2);

    assert_eq!(ranges[0].start, 3);
    assert_eq!(ranges[0].line, 5);
    assert_eq!(ranges[0].end, 8);

    assert_eq!(ranges[1].start, 48);
    assert_eq!(ranges[1].line, 50);
    assert_eq!(ranges[1].end, 53);
}

#[test]
fn test_create_ranges_empty_input() {
    let input: Vec<usize> = vec![];
    let ranges: Vec<Range> = create_ranges(&input, 5);

    assert_eq!(ranges.len(), 0);
}

#[test]
fn test_create_ranges_zero_context() {
    // With zero context, each line should be a single-line range
    let input = vec![5, 10];
    let ranges: Vec<Range> = create_ranges(&input, 0);

    assert_eq!(ranges.len(), 2);

    assert_eq!(ranges[0].start, 5);
    assert_eq!(ranges[0].line, 5);
    assert_eq!(ranges[0].end, 6);

    assert_eq!(ranges[1].start, 10);
    assert_eq!(ranges[1].line, 10);
    assert_eq!(ranges[1].end, 11);
}

const FIVE: &str = "line1\nline2\nline3\nline4\nline5\n";

#[test]
fn test_process_range_position_less_than_start() {
    // The lines before the range are passed over
    let path = "test.txt";
    let range = Range { start: 3, line: 3, end: 4 };
    let mut positions = Positions { line: 1, byte: 0 };

    let result = process_range(FIVE, &mut positions, range, path).unwrap().unwrap();

    assert_eq!(result.line_number, 3);
    assert_eq!(result.line_content, "line3\n");
    assert_eq!(result.context_before.len(), 0);
    assert_eq!(result.context_after.len(), 0);
    assert_eq!(positions.line, 4);
}

#[test]
fn test_process_range_position_greater_than_end() {
    // The range is skipped
    let path = "test.txt";
    let range = Range { start: 2, line: 2, end: 3 };
    let mut positions = Positions {
        line: 5, // Already past the range
        byte: 24,
    };

    let result = process_range(FIVE, &mut positions, range, path).unwrap();

    assert!(result.is_none());
}

#[test]
fn test_process_range_position_equals_start() {
    let path = "test.txt";
    let range = Range { start: 3, line: 3, end: 5 };
    let mut positions = Positions { line: 1, byte: 0 };

    // Skip to line 3 to position the reader correctly
    read_line(FIVE, &mut positions, path).unwrap();
    read_line(FIVE, &mut positions, path).unwrap();

    let result = process_range(FIVE, &mut positions, range, path).unwrap().unwrap();

    assert_eq!(result.line_number, 3);
    assert_eq!(result.line_content, "line3\n");
    assert_eq!(result.context_before.len(), 0);
    assert_eq!(result.context_after.len(), 1);
    assert_eq!(result.context_after[0].line_number, 5);
}

#[test]
fn test_process_range_position_equals_end() {
    // Reading stands at the end of the range already: the range is skipped
    let path = "test.txt";
    let range = Range { start: 2, line: 3, end: 4 };
    let mut positions = Positions {
        line: 4, // At the end
        byte: 18,
    };

    let result = process_range(FIVE, &mut positions, range, path).unwrap();

    assert!(result.is_none());
}

#[test]
fn test_process_range_empty_file() {
    let path = "empty.txt";
    let range = Range { start: 1, line: 1, end: 2 };
    let mut positions = Positions { line: 1, byte: 0 };

    let result = process_range("", &mut positions, range, path);

    assert!(result.is_err());
    match result.unwrap_err() {
        IngestError::UnexpectedEOF { line_num, .. } => {
            assert_eq!(line_num, 1);
        }
        _ => panic!("Expected UnexpectedEOF error"),
    }
}

#[test]
fn test_process_range_with_context() {
    // A range with context before and after
    let path = "test.txt";
    let range = Range { start: 2, line: 3, end: 5 };
    let mut positions = Positions { line: 1, byte: 0 };

    let result = process_range(FIVE, &mut positions, range, path).unwrap().unwrap();

    assert_eq!(result.line_number, 3);
    assert_eq!(result.line_content, "line3\n");
    assert_eq!(result.context_before.len(), 1);
    assert_eq!(result.context_before[0].line_number, 3);
    assert_eq!(result.context_before[0].content, "line2\n");
    assert_eq!(result.context_after.len(), 1);
    assert_eq!(result.context_after[0].line_number, 5);
    assert_eq!(result.context_after[0].content, "line4\n");
}

#[test]
fn create_ranges_stays_within_usize() {
    let ranges = create_ranges(&[usize::MAX - 1], usize::MAX);
    assert_eq!(ranges, [Range { start: 1, line: usize::MAX - 1, end: usize::MAX }]);
    let ranges = create_ranges(&[3, 4], usize::MAX);
    assert_eq!(
        ranges,
        [Range { start: 1, line: 3, end: 4 }, Range { start: 4, line: 4, end: usize::MAX }]
    );
    // A range that would end before it begins is left out.
    let ranges = create_ranges(&[10, 2], 1);
    assert_eq!(ranges, [Range { start: 2, line: 2, end: 4 }]);
}

#[test]
fn read_line_moves_line_by_line_and_fails_at_the_end() {
    let text = "a\r\n\nlast";
    let mut positions = Positions { line: 1, byte: 0 };
    assert_eq!(read_line(text, &mut positions, "p").unwrap(), "a\r\n");
    assert_eq!(positions, Positions { line: 2, byte: 3 });
    assert_eq!(read_line(text, &mut positions, "p").unwrap(), "\n");
    assert_eq!(read_line(text, &mut positions, "p").unwrap(), "last");
    assert_eq!(positions, Positions { line: 4, byte: 8 });
    assert!(matches!(
        read_line(text, &mut positions, "p"),
        Err(IngestError::UnexpectedEOF { line_num: 4, path }) if path == "p"
    ));
    assert_eq!(positions, Positions { line: 4, byte: 8 });
}

#[test]
fn process_range_tells_offset_and_path() {
    let mut positions = Positions { line: 1, byte: 0 };
    let m = process_range(FIVE, &mut positions, Range { start: 1, line: 2, end: 4 }, "dir/f")
        .unwrap()
        .unwrap();
    assert_eq!(m.file_path, "dir/f");
    assert_eq!(m.byte_offset, 6);
    assert_eq!(m.line_match, None);
    assert_eq!(positions, Positions { line: 4, byte: 18 });
    // The text ends before the range does.
    let mut positions = Positions { line: 1, byte: 0 };
    assert!(matches!(
        process_range(FIVE, &mut positions, Range { start: 4, line: 5, end: 9 }, "f"),
        Err(IngestError::UnexpectedEOF { line_num: 6, .. })
    ));
}

#[test]
fn process_file_reads_range_by_range() {
    let ranges = create_ranges(&[2, 4], 1);
    let found = process_file("f", FIVE, &ranges).unwrap();
    let lines: Vec<(usize, &str)> =
        found.iter().map(|m| (m.line_number, m.line_content.as_str())).collect();
    assert_eq!(lines, [(2, "line2\n"), (4, "line4\n")]);
    assert_eq!(found[0].context_before[0].content, "line1\n");
    assert_eq!(found[0].context_after[0].content, "line3\n");
    assert!(found[1].context_before.is_empty());
    assert_eq!(found[1].context_after[0].content, "line5\n");
    assert!(matches!(
        process_read("f", Err(FilesystemError::LockError), &ranges),
        Err(IngestError::FileReadError { source: FilesystemError::LockError })
    ));
    assert_eq!(process_read("f", Ok(FIVE.to_string()), &ranges).unwrap().len(), 2);
}

fn input(path: &str, line: usize) -> IngestInput {
    IngestInput { file_path: path.to_string(), line_number: line }
}

#[test]
fn inputs_are_grouped_by_path_with_rising_lines() {
    let inputs = vec![input("b", 7), input("a", 9), input("b", 2), input("a", 9), input("a", 1)];
    let table = group_inputs_by_path(&inputs);
    assert_eq!(table, [("a".to_string(), vec![1, 9]), ("b".to_string(), vec![2, 7])]);
    let groups = group_inputs_by_path_and_create_ranges(inputs, 1);
    assert_eq!(
        groups,
        [
            (
                "a".to_string(),
                vec![Range { start: 1, line: 1, end: 3 }, Range { start: 8, line: 9, end: 11 }]
            ),
            (
                "b".to_string(),
                vec![Range { start: 1, line: 2, end: 4 }, Range { start: 6, line: 7, end: 9 }]
            ),
        ]
    );
    let mut lines = vec![2, 5];
    insert_line(&mut lines, 5);
    insert_line(&mut lines, 1);
    insert_line(&mut lines, 3);
    insert_line(&mut lines, 9);
    assert_eq!(lines, [1, 2, 3, 5, 9]);
}

#[test]
fn ingest_reads_each_file_once() {
    let mut fs = MemoryFS::new();
    fs.add_file("a", FIVE).unwrap();
    fs.add_file("b", "only\n").unwrap();
    let found = ingest(&fs, vec![input("b", 1), input("a", 4), input("a", 2)], 0).unwrap();
    let lines: Vec<(&str, usize, &str)> = found
        .iter()
        .map(|m| (m.file_path.as_str(), m.line_number, m.line_content.as_str()))
        .collect();
    assert_eq!(lines, [("a", 2, "line2\n"), ("a", 4, "line4\n"), ("b", 1, "only\n")]);
    assert!(ingest(&fs, vec![], 3).unwrap().is_empty());
    assert!(matches!(
        ingest(&fs, vec![input("c", 1)], 0),
        Err(IngestError::FileReadError { source: FilesystemError::FileNotFound { .. } })
    ));
    assert!(matches!(
        ingest(&fs, vec![input("b", 5)], 0),
        Err(IngestError::UnexpectedEOF { line_num: 2, .. })
    ));
}

#[test]
fn guess_goes_by_the_beginning_of_the_input() {
    assert_eq!(Format::guess(b"[{\"path\":1}]"), Format::Json);
    assert_eq!(Format::guess(b"{\"path\":\"a,b\"}"), Format::Jsonl);
    assert_eq!(Format::guess(b"file,line\na,1\n"), Format::Csv);
    assert_eq!(Format::guess(b"src/a.rs:12:text, more"), Format::Grep);
    assert_eq!(Format::guess(b"[1,2]"), Format::Csv);
    assert_eq!(Format::guess(b"no mark at all"), Format::Grep);
    assert_eq!(Format::guess(b""), Format::Grep);
    assert_eq!(Format::guess(b"["), Format::Grep);
}

#[test]
fn grep_lines_name_a_path_and_a_line() {
    assert_eq!(parse_grep_line("src/a.rs:12:let x = 1;"), Some(input("src/a.rs", 12)));
    assert_eq!(parse_grep_line("a:b.rs:007-context"), Some(input("a:b.rs", 7)));
    assert_eq!(parse_grep_line("ü.rs:10:x"), Some(input("ü.rs", 10)));
    // The second character of the piece decides: one digit alone is passed over.
    assert_eq!(parse_grep_line("src/a.rs:5:text"), None);
    assert_eq!(parse_grep_line("a.rs:5:x1:rest"), None);
    assert_eq!(parse_grep_line("a.rs:é1:x"), None);
    // No path before the number, no end of the number, no number that fits.
    assert_eq!(parse_grep_line("12:text"), None);
    assert_eq!(parse_grep_line("a.rs:12"), None);
    assert_eq!(parse_grep_line("a.rs:12é"), None);
    assert_eq!(parse_grep_line("a.rs:99999999999999999999999:x"), None);
    assert_eq!(parse_grep_line("no colon"), None);
    assert_eq!(parse_grep_line(""), None);
    assert_eq!(parse_grep_line("::::"), None);
}

#[test]
fn table_headers_name_their_columns() {
    for name in ["file", "File Path", "FILE_PATH", "path", "paths", "file-path\t", "filepathX"] {
        assert_eq!(column_for(name), Some(Column::FilePath), "{name:?}");
    }
    for name in ["line", "Line Number", "line_no", "LN", "lines", "linenum", "lineno."] {
        assert_eq!(column_for(name), Some(Column::LineNumber), "{name:?}");
    }
    for name in ["", " _-", "fil", "filepathxy", "lineé", "column", "l"] {
        assert_eq!(column_for(name), None, "{name:?}");
    }
    let headers = |names: &[&str]| names.iter().map(|n| n.to_string()).collect::<Vec<_>>();
    assert_eq!(
        locate_headers(&headers(&["file", "note", "line", "path"])),
        Some(HeaderLocs { file_path: 3, line_number: 2 })
    );
    assert_eq!(locate_headers(&headers(&["file", "note"])), None);
    assert_eq!(locate_headers(&headers(&["line"])), None);
    assert_eq!(locate_headers(&headers(&[])), None);
    let locs = HeaderLocs { file_path: 2, line_number: 0 };
    assert_eq!(parse_row(&headers(&["+12", "x", "a.rs"]), locs), Ok(input("a.rs", 12)));
    assert_eq!(
        parse_row(&headers(&["12", "x"]), locs),
        Err(RowError::MissingField(Column::FilePath))
    );
    assert_eq!(
        parse_row(&headers(&[]), HeaderLocs { file_path: 0, line_number: 0 }),
        Err(RowError::MissingField(Column::FilePath))
    );
    assert_eq!(
        parse_row(&headers(&["a"]), HeaderLocs { file_path: 0, line_number: 1 }),
        Err(RowError::MissingField(Column::LineNumber))
    );
    assert_eq!(
        parse_row(&headers(&["a", "1 "]), HeaderLocs { file_path: 0, line_number: 1 }),
        Err(RowError::CouldNotParse(Column::LineNumber))
    );
}

#[test]
fn ingest_answers_the_inputs_with_numbered_lines_around() {
    let mut fs = MemoryFS::new();
    fs.add_file("a", FIVE).unwrap();
    let found = ingest(&fs, vec![input("a", 3)], 1).unwrap();
    assert_eq!(found.len(), 1);
    let m = &found[0];
    assert_eq!((m.file_path.as_str(), m.line_number, m.line_content.as_str()), ("a", 3, "line3\n"));
    assert_eq!(m.line_match, None);
    let before: Vec<(usize, &str)> =
        m.context_before.iter().map(|l| (l.line_number, l.content.as_str())).collect();
    let after: Vec<(usize, &str)> =
        m.context_after.iter().map(|l| (l.line_number, l.content.as_str())).collect();
    // Each line around the match carries the number of the line behind it.
    assert_eq!(before, [(3, "line2\n")]);
    assert_eq!(after, [(5, "line4\n")]);
    // A line that is asked for twice is found once.
    let twice = ingest(&fs, vec![input("a", 2), input("a", 2)], 0).unwrap();
    assert_eq!(twice.len(), 1);
    // The file of the failure is one of the inputs.
    assert!(matches!(
        ingest(&fs, vec![input("a", 1), input("a", 9)], 0),
        Err(IngestError::UnexpectedEOF { path, .. }) if path == "a"
    ));
}
