//! The parser on given documents, and reading what was written.

use bulked::format::parse::{parse_format, FormatError, Span};
use bulked::format::types::{Chunk, Format};

#[test]
fn parse_test_format_from_str_single_chunk() {
    let input = "@src/main.rs:10:2\nfn main() {\n    println!(\"Hello\");\n@@@\n";

    let format = Format::from_str(input).unwrap();
    assert_eq!(format.0.len(), 1);
    assert_eq!(format.0[0].path, "src/main.rs");
    assert_eq!(format.0[0].start_line, 10);
    assert_eq!(format.0[0].num_lines, 2);
    assert_eq!(format.0[0].content, "fn main() {\n    println!(\"Hello\");\n");
}

#[test]
fn parse_test_format_from_str_multiple_chunks() {
    let input = r"@test.txt:5:1
line 5
@@@

@test.txt:10:1
line 10
@@@
";

    let format = Format::from_str(input).unwrap();
    assert_eq!(format.0.len(), 2);
    assert_eq!(format.0[0].path, "test.txt");
    assert_eq!(format.0[0].start_line, 5);
    assert_eq!(format.0[0].num_lines, 1);
    assert_eq!(format.0[0].content, "line 5\n");
    assert_eq!(format.0[1].path, "test.txt");
    assert_eq!(format.0[1].start_line, 10);
    assert_eq!(format.0[1].num_lines, 1);
    assert_eq!(format.0[1].content, "line 10\n");
}

#[test]
fn parse_test_format_from_str_with_comments() {
    let input = r"This is a comment at the start

@test.txt:1:1
content
@@@

This is a comment between chunks

@test.txt:5:1
more content
@@@
";

    let format = Format::from_str(input).unwrap();
    assert_eq!(format.0.len(), 2);
    assert_eq!(format.0[0].content, "content\n");
    assert_eq!(format.0[1].content, "more content\n");
}

#[test]
fn parse_test_format_from_str_with_escaped_chars() {
    let input = "@test.txt:1:1\nuser\\@domain.com\\\\path\n@@@\n";

    let format = Format::from_str(input).unwrap();
    assert_eq!(format.0[0].content, "user@domain.com\\path\n");
}

#[test]
fn parse_test_format_from_str_invalid_delimiter() {
    let input = "@test.txt:invalid\ncontent\n@@@\n";
    let result = Format::from_str(input);
    assert!(result.is_err());
    assert!(matches!(
        result.unwrap_err(),
        FormatError::InvalidDelimiter { .. }
    ));
}

#[test]
fn parse_test_format_from_str_missing_end_delimiter() {
    let input = "@test.txt:1:1\ncontent without end delimiter\n";
    let result = Format::from_str(input);
    assert!(result.is_err());
    assert!(matches!(
        result.unwrap_err(),
        FormatError::MissingEndDelimiter { .. }
    ));
}

#[test]
fn parse_test_format_from_str_empty() {
    let input = "";
    let result = Format::from_str(input);
    assert!(result.is_err());
    assert!(matches!(result.unwrap_err(), FormatError::NoChunks { .. }));
}

#[test]
fn parse_test_format_error_invalid_line_number() {
    let input = "@test.txt:not_a_number:5\ncontent\n@@@\n";
    let result = Format::from_str(input);
    assert!(result.is_err());
    match result.unwrap_err() {
        FormatError::InvalidLineNumber { value, .. } => {
            assert_eq!(value, "not_a_number");
        }
        _ => panic!("Expected InvalidLineNumber error"),
    }
}

#[test]
fn parse_test_format_error_invalid_numlines() {
    let input = "@test.txt:10:invalid\ncontent\n@@@\n";
    let result = Format::from_str(input);
    assert!(result.is_err());
    match result.unwrap_err() {
        FormatError::InvalidNumLines { value, .. } => {
            assert_eq!(value, "invalid");
        }
        _ => panic!("Expected InvalidNumLines error"),
    }
}

#[test]
fn format_test_format_from_str_invalid_delimiter() {
    let input = "@test.txt:invalid\ncontent\n@@@\n";
    let result = parse_format(input);
    assert!(result.is_err());
    assert!(matches!(
        result.unwrap_err(),
        FormatError::InvalidDelimiter { .. }
    ));
}

#[test]
fn format_test_format_from_str_missing_end_delimiter() {
    let input = "@test.txt:1:1\ncontent without end delimiter\n";
    let result = parse_format(input);
    assert!(result.is_err());
    assert!(matches!(
        result.unwrap_err(),
        FormatError::MissingEndDelimiter { .. }
    ));
}

#[test]
fn format_test_format_from_str_empty() {
    let input = "";
    let result = parse_format(input);
    assert!(result.is_err());
    assert!(matches!(result.unwrap_err(), FormatError::NoChunks { .. }));
}

#[test]
fn format_test_format_error_invalid_line_number() {
    let input = "@test.txt:not_a_number:5\ncontent\n@@@\n";
    let result = parse_format(input);
    assert!(result.is_err());
    match result.unwrap_err() {
        FormatError::InvalidLineNumber { value, .. } => {
            assert_eq!(value, "not_a_number");
        }
        _ => panic!("Expected InvalidLineNumber error"),
    }
}

#[test]
fn format_test_format_error_invalid_numlines() {
    let input = "@test.txt:10:invalid\ncontent\n@@@\n";
    let result = parse_format(input);
    assert!(result.is_err());
    match result.unwrap_err() {
        FormatError::InvalidNumLines { value, .. } => {
            assert_eq!(value, "invalid");
        }
        _ => panic!("Expected InvalidNumLines error"),
    }
}

#[test]
fn test_format_from_str_with_trailing_text_after_delimiter() {
    // End delimiter can have trailing text/comments after @@@
    let input = "@test.txt:1:1\ncontent\n@@@ this is a comment\n";

    let format = Format::from_str(input).unwrap();
    assert_eq!(format.0.len(), 1);
    assert_eq!(format.0[0].content, "content\n");
}

#[test]
fn test_format_from_str_multiple_chunks_with_trailing_text() {
    let input = r"@test.txt:5:1
line 5
@@@ comment here

@test.txt:10:1
line 10
@@@ another comment
";

    let format = Format::from_str(input).unwrap();
    assert_eq!(format.0.len(), 2);
    assert_eq!(format.0[0].content, "line 5\n");
    assert_eq!(format.0[1].content, "line 10\n");
}

#[test]
fn test_format_preserves_crlf() {
    // Windows line endings (\r\n) are kept in content
    let input = "@test.txt:1:2\r\nline1\r\nline2\r\n@@@\r\n";

    let format = Format::from_str(input).unwrap();
    assert_eq!(format.0.len(), 1);
    assert_eq!(format.0[0].path, "test.txt");
    assert_eq!(format.0[0].start_line, 1);
    assert_eq!(format.0[0].num_lines, 2);
    // The \r stays as part of the line content
    assert_eq!(format.0[0].content, "line1\r\nline2\r\n");
}

#[test]
fn test_format_mixed_line_endings() {
    // Mixed line endings - some CRLF, some LF
    let input = "@test.txt:1:3\r\nline1\r\nline2\nline3\r\n@@@\n";

    let format = Format::from_str(input).unwrap();
    assert_eq!(format.0.len(), 1);
    // Each line keeps its own line ending
    assert_eq!(format.0[0].content, "line1\r\nline2\nline3\r\n");
}

fn failure(input: &str) -> FormatError {
    parse_format(input).unwrap_err()
}

fn at(offset: usize, len: usize) -> Span {
    Span { offset, len }
}

#[test]
fn parser_error_span_covers_the_offending_field() {
    let input = "@test.txt:not_a_number:5\ncontent\n@@@\n";
    match failure(input) {
        FormatError::InvalidLineNumber { value, src, span } => {
            assert_eq!(span, at(10, 12));
            assert_eq!(&input[span.offset..span.offset + span.len], "not_a_number");
            assert_eq!(value, "not_a_number");
            assert_eq!(src, input);
        }
        other => panic!("unexpected {other:?}"),
    }
    let input = "# note\n@p:7:x9 \r\nc\n@@@\n";
    match failure(input) {
        FormatError::InvalidNumLines { value, span, .. } => {
            assert_eq!(span, at(12, 2));
            assert_eq!(value, "x9");
        }
        other => panic!("unexpected {other:?}"),
    }
}

#[test]
fn parser_invalid_delimiter_span_is_the_header_line() {
    let input = "note\n@only-path\nmore\n";
    let e = failure(input);
    assert!(matches!(e, FormatError::InvalidDelimiter { span, .. } if span == at(5, 10)));
    assert_eq!(e.span(), at(5, 10));
    for bad in ["@:1:1\nc\n@@@\n", "@p::1\nc\n@@@\n", "@p:1\nc\n@@@\n", "@p:1:\nc\n@@@\n", "@\n", "@@@\n", "@p:1: \t\nc\n@@@\n"] {
        assert!(
            matches!(failure(bad), FormatError::InvalidDelimiter { span, .. } if span.offset == 0),
            "{bad:?}"
        );
    }
}

#[test]
fn parser_missing_end_spans_are_the_header_line_and_the_last_byte() {
    let input = "x\n@p:1:1\ncontent\n";
    match failure(input) {
        FormatError::MissingEndDelimiter { start_span, eof_span, .. } => {
            assert_eq!(start_span, at(2, 7));
            assert_eq!(eof_span, at(input.len() - 1, 1));
        }
        other => panic!("unexpected {other:?}"),
    }
    assert!(matches!(
        failure("@p:1:1"),
        FormatError::MissingEndDelimiter { start_span, eof_span, .. }
            if start_span == at(0, 6) && eof_span == at(5, 1)
    ));
    // A terminator must begin its line.
    assert!(matches!(failure("@p:1:1\n @@@\n"), FormatError::MissingEndDelimiter { .. }));
}

#[test]
fn parser_no_chunks_spans_the_document() {
    for input in ["", "\n\n", "just a comment\nand another\n", "last line without line feed"] {
        let e = failure(input);
        assert!(matches!(e, FormatError::NoChunks { .. }), "{input:?}");
        assert_eq!(e.span(), at(0, input.len()));
    }
}

#[test]
fn parser_numbers_must_be_positive_and_fit() {
    assert!(matches!(failure("@p:0:1\nc\n@@@\n"), FormatError::InvalidLineNumber { .. }));
    assert!(matches!(failure("@p:1:0\nc\n@@@\n"), FormatError::InvalidNumLines { .. }));
    assert!(matches!(failure("@p:-1:1\nc\n@@@\n"), FormatError::InvalidLineNumber { .. }));
    assert!(matches!(failure("@p:1 :1\nc\n@@@\n"), FormatError::InvalidLineNumber { .. }));
    assert!(matches!(failure("@p:+:1\nc\n@@@\n"), FormatError::InvalidLineNumber { .. }));
    assert!(matches!(failure("@p:1:2:3\nc\n@@@\n"), FormatError::InvalidNumLines { .. }));
    assert!(matches!(
        failure("@p:99999999999999999999999999:1\nc\n@@@\n"),
        FormatError::InvalidLineNumber { .. }
    ));
    let max = usize::MAX.to_string();
    let format = parse_format(&format!("@p:{max}:+007 \t\r\nc\n@@@")).unwrap();
    assert_eq!((format.0[0].start_line, format.0[0].num_lines), (usize::MAX, 7));
}

#[test]
fn parser_fails_as_a_whole() {
    // The first chunk is fine; the second is not: nothing is returned.
    let input = "@a:1:1\nx\n@@@\n@b:one:1\ny\n@@@\n";
    assert!(matches!(
        failure(input),
        FormatError::InvalidLineNumber { span, .. } if span == at(16, 3)
    ));
    // A comment without a line feed at the end is passed over.
    let format = parse_format("@a:1:1\nx\n@@@\ntrailing words").unwrap();
    assert_eq!(format.len(), 1);
}

#[test]
fn parser_reads_content_byte_for_byte() {
    let format = parse_format("@dir/ü.txt:3:2\n\n  \\\\@\\@@\r\n\\a\n@@@@ note\n").unwrap();
    let c = &format.0[0];
    assert_eq!((c.path.as_str(), c.start_line, c.num_lines), ("dir/ü.txt", 3, 2));
    assert_eq!(c.content, "\n  \\@@@\r\n\\a\n");
    let empty = parse_format("@p:1:1\n@@@").unwrap();
    assert_eq!(empty.0[0].content, "");
}

fn chunk(path: &str, start_line: usize, num_lines: usize, content: &str) -> Chunk {
    Chunk::new(path.to_string(), start_line, num_lines, content.to_string())
}

#[test]
fn reading_undoes_writing() {
    let original = Format(vec![
        chunk("src/lib.rs", 1, 3, "pub fn test() {\n    // test\n}\n"),
        chunk("src/lib.rs", 20, 1, "fn another() {}\n"),
        chunk("a b/@c.txt", 7, 2, "@@@\n\\@\\\\\n@ symbol and \\ backslash\r\n"),
        chunk("empty", usize::MAX, 1, ""),
        chunk("blank", 1, usize::MAX, "\n\n"),
    ]);
    let text = original.to_string();
    assert_eq!(
        text,
        "@src/lib.rs:1:3\npub fn test() {\n    // test\n}\n@@@\n\n\
         @src/lib.rs:20:1\nfn another() {}\n@@@\n\n\
         @a b/@c.txt:7:2\n\\@\\@\\@\n\\\\\\@\\\\\\\\\n\\@ symbol and \\\\ backslash\r\n@@@\n\n\
         @empty:18446744073709551615:1\n@@@\n\n\
         @blank:1:18446744073709551615\n\n\n@@@\n"
    );
    let read = parse_format(&text).unwrap();
    assert_eq!(read.len(), original.len());
    for (a, b) in read.0.iter().zip(original.0.iter()) {
        assert_eq!(a.path, b.path);
        assert_eq!(a.start_line, b.start_line);
        assert_eq!(a.num_lines, b.num_lines);
        assert_eq!(a.content, b.content);
    }
}

#[test]
fn writing_ends_content_with_a_line_feed() {
    // Content that does not end its last line is given a line feed, so
    // that the terminator begins a line; it reads back with that line feed.
    let text = Format(vec![chunk("p", 1, 1, "no line feed")]).to_string();
    assert_eq!(text, "@p:1:1\nno line feed\n@@@\n");
    assert_eq!(parse_format(&text).unwrap().0[0].content, "no line feed\n");
    assert_eq!(Format(vec![]).to_string(), "");
}

#[test]
fn types_test_format_roundtrip() {
    let original = Format(vec![
        Chunk::new(
            "src/lib.rs".to_string(),
            1,
            3,
            "pub fn test() {\n    // test\n}".to_string(),
        ),
        Chunk::new("src/lib.rs".to_string(), 20, 1, "fn another() {}".to_string()),
    ]);

    let serialized = original.to_string();
    let deserialized = Format::from_str(&serialized).unwrap();

    assert_eq!(deserialized.0.len(), original.0.len());
    for (i, chunk) in deserialized.0.iter().enumerate() {
        assert_eq!(chunk.path, original.0[i].path);
        assert_eq!(chunk.start_line, original.0[i].start_line);
        assert_eq!(chunk.num_lines, original.0[i].num_lines);
        // The end marker begins a line, so the last line of the content
        // is ended where it was not.
        assert_eq!(chunk.content, format!("{}\n", original.0[i].content));
    }
    // Content that ends its last line comes back as it was.
    assert_eq!(deserialized.to_string(), serialized);
}

#[test]
fn types_test_format_roundtrip_with_special_chars() {
    let original = Format(vec![Chunk::new(
        "test.txt".to_string(),
        1,
        2,
        "@ symbol and \\ backslash\nuser@email.com\\path\\to\\file".to_string(),
    )]);

    let serialized = original.to_string();
    let deserialized = Format::from_str(&serialized).unwrap();

    assert_eq!(deserialized.0[0].content, format!("{}\n", original.0[0].content));
    let again = Format::from_str(&deserialized.to_string()).unwrap();
    assert_eq!(again.0[0].content, deserialized.0[0].content);
}

#[test]
fn format_test_format_roundtrip() {
    let original = Format::new(vec![
        Chunk::new("src/lib.rs".to_string(), 1, 3, "pub fn test() {\n    // test\n}".to_string()),
        Chunk::new("src/lib.rs".to_string(), 20, 1, "fn another() {}".to_string()),
    ]);

    let serialized = original.to_string();
    let deserialized = Format::from_str(&serialized).unwrap();

    assert_eq!(deserialized.0[0].path, original.0[0].path);
    assert_eq!(deserialized.0.len(), original.0.len());
    for (i, chunk) in deserialized.0.iter().enumerate() {
        assert_eq!(chunk.start_line, original.0[i].start_line);
        assert_eq!(chunk.content, format!("{}\n", original.0[i].content));
    }
}

#[test]
fn format_test_format_roundtrip_with_special_chars() {
    let original = Format::new(vec![Chunk::new(
        "test.txt".to_string(),
        1,
        2,
        "@ symbol and \\ backslash\nuser@email.com\\path\\to\\file".to_string(),
    )]);

    let serialized = original.to_string();
    let deserialized = Format::from_str(&serialized).unwrap();

    assert_eq!(deserialized.0[0].content, format!("{}\n", original.0[0].content));
}
