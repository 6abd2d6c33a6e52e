use lsif_indexer::lsp_framing::{
    header_length, headers_content_length, is_header_end, length_field, message_header, parse_usize, FramingError,
    HeaderLength,
};

fn chars(s: &str) -> Vec<char> {
    s.chars().collect()
}

#[test]
fn usize_parsing_follows_str_parse() {
    assert_eq!(parse_usize(&chars("42")), Some(42));
    assert_eq!(parse_usize(&chars("+7")), Some(7));
    assert_eq!(parse_usize(&chars("")), None);
    assert_eq!(parse_usize(&chars("+")), None);
    assert_eq!(parse_usize(&chars("-1")), None);
    assert_eq!(parse_usize(&chars("1 2")), None);
    assert_eq!(parse_usize(&chars("18446744073709551615")), "18446744073709551615".parse::<usize>().ok());
    assert_eq!(parse_usize(&chars("99999999999999999999")), None);
}

#[test]
fn header_lines_give_the_length() {
    assert_eq!(header_length("Content-Length: 123\r\n"), HeaderLength::Length(123));
    assert_eq!(header_length("Content-Length:45"), HeaderLength::Length(45));
    assert_eq!(header_length("Content-Length:Content-Length: 6\r\n"), HeaderLength::Length(6));
    assert_eq!(header_length("Content-Type: utf-8\r\n"), HeaderLength::NotLength);
    assert_eq!(header_length("Content-Length: abc\r\n"), HeaderLength::Invalid);
    assert_eq!(length_field("Content-Length: 123\r\n"), HeaderLength::Length(123));
    assert_eq!(length_field("Content-Length:45"), HeaderLength::NotLength);
    assert_eq!(length_field("Content-Length: x"), HeaderLength::Invalid);
}

#[test]
fn header_blocks_end_with_an_empty_line() {
    assert!(is_header_end("\r\n"));
    assert!(is_header_end("\n"));
    assert!(!is_header_end(" \r\n"));
    assert!(!is_header_end("Content-Length: 1\r\n"));
}

#[test]
fn the_last_length_header_of_a_block_counts() {
    let block = vec!["Content-Length: 10\r\n".to_string(), "Content-Type: x\r\n".to_string(), "Content-Length: 12\r\n".to_string()];
    assert_eq!(headers_content_length(&block), Ok(12));
    assert_eq!(headers_content_length(&vec![]), Ok(0));
    let bad = vec!["Content-Length: 1\r\n".to_string(), "Content-Length: one\r\n".to_string()];
    assert_eq!(headers_content_length(&bad), Err(FramingError::InvalidLength));
}

#[test]
fn written_headers_read_back() {
    let content = "{\"jsonrpc\":\"2.0\",\"id\":1,\"method\":\"ü\"}";
    let header = message_header(content);
    assert_eq!(header, format!("Content-Length: {}\r\n\r\n", content.len()));
    let first_line = &header[..header.find('\n').unwrap() + 1];
    assert_eq!(header_length(first_line), HeaderLength::Length(content.len()));
    assert_eq!(length_field(first_line), HeaderLength::Length(content.len()));
}
