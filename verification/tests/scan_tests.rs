use tlt_stops::scan::{
    col_at_memchr_bytes, column_end, occurrence_from, seek_after, seek_column, split_slices,
};
use tlt_stops::str_utils::{
    remove_trailing_newline, split_arrival_by_stops, split_stops_field, splits_commas,
};
use tlt_stops::services::ParsingUpstreamError;
use tlt_stops::text::{decode, decode_trimmed, is_blank, parse_u32};

#[test]
fn trailing_newline_is_removed_once() {
    assert_eq!(remove_trailing_newline(b"abc\n\n"), b"abc\n");
    assert_eq!(remove_trailing_newline(b"abc"), b"abc");
    assert_eq!(remove_trailing_newline(b"\n"), b"");
    assert_eq!(remove_trailing_newline(b""), b"");
}

#[test]
fn column_by_index() {
    let line = b"12;;;bus;;;;;;;Kopli;;;1001,1002,1003";
    assert_eq!(col_at_memchr_bytes(line, 0), Some(&b"12"[..]));
    assert_eq!(col_at_memchr_bytes(line, 1), Some(&b""[..]));
    assert_eq!(col_at_memchr_bytes(line, 3), Some(&b"bus"[..]));
    assert_eq!(col_at_memchr_bytes(line, 10), Some(&b"Kopli"[..]));
    assert_eq!(col_at_memchr_bytes(line, 13), Some(&b"1001,1002,1003"[..]));
    assert_eq!(col_at_memchr_bytes(line, 14), None);
}

#[test]
fn column_of_a_line_with_fewer_columns_is_absent() {
    assert_eq!(col_at_memchr_bytes(b"a;b", 2), None);
    assert_eq!(col_at_memchr_bytes(b"a;b", 1), Some(&b"b"[..]));
    assert_eq!(col_at_memchr_bytes(b"", 0), Some(&b""[..]));
    assert_eq!(col_at_memchr_bytes(b"", 1), None);
    assert_eq!(col_at_memchr_bytes(b"a;", 1), Some(&b""[..]));
}

#[test]
fn column_end_finds_the_next_delimiter() {
    assert_eq!(column_end(b"ab;cd;ef", b';', 0), 2);
    assert_eq!(column_end(b"ab;cd;ef", b';', 2), 2);
    assert_eq!(column_end(b"ab;cd;ef", b';', 3), 5);
    assert_eq!(column_end(b"ab;cd;ef", b';', 6), 8);
    assert_eq!(column_end(b"ab;cd;ef", b';', 8), 8);
}

#[test]
fn seek_column_gives_spans() {
    assert_eq!(seek_column(b"ab;cd;ef", b';', 0, 1), Some((3, 5)));
    assert_eq!(seek_column(b"ab;cd;ef", b';', 3, 1), Some((6, 8)));
    assert_eq!(seek_column(b"ab;cd;ef", b';', 3, 2), None);
    assert_eq!(seek_column(b"ab;cd;", b';', 0, 2), Some((6, 6)));
}

#[test]
fn occurrence_from_finds_the_next_mark() {
    let hay = b"x\nstop,1\nstop,2";
    assert_eq!(occurrence_from(hay, b"\nstop,", 0), 1);
    assert_eq!(occurrence_from(hay, b"\nstop,", 2), 8);
    assert_eq!(occurrence_from(hay, b"\nstop,", 9), hay.len());
}

#[test]
fn splits_commas_keeps_every_piece() {
    assert_eq!(splits_commas(b"1001,1002,1003"), Ok(vec!["1001".to_string(), "1002".to_string(), "1003".to_string()]));
    assert_eq!(splits_commas(b"1001"), Ok(vec!["1001".to_string()]));
    assert_eq!(splits_commas(b""), Ok(vec!["".to_string()]));
    assert_eq!(splits_commas(b"a,,b,"), Ok(vec!["a".to_string(), "".to_string(), "b".to_string(), "".to_string()]));
}

#[test]
fn splits_commas_rejects_invalid_utf8() {
    assert_eq!(splits_commas(b"1001,\xff,1003"), Err(ParsingUpstreamError::Utf8));
}

#[test]
fn stop_list_keeps_order_and_repetitions() {
    assert_eq!(
        split_stops_field(b"2001,2002,2001"),
        Ok(vec!["2001".to_string(), "2002".to_string(), "2001".to_string()])
    );
}

#[test]
fn stop_list_drops_an_empty_last_entry_only() {
    assert_eq!(split_stops_field(b""), Ok(vec![]));
    assert_eq!(split_stops_field(b"1,2,"), Ok(vec!["1".to_string(), "2".to_string()]));
    assert_eq!(split_stops_field(b"1,,2"), Ok(vec!["1".to_string(), "".to_string(), "2".to_string()]));
    assert_eq!(split_stops_field(b","), Ok(vec!["".to_string()]));
}

#[test]
fn stop_list_rejects_invalid_utf8() {
    assert_eq!(split_stops_field(b"1,\xc3"), Err(ParsingUpstreamError::Utf8));
}

#[test]
fn arrival_response_is_cut_at_block_marks() {
    let raw = b"Transport,RouteNum\nstop,5001\nbus,12,43200\nstop,5002\ntram,3,100\n";
    let blocks = split_arrival_by_stops(raw);
    assert_eq!(blocks.len(), 2);
    assert_eq!(blocks[0], &b"stop,5001\nbus,12,43200"[..]);
    assert_eq!(blocks[1], &b"stop,5002\ntram,3,100\n"[..]);
}

#[test]
fn arrival_response_without_marks_has_no_block() {
    assert_eq!(split_arrival_by_stops(b"no blocks here\n").len(), 0);
    assert_eq!(split_arrival_by_stops(b"").len(), 0);
    assert_eq!(split_arrival_by_stops(b"stop,5001\nbus,12,1").len(), 0);
}

#[test]
fn decode_reads_utf8() {
    assert_eq!(decode(b"Kopli"), Some("Kopli".to_string()));
    assert_eq!(decode("V\u{e4}ike-\u{d5}ism\u{e4}e".as_bytes()), Some("V\u{e4}ike-\u{d5}ism\u{e4}e".to_string()));
    assert_eq!(decode(b" padded "), Some(" padded ".to_string()));
    assert_eq!(decode(b"\xff\xfe"), None);
}

#[test]
fn decode_trimmed_drops_surrounding_whitespace() {
    assert_eq!(decode_trimmed(b"  Kopli \t"), Some("Kopli".to_string()));
    assert_eq!(decode_trimmed(b"Balti jaam"), Some("Balti jaam".to_string()));
    assert_eq!(decode_trimmed(b"   "), Some("".to_string()));
    assert_eq!(decode_trimmed("\u{a0}x\u{2003}".as_bytes()), Some("x".to_string()));
    assert_eq!(decode_trimmed(b" \xff "), None);
}

#[test]
fn blank_means_no_character() {
    assert!(is_blank(&String::new()));
    assert!(!is_blank(&" ".to_string()));
}

#[test]
fn parse_u32_reads_decimal_numbers() {
    assert_eq!(parse_u32(b"0"), Some(0));
    assert_eq!(parse_u32(b"43200"), Some(43200));
    assert_eq!(parse_u32(b"+5"), Some(5));
    assert_eq!(parse_u32(b"007"), Some(7));
    assert_eq!(parse_u32(b"4294967295"), Some(4294967295));
    assert_eq!(parse_u32(b"00000000004294967295"), Some(4294967295));
}

#[test]
fn parse_u32_rejects_what_is_no_number() {
    assert_eq!(parse_u32(b""), None);
    assert_eq!(parse_u32(b"+"), None);
    assert_eq!(parse_u32(b"-1"), None);
    assert_eq!(parse_u32(b"12a"), None);
    assert_eq!(parse_u32(b" 12"), None);
    assert_eq!(parse_u32(b"12 "), None);
    assert_eq!(parse_u32(b"++1"), None);
    assert_eq!(parse_u32(b"4294967296"), None);
    assert_eq!(parse_u32(b"99999999999999999999999"), None);
}

#[test]
fn parse_u32_agrees_with_std() {
    let cases: [&str; 8] = ["0", "+0", "12", "+", "", "4294967295", "4294967296", "1_000"];
    for text in cases {
        assert_eq!(parse_u32(text.as_bytes()), text.parse::<u32>().ok());
    }
}

#[test]
fn split_slices_gives_every_piece() {
    assert_eq!(split_slices(b"a;bc;;d", b';'), vec![&b"a"[..], &b"bc"[..], &b""[..], &b"d"[..]]);
    assert_eq!(split_slices(b"", b';'), vec![&b""[..]]);
    assert_eq!(split_slices(b";", b';'), vec![&b""[..], &b""[..]]);
    assert_eq!(split_slices(b"line\n", b'\n'), vec![&b"line"[..], &b""[..]]);
}

#[test]
fn seek_after_continues_from_a_column_end() {
    assert_eq!(seek_after(b"ab;cd;ef", b';', 2, 0), Some((3, 5)));
    assert_eq!(seek_after(b"ab;cd;ef", b';', 2, 1), Some((6, 8)));
    assert_eq!(seek_after(b"ab;cd;ef", b';', 2, 2), None);
    assert_eq!(seek_after(b"ab;cd;ef", b';', 8, 0), None);
    assert_eq!(seek_after(b"ab;", b';', 2, 0), Some((3, 3)));
}
