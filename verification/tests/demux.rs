use y4m_demux::demuxer::Event;
use y4m_demux::demuxer::Y4MDemuxer;
use y4m_demux::error::Error;
use y4m_demux::parser::header;
use y4m_demux::parser::header_token;
use y4m_demux::parser::probe;

#[test]
fn parse_headers() {
    let data = b"YUV4MPEG2 W176 H144\nFRAME\x00\x01\x02";
    let mut demuxer = Y4MDemuxer::new();
    let (stream, consumed) = demuxer.read_headers(data).expect("open failed");
    assert_eq!(stream.width, 176);
    assert_eq!(stream.height, 144);
    assert_eq!(stream.id, 0);
    assert_eq!(stream.index, 0);
    assert_eq!(stream.bit_rate, 1);
    assert_eq!(stream.timebase_num, 1);
    assert_eq!(stream.timebase_den, 1_000_000_000);
    assert_eq!(stream.start, None);
    assert_eq!(stream.duration, None);
    assert_eq!(consumed, 20);
}

#[test]
fn demux() {
    let data = b"YUV4MPEG2 W0 H0\n";
    let mut demuxer = Y4MDemuxer::new();
    let (stream, consumed) = demuxer.read_headers(data).expect("open failed");
    assert_eq!(stream.width, 0);
    assert_eq!(stream.height, 0);
    assert_eq!(consumed, data.len());
    // The whole input was consumed: the remaining buffer is empty.
    let event = demuxer.read_event(b"").expect("drain failed");
    assert_eq!(event, Event::Eof);
    // After end of input the session is closed.
    assert_eq!(demuxer.read_event(b""), Err(Error::InvalidState));
    assert_eq!(demuxer.read_event(b"more"), Err(Error::InvalidState));
}

#[test]
fn field_order_is_free_and_unknown_keys_are_skipped() {
    let (h, consumed) = header(b"YUV4MPEG2 H144 W176 C420\n").expect("parse failed");
    assert_eq!(h.width, 176);
    assert_eq!(h.height, 144);
    assert_eq!(consumed, 25);

    let (h, _) = header(b"YUV4MPEG2 C420 F25:1 Ip A1:1 W64 H32\n").expect("parse failed");
    assert_eq!(h.width, 64);
    assert_eq!(h.height, 32);
}

#[test]
fn last_occurrence_of_a_key_wins() {
    let (h, _) = header(b"YUV4MPEG2 W1 W2 H3 H4\n").expect("parse failed");
    assert_eq!(h.width, 2);
    assert_eq!(h.height, 4);
}

#[test]
fn absent_fields_default_to_zero() {
    let (h, _) = header(b"YUV4MPEG2 C420\n").expect("parse failed");
    assert_eq!(h.width, 0);
    assert_eq!(h.height, 0);
}

#[test]
fn malformed_numeric_value_is_tolerated() {
    let (h, _) = header(b"YUV4MPEG2 Wabc H144\n").expect("parse failed");
    assert_eq!(h.width, 0);
    assert_eq!(h.height, 144);

    // A value too large for the machine word is unparsable, not fatal.
    let (h, _) = header(b"YUV4MPEG2 W99999999999999999999999 H7\n").expect("parse failed");
    assert_eq!(h.width, 0);
    assert_eq!(h.height, 7);

    // An empty value is unparsable too.
    let (h, _) = header(b"YUV4MPEG2 W H5\n").expect("parse failed");
    assert_eq!(h.width, 0);
    assert_eq!(h.height, 5);
}

#[test]
fn values_are_plain_digit_strings() {
    // A sign is not part of a base-10 non-negative integer.
    let (h, _) = header(b"YUV4MPEG2 W+5 H-3\n").expect("parse failed");
    assert_eq!(h.width, 0);
    assert_eq!(h.height, 0);
    // Leading zeros are plain digits.
    let (h, _) = header(b"YUV4MPEG2 W007 H010\n").expect("parse failed");
    assert_eq!(h.width, 7);
    assert_eq!(h.height, 10);
}

#[test]
fn empty_tokens_are_skipped() {
    let (h, _) = header(b"YUV4MPEG2  W5\n").expect("parse failed");
    assert_eq!(h.width, 5);
    assert_eq!(h.height, 0);
}

#[test]
fn consumed_offset_stops_at_the_newline() {
    let data = b"YUV4MPEG2 C420 W64 H32 F25:1\nFRAME trailing bytes";
    let newline = data.iter().position(|&b| b == b'\n').unwrap();
    let (_, consumed) = header(data).expect("parse failed");
    assert_eq!(consumed, newline + 1);

    let mut demuxer = Y4MDemuxer::new();
    let (_, offset) = demuxer.read_headers(data).expect("open failed");
    assert_eq!(offset, newline + 1);
}

#[test]
fn need_more_input_without_a_newline() {
    assert_eq!(
        header(b"YUV4MPEG2 "),
        Err(Error::NeedMoreInput(1))
    );
    assert_eq!(
        header(b"YUV4MPEG2 W176 H144"),
        Err(Error::NeedMoreInput(1))
    );
    let mut demuxer = Y4MDemuxer::new();
    assert_eq!(
        demuxer.read_headers(b"YUV4MPEG2 W17"),
        Err(Error::NeedMoreInput(1))
    );
    // The failed open leaves the session reusable: a complete line opens it.
    assert!(demuxer.read_headers(b"YUV4MPEG2 W17 H3\n").is_ok());
}

#[test]
fn wrong_magic_is_not_this_format() {
    assert_eq!(header(b"FOOBAR"), Err(Error::NotThisFormat));
    assert_eq!(header(b"YUV4MPEG2\n"), Err(Error::NotThisFormat));
    assert_eq!(header(b""), Err(Error::NotThisFormat));
    assert_eq!(probe(b"FOOBAR"), 0);
    assert_eq!(probe(b"FOOBAR padded to eleven bytes"), 0);
    let mut demuxer = Y4MDemuxer::new();
    assert_eq!(demuxer.read_headers(b"FOOBAR"), Err(Error::NotThisFormat));
}

#[test]
fn probe_scores_the_magic_prefix() {
    assert_eq!(probe(b"YUV4MPEG2 W176 H144\n"), 10);
    assert_eq!(probe(b"YUV4MPEG2 \n"), 10);
    // A prefix shorter than eleven bytes is rejected, not inspected.
    assert_eq!(probe(b"YUV4MPEG2 "), 0);
    assert_eq!(probe(b""), 0);
}

#[test]
fn invalid_text_in_a_token_fails_the_parse() {
    assert_eq!(
        header(b"YUV4MPEG2 W1 X\x80Y H2\n"),
        Err(Error::InvalidEncoding)
    );
    // A well-formed multi-byte sequence in a comment is fine.
    let (h, _) = header(b"YUV4MPEG2 W3 X\xC3\xA9 H4\n").expect("parse failed");
    assert_eq!(h.width, 3);
    assert_eq!(h.height, 4);
}

#[test]
fn tokenizer_reports_the_delimiter() {
    let data = b"YUV4MPEG2 W1 H1\n";
    assert_eq!(header_token(data, 10), Ok(12));
    assert_eq!(header_token(data, 13), Ok(15));
    assert_eq!(header_token(b"YUV4MPEG2 W1", 10), Err(Error::NeedMoreInput(1)));
    assert_eq!(header_token(b"ab\x80c ", 0), Err(Error::InvalidEncoding));
    // An empty token ends at its own start.
    assert_eq!(header_token(b"YUV4MPEG2  W5\n", 10), Ok(10));
}

#[test]
fn frame_extraction_is_not_implemented_but_eof_still_works() {
    let data = b"YUV4MPEG2 W176 H144\nFRAME\n";
    let mut demuxer = Y4MDemuxer::new();
    let (_, consumed) = demuxer.read_headers(data).expect("open failed");
    let rest = &data[consumed..];
    assert_eq!(demuxer.read_event(rest), Err(Error::NotImplemented));
    // The failure does not corrupt the session: end of input is still seen.
    let event = demuxer.read_event(b"").expect("drain failed");
    assert_eq!(event, Event::Eof);
}

#[test]
fn a_session_opens_only_once() {
    let data = b"YUV4MPEG2 W1 H1\n";
    let mut demuxer = Y4MDemuxer::new();
    demuxer.read_headers(data).expect("open failed");
    assert_eq!(demuxer.read_headers(data), Err(Error::InvalidState));
    // A closed session rejects opening too.
    let event = demuxer.read_event(b"").expect("drain failed");
    assert_eq!(event, Event::Eof);
    assert_eq!(demuxer.read_headers(data), Err(Error::InvalidState));
}
