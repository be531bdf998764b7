use subrip::document::Document;
use subrip::errors::SrtError;
use subrip::parser::{ClipRecord, SRTParser};
use subrip::rich::ParagraphStyle;
use subrip::timecode::TimeCode;

fn parse_doc(text: &str) -> Result<Document, SrtError> {
    Document::from_srt(&text.as_bytes().to_vec())
}

#[test]
fn timecode_format_exact() {
    let t = TimeCode { milliseconds: 3661001 };
    assert_eq!(t.to_text(), b"01:01:01,001".to_vec());
}

#[test]
fn timecode_format_zero() {
    let t = TimeCode { milliseconds: 0 };
    assert_eq!(t.to_text(), b"00:00:00,000".to_vec());
}

#[test]
fn timecode_format_hours_unbounded() {
    let t = TimeCode { milliseconds: 100 * 3600000 + 7 * 60000 + 8 * 1000 + 9 };
    assert_eq!(t.to_text(), b"100:07:08,009".to_vec());
}

#[test]
fn timecode_parse_exact() {
    let t = TimeCode::build_from_str(&b"00:03:15,167".to_vec()).unwrap();
    assert_eq!(t.milliseconds, 195167);
}

#[test]
fn timecode_parse_round_trip() {
    for ms in [0u64, 1, 999, 1000, 59999, 3599999, 3600000, 86399999] {
        let t = TimeCode { milliseconds: ms };
        let back = TimeCode::build_from_str(&t.to_text()).unwrap();
        assert_eq!(back, t);
    }
}

#[test]
fn timecode_parse_missing_comma_fails() {
    let r = TimeCode::build_from_str(&b"00:00:01".to_vec());
    match r {
        Err(SrtError::MalformedTimecode { text }) => assert_eq!(text, b"00:00:01".to_vec()),
        other => panic!("expected MalformedTimecode, got {:?}", other),
    }
}

#[test]
fn timecode_parse_bad_fields_fail() {
    assert!(TimeCode::build_from_str(&b"aa:00:00,000".to_vec()).is_err());
    assert!(TimeCode::build_from_str(&b"00:00,000".to_vec()).is_err());
    assert!(TimeCode::build_from_str(&b"00:00:00:00,000".to_vec()).is_err());
    assert!(TimeCode::build_from_str(&b"00:00:00,".to_vec()).is_err());
    assert!(TimeCode::build_from_str(&b"".to_vec()).is_err());
}

#[test]
fn timecode_segments_exact() {
    let t = TimeCode { milliseconds: 2 * 3600000 + 3 * 60000 + 4 * 1000 + 5 };
    let s = t.get_time_segments();
    assert_eq!(s.hours, 2);
    assert_eq!(s.minutes, 3);
    assert_eq!(s.seconds, 4);
    assert_eq!(s.milliseconds, 5);
}

#[test]
fn boundary_no_identifier() {
    let d = parse_doc("00:00:01,000 --> 00:00:02,000\nHello").unwrap();
    assert_eq!(d.subtitles.len(), 1);
    assert_eq!(d.subtitles[0].identifier, None);
    assert_eq!(d.subtitles[0].start.milliseconds, 1000);
    assert_eq!(d.subtitles[0].stop.milliseconds, 2000);
    assert_eq!(d.subtitles[0].content, b"Hello".to_vec());
}

#[test]
fn failure_timecode_missing_millis() {
    let r = parse_doc("1\n00:00:01 --> 00:00:02\nHello");
    match r {
        Err(SrtError::DocumentBuildFailed { clip, cause }) => {
            assert_eq!(clip, 0);
            match *cause {
                SrtError::MalformedTimecode { text } => {
                    assert_eq!(text, b"00:00:01".to_vec());
                }
                other => panic!("expected MalformedTimecode cause, got {:?}", other),
            }
        }
        other => panic!("expected DocumentBuildFailed, got {:?}", other),
    }
}

#[test]
fn end_to_end_two_entries() {
    let input = "1\n00:00:01,000 --> 00:00:04,074\nHello world!\n\n2\n00:00:05,500 --> 00:00:07,000\nSecond line\n";
    let d = parse_doc(input).unwrap();
    assert_eq!(d.subtitles.len(), 2);
    assert_eq!(d.subtitles[0].identifier, Some(1));
    assert_eq!(d.subtitles[0].start.milliseconds, 1000);
    assert_eq!(d.subtitles[0].stop.milliseconds, 4074);
    assert_eq!(d.subtitles[0].content, b"Hello world!".to_vec());
    assert_eq!(d.subtitles[1].identifier, Some(2));
    assert_eq!(d.subtitles[1].start.milliseconds, 5500);
    assert_eq!(d.subtitles[1].stop.milliseconds, 7000);
    assert_eq!(d.subtitles[1].content, b"Second line".to_vec());
    assert_eq!(d.render_subrip(), input.as_bytes().to_vec());
}

#[test]
fn reserialize_idempotent() {
    let input = "00:00:01,000 --> 00:00:02,000\nNo number here\n\n7\n01:02:03,456 --> 01:02:04,000\ntwo lines\nof text\n";
    let d = parse_doc(input).unwrap();
    let rendered = d.render_subrip();
    let d2 = Document::from_srt(&rendered).unwrap();
    assert_eq!(d2.subtitles.len(), d.subtitles.len());
    for (a, b) in d.subtitles.iter().zip(d2.subtitles.iter()) {
        assert_eq!(a.identifier, b.identifier);
        assert_eq!(a.start, b.start);
        assert_eq!(a.stop, b.stop);
        assert_eq!(a.content, b.content);
    }
}

#[test]
fn order_preserved_regardless_of_identifiers() {
    let input = "5\n00:00:09,000 --> 00:00:10,000\nlater id first\n\n2\n00:00:01,000 --> 00:00:02,000\nsmaller id second";
    let d = parse_doc(input).unwrap();
    assert_eq!(d.subtitles[0].identifier, Some(5));
    assert_eq!(d.subtitles[0].content, b"later id first".to_vec());
    assert_eq!(d.subtitles[1].identifier, Some(2));
    assert_eq!(d.subtitles[1].content, b"smaller id second".to_vec());
}

#[test]
fn non_numeric_identifier_degrades_to_absent() {
    let d = parse_doc("12a\n00:00:01,000 --> 00:00:02,000\nHello").unwrap();
    assert_eq!(d.subtitles.len(), 1);
    assert_eq!(d.subtitles[0].identifier, None);
}

#[test]
fn empty_input_parses_to_empty_document() {
    let d = parse_doc("").unwrap();
    assert_eq!(d.subtitles.len(), 0);
    assert_eq!(d.render_subrip(), Vec::<u8>::new());
}

#[test]
fn blank_lines_only_parse_to_empty_document() {
    let d = parse_doc("\n\n\n").unwrap();
    assert_eq!(d.subtitles.len(), 0);
}

#[test]
fn extra_blank_lines_between_clips() {
    let input = "\n\n1\n00:00:01,000 --> 00:00:02,000\nA\n\n\n\n2\n00:00:03,000 --> 00:00:04,000\nB\n\n";
    let d = parse_doc(input).unwrap();
    assert_eq!(d.subtitles.len(), 2);
    assert_eq!(d.subtitles[0].content, b"A".to_vec());
    assert_eq!(d.subtitles[1].content, b"B".to_vec());
}

#[test]
fn malformed_header_single_line_clip() {
    let r = parse_doc("hello");
    match r {
        Err(SrtError::MalformedHeader { clip, text }) => {
            assert_eq!(clip, 0);
            assert_eq!(text, b"hello".to_vec());
        }
        other => panic!("expected MalformedHeader, got {:?}", other),
    }
}

#[test]
fn malformed_header_second_line_not_timerange() {
    let r = parse_doc("1\nnot a timerange\nHello");
    match r {
        Err(SrtError::MalformedHeader { clip, text }) => {
            assert_eq!(clip, 0);
            assert_eq!(text, b"not a timerange".to_vec());
        }
        other => panic!("expected MalformedHeader, got {:?}", other),
    }
}

#[test]
fn malformed_header_names_failing_clip_index() {
    let r = parse_doc("1\n00:00:01,000 --> 00:00:02,000\nfine\n\nbroken");
    match r {
        Err(SrtError::MalformedHeader { clip, text }) => {
            assert_eq!(clip, 1);
            assert_eq!(text, b"broken".to_vec());
        }
        other => panic!("expected MalformedHeader, got {:?}", other),
    }
}

#[test]
fn malformed_clip_without_content() {
    let r = parse_doc("00:00:01,000 --> 00:00:02,000");
    match r {
        Err(SrtError::MalformedClip { clip }) => assert_eq!(clip, 0),
        other => panic!("expected MalformedClip, got {:?}", other),
    }
}

#[test]
fn multiline_content_preserved() {
    let d = parse_doc("1\n00:00:00,000 --> 00:00:01,000\nline one\nline two").unwrap();
    assert_eq!(d.subtitles[0].content, b"line one\nline two".to_vec());
}

#[test]
fn subtitle_timestamp_and_as_subrip() {
    let d = parse_doc("3\n00:00:01,500 --> 00:00:02,250\nHi").unwrap();
    let s = &d.subtitles[0];
    assert_eq!(s.timestamp(), b"00:00:01,500 --> 00:00:02,250".to_vec());
    assert_eq!(s.as_subrip(), b"3\n00:00:01,500 --> 00:00:02,250\nHi".to_vec());
}

#[test]
fn as_subrip_without_identifier() {
    let d = parse_doc("00:00:01,500 --> 00:00:02,250\nHi").unwrap();
    assert_eq!(
        d.subtitles[0].as_subrip(),
        b"00:00:01,500 --> 00:00:02,250\nHi".to_vec()
    );
}

#[test]
fn render_rich_two_paragraphs_per_entry() {
    let d = parse_doc("1\n00:00:01,000 --> 00:00:02,000\nHello\n\n2\n00:00:03,000 --> 00:00:04,000\nWorld").unwrap();
    let paragraphs = d.render_rich();
    assert_eq!(paragraphs.len(), 4);
    assert_eq!(paragraphs[0].style, ParagraphStyle::Timestamp);
    assert_eq!(paragraphs[0].text, b"00:00:01,000 --> 00:00:02,000".to_vec());
    assert_eq!(paragraphs[1].style, ParagraphStyle::MainContent);
    assert_eq!(paragraphs[1].text, b"Hello".to_vec());
    assert_eq!(paragraphs[2].style, ParagraphStyle::Timestamp);
    assert_eq!(paragraphs[2].text, b"00:00:03,000 --> 00:00:04,000".to_vec());
    assert_eq!(paragraphs[3].style, ParagraphStyle::MainContent);
    assert_eq!(paragraphs[3].text, b"World".to_vec());
}

#[test]
fn parser_yields_raw_records() {
    let recs = SRTParser::parse(&b"41\n00:00:01,000 --> 00:00:02,000\nHello".to_vec()).unwrap();
    assert_eq!(recs.len(), 1);
    assert_eq!(recs[0].identifier, Some(b"41".to_vec()));
    assert_eq!(recs[0].start_text, b"00:00:01,000".to_vec());
    assert_eq!(recs[0].stop_text, b"00:00:02,000".to_vec());
    assert_eq!(recs[0].content, b"Hello".to_vec());
}

#[test]
fn build_document_from_records() {
    let records = vec![ClipRecord {
        identifier: Some(b"9".to_vec()),
        start_text: b"00:00:01,000".to_vec(),
        stop_text: b"00:00:02,000".to_vec(),
        content: b"Built".to_vec(),
    }];
    let d = Document::build_document(&records).unwrap();
    assert_eq!(d.subtitles.len(), 1);
    assert_eq!(d.subtitles[0].identifier, Some(9));
    assert_eq!(d.subtitles[0].start.milliseconds, 1000);
    assert_eq!(d.subtitles[0].stop.milliseconds, 2000);
    assert_eq!(d.subtitles[0].content, b"Built".to_vec());
}

#[test]
fn oversized_identifier_degrades_to_absent() {
    let d = parse_doc("99999999999999999999999999\n00:00:01,000 --> 00:00:02,000\nHello").unwrap();
    assert_eq!(d.subtitles[0].identifier, None);
}

#[test]
fn lenient_timecode_field_widths() {
    let d = parse_doc("0:3:15,7 --> 1:2:3,4\nHello").unwrap();
    assert_eq!(
        d.subtitles[0].start.milliseconds,
        3 * 60000 + 15 * 1000 + 7
    );
    assert_eq!(
        d.subtitles[0].stop.milliseconds,
        3600000 + 2 * 60000 + 3 * 1000 + 4
    );
}

#[test]
fn content_line_with_arrow_stays_content() {
    let d = parse_doc("1\n00:00:01,000 --> 00:00:02,000\nA --> B").unwrap();
    assert_eq!(d.subtitles[0].content, b"A --> B".to_vec());
}
