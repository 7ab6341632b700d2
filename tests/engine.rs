use azuki::converter::{merge_candidates, AdjustDirection, Converter, Segment};
use azuki::dictionary::{Dictionary, DictionaryError};
use azuki::message::{parse_direction, Request, Response, SegmentInput, Server};
use azuki::protocol::{encode_message, frame_length, FrameError, MAX_MESSAGE_SIZE};

fn strings(items: &[&str]) -> Vec<String> {
    items.iter().map(|s| s.to_string()).collect()
}

fn dictionary_with(entries: &[(&str, &[&str])]) -> Dictionary {
    let mut dict = Dictionary::new();
    for (reading, candidates) in entries {
        dict.insert(reading.to_string(), strings(candidates));
    }
    dict
}

fn spans(segments: &[Segment]) -> Vec<(usize, usize)> {
    segments.iter().map(|s| (s.start, s.length)).collect()
}

fn readings(segments: &[Segment]) -> Vec<String> {
    segments.iter().map(|s| s.reading.clone()).collect()
}

#[test]
fn longest_match_segmentation() {
    let converter = Converter::new(Some(dictionary_with(&[("きょう", &["今日"])])));
    let segments = converter.segment_with_info("きょうは");
    assert_eq!(readings(&segments), vec!["きょう", "は"]);
    assert_eq!(spans(&segments), vec![(0, 3), (3, 1)]);
    assert_eq!(segments[0].candidates, vec!["今日", "きょう"]);
    assert_eq!(segments[1].candidates, vec!["は"]);
}

#[test]
fn segments_concatenate_to_reading() {
    let converter = Converter::new(Some(dictionary_with(&[
        ("きょう", &["今日"]),
        ("は", &["葉", "歯"]),
        ("いい", &["良い"]),
    ])));
    let reading = "きょうはいいてんき";
    let segments = converter.segment_with_info(reading);
    let joined: String = segments.iter().map(|s| s.reading.as_str()).collect();
    assert_eq!(joined, reading);
    let total: usize = segments.iter().map(|s| s.length).sum();
    assert_eq!(total, reading.chars().count());
    assert_eq!(
        readings(&segments),
        vec!["きょう", "は", "いい", "て", "ん", "き"]
    );
}

#[test]
fn inflected_combination() {
    let mut dict = Dictionary::new();
    dict.insert_okuri_ari("かk".to_string(), strings(&["書", "欠"]));
    let result = dict.lookup_combined("かく");
    assert_eq!(result, vec!["書く", "欠く", "かく"]);
}

#[test]
fn combined_lookup_skips_duplicates() {
    let mut dict = Dictionary::new();
    dict.insert("かく".to_string(), strings(&["書く", "核"]));
    dict.insert_okuri_ari("かk".to_string(), strings(&["書", "描"]));
    assert_eq!(dict.lookup_combined("かく"), vec!["書く", "核", "描く", "かく"]);
    assert!(dict.lookup_combined("").is_empty());
}

#[test]
fn has_candidates_checks_both_tables() {
    let mut dict = Dictionary::new();
    dict.insert("きょう".to_string(), strings(&["今日"]));
    dict.insert_okuri_ari("よm".to_string(), strings(&["読"]));
    assert!(dict.has_candidates("きょう"));
    assert!(dict.has_candidates("よむ"));
    assert!(!dict.has_candidates("よー"));
    assert!(!dict.has_candidates("む"));
    assert_eq!(dict.len(), 2);
    assert_eq!(dict.okuri_ari_len(), 1);
}

#[test]
fn insert_replaces_existing_reading() {
    let mut dict = Dictionary::new();
    assert!(dict.is_empty());
    dict.insert("きょう".to_string(), strings(&["京"]));
    dict.insert("きょう".to_string(), strings(&["今日"]));
    assert_eq!(dict.len(), 1);
    assert_eq!(dict.lookup("きょう").unwrap(), &vec!["今日"]);
}

#[test]
fn exact_match_conversion() {
    let converter = Converter::new(Some(dictionary_with(&[("あずき", &["小豆"])])));
    let result = converter.convert_with_segments("あずき");
    assert_eq!(result.combined_candidates, vec!["小豆", "あずき"]);
}

#[test]
fn empty_input_conversion() {
    let converter = Converter::new(Some(dictionary_with(&[("あずき", &["小豆"])])));
    let result = converter.convert_with_segments("");
    assert!(result.combined_candidates.is_empty());
    assert!(result.segments.is_empty());
    assert!(converter.segment_with_info("").is_empty());
}

#[test]
fn empty_dictionary_passes_through() {
    for converter in [Converter::new(Some(Dictionary::new())), Converter::new(None)] {
        let result = converter.convert_with_segments("きょうは");
        assert_eq!(result.segments.len(), 1);
        assert_eq!(result.segments[0].reading, "きょうは");
        assert_eq!(result.segments[0].start, 0);
        assert_eq!(result.segments[0].length, 4);
        assert_eq!(result.segments[0].candidates, vec!["きょうは"]);
        assert_eq!(result.combined_candidates, vec!["きょうは"]);
    }
}

#[test]
fn unmatched_reading_keeps_single_candidate() {
    let converter = Converter::new(Some(dictionary_with(&[("きょう", &["今日"])])));
    let result = converter.convert_with_segments("あい");
    assert_eq!(result.combined_candidates, vec!["あい"]);
    assert_eq!(readings(&result.segments), vec!["あ", "い"]);
}

fn sample() -> (Converter, Vec<Segment>) {
    let converter = Converter::new(Some(dictionary_with(&[
        ("きょう", &["今日"]),
        ("は", &["葉"]),
        ("きょうは", &["今日は"]),
        ("うは", &["右派"]),
    ])));
    let segments = vec![
        Segment { reading: "きょう".to_string(), start: 0, length: 3, candidates: strings(&["今日"]) },
        Segment { reading: "はれ".to_string(), start: 3, length: 2, candidates: strings(&["晴れ"]) },
    ];
    (converter, segments)
}

#[test]
fn adjust_last_segment_is_no_op() {
    let (converter, segments) = sample();
    for direction in [AdjustDirection::Shrink, AdjustDirection::Extend] {
        let result = converter.adjust_segment("きょうはれ", &segments, 1, direction);
        assert_eq!(readings(&result), readings(&segments));
        assert_eq!(spans(&result), spans(&segments));
        assert_eq!(result[1].candidates, vec!["晴れ"]);
    }
}

#[test]
fn adjust_out_of_range_is_no_op() {
    let (converter, segments) = sample();
    let result = converter.adjust_segment("きょうはれ", &segments, 7, AdjustDirection::Extend);
    assert_eq!(spans(&result), spans(&segments));
    assert!(converter
        .adjust_segment("", &[], 0, AdjustDirection::Shrink)
        .is_empty());
}

#[test]
fn adjust_shrink_moves_one_character() {
    let (converter, segments) = sample();
    let result = converter.adjust_segment("きょうはれ", &segments, 0, AdjustDirection::Shrink);
    assert_eq!(readings(&result), vec!["きょ", "うはれ"]);
    assert_eq!(spans(&result), vec![(0, 2), (2, 3)]);
    assert_eq!(result[0].candidates, vec!["きょ"]);
    assert_eq!(result[1].candidates, vec!["うはれ"]);
}

#[test]
fn adjust_extend_moves_one_character() {
    let (converter, segments) = sample();
    let result = converter.adjust_segment("きょうはれ", &segments, 0, AdjustDirection::Extend);
    assert_eq!(readings(&result), vec!["きょうは", "れ"]);
    assert_eq!(spans(&result), vec![(0, 4), (4, 1)]);
    assert_eq!(result[0].candidates, vec!["今日は", "きょうは"]);
    let again = converter.adjust_segment("きょうはれ", &result, 0, AdjustDirection::Extend);
    assert_eq!(spans(&again), spans(&result));
}

#[test]
fn adjust_shrink_of_single_character_is_no_op() {
    let (converter, _) = sample();
    let segments = vec![
        Segment { reading: "は".to_string(), start: 0, length: 1, candidates: strings(&["葉"]) },
        Segment { reading: "れ".to_string(), start: 1, length: 1, candidates: strings(&["れ"]) },
    ];
    let result = converter.adjust_segment("はれ", &segments, 0, AdjustDirection::Shrink);
    assert_eq!(spans(&result), vec![(0, 1), (1, 1)]);
    assert_eq!(result[0].candidates, vec!["葉"]);
}

#[test]
fn shrink_then_extend_restores_boundaries() {
    let (converter, segments) = sample();
    let shrunk = converter.adjust_segment("きょうはれ", &segments, 0, AdjustDirection::Shrink);
    let back = converter.adjust_segment("きょうはれ", &shrunk, 0, AdjustDirection::Extend);
    assert_eq!(spans(&back), spans(&segments));
    assert_eq!(readings(&back), readings(&segments));
    assert_eq!(back[0].candidates, vec!["今日", "きょう"]);
    assert_eq!(back[1].candidates, vec!["はれ"]);
}

#[test]
fn neural_candidates_come_first() {
    let merged = merge_candidates(Some(strings(&["今日は", "きょうは"])), strings(&["今日葉", "きょうは"]));
    assert_eq!(merged, vec!["今日は", "きょうは", "今日葉"]);
    assert_eq!(merge_candidates(None, strings(&["今日"])), vec!["今日"]);
}

#[test]
fn directions_by_name() {
    assert_eq!(parse_direction("shrink"), Some(AdjustDirection::Shrink));
    assert_eq!(parse_direction("extend"), Some(AdjustDirection::Extend));
    assert_eq!(parse_direction("Shrink"), None);
    assert_eq!(parse_direction(""), None);
}

#[test]
fn dictionary_error_messages() {
    assert_eq!(DictionaryError::Io("gone".to_string()).message(), "IO error: gone");
    assert_eq!(DictionaryError::Parse("bad".to_string()).message(), "Parse error: bad");
}

#[test]
fn sections_and_line_endings() {
    let text = "よm /読/\r\n;; okuri-nasi entries.\r\nきょう /今日/\r\n; comment\r\n\r\nかんじ /\u{3000}漢字\u{3000}/感じ/";
    let dict = Dictionary::from_text(text);
    assert_eq!(dict.lookup_okuri_ari("よ", 'む').unwrap(), &vec!["読"]);
    assert_eq!(dict.lookup("きょう").unwrap(), &vec!["今日"]);
    assert_eq!(dict.lookup("かんじ").unwrap(), &vec!["漢字", "感じ"]);
    assert_eq!(dict.len(), 3);
}

#[test]
fn server_init_and_shutdown() {
    let server = Server::with_converter(Converter::new(None), "0.1.0".to_string());
    let response = server.handle_request(
        Request::Init { seq: 1, session_id: None },
        "session_7".to_string(),
        None,
    );
    match response {
        Response::InitResult { seq, session_id, version, has_dictionary } => {
            assert_eq!(seq, 1);
            assert_eq!(session_id, "session_7");
            assert_eq!(version, "0.1.0");
            assert!(!has_dictionary);
        }
        _ => panic!("Expected InitResult"),
    }
    match server.handle_request(Request::Shutdown { seq: 99, session_id: None }, String::new(), None) {
        Response::ShutdownResult { seq } => assert_eq!(seq, 99),
        _ => panic!("Expected ShutdownResult"),
    }
}

#[test]
fn server_convert_merges_neural_candidates() {
    let converter = Converter::new(Some(dictionary_with(&[("きょう", &["今日"])])));
    let server = Server::with_converter(converter, "0.1.0".to_string());
    let request = Request::Convert {
        seq: 42,
        session_id: "abc".to_string(),
        reading: "きょうは".to_string(),
        cursor: None,
        options: None,
    };
    match server.handle_request(request, String::new(), Some(strings(&["今日は"]))) {
        Response::ConvertResult { seq, session_id, candidates, segments } => {
            assert_eq!(seq, 42);
            assert_eq!(session_id, "abc");
            assert_eq!(candidates, vec!["今日は", "きょうは"]);
            assert_eq!(segments.len(), 2);
            assert_eq!(segments[0].reading, "きょう");
        }
        _ => panic!("Expected ConvertResult"),
    }
}

#[test]
fn server_adjust_and_errors() {
    let server = Server::with_converter(Converter::new(None), "0.1.0".to_string());
    let input = |reading: &str, start, length| SegmentInput {
        reading: reading.to_string(),
        start,
        length,
        candidates: vec![reading.to_string()],
    };
    let request = Request::AdjustSegment {
        seq: 5,
        session_id: "s".to_string(),
        reading: "きょうは".to_string(),
        segments: vec![input("きょう", 0, 3), input("は", 3, 1)],
        segment_index: 0,
        direction: "shrink".to_string(),
    };
    match server.handle_request(request, String::new(), None) {
        Response::AdjustSegmentResult { seq, segments, .. } => {
            assert_eq!(seq, 5);
            let got: Vec<(String, usize, usize)> =
                segments.into_iter().map(|s| (s.reading, s.start, s.length)).collect();
            assert_eq!(got, vec![("きょ".to_string(), 0, 2), ("うは".to_string(), 2, 2)]);
        }
        _ => panic!("Expected AdjustSegmentResult"),
    }
    let request = Request::AdjustSegment {
        seq: 6,
        session_id: "s".to_string(),
        reading: "きょうは".to_string(),
        segments: vec![input("きょう", 0, 3)],
        segment_index: 0,
        direction: "sideways".to_string(),
    };
    match server.handle_request(request, String::new(), None) {
        Response::Error { seq, session_id, error } => {
            assert_eq!(seq, 6);
            assert_eq!(session_id, Some("s".to_string()));
            assert_eq!(error, "Invalid direction: sideways");
        }
        _ => panic!("Expected Error"),
    }
    let request = Request::AdjustSegment {
        seq: 8,
        session_id: "s".to_string(),
        reading: "は".to_string(),
        segments: vec![input("きょう", 0, 3)],
        segment_index: 0,
        direction: "extend".to_string(),
    };
    match server.handle_request(request, String::new(), None) {
        Response::Error { error, .. } => assert_eq!(error, "Segments exceed the reading"),
        _ => panic!("Expected Error"),
    }
}

#[test]
fn frames_round_trip() {
    let msg = r#"{"type":"init","seq":1}"#;
    let frame = encode_message(msg);
    assert_eq!(&frame[..4], &[0, 0, 0, 23]);
    assert_eq!(&frame[4..], msg.as_bytes());
    assert_eq!(frame_length(&frame[..4]), Ok(23));
    assert_eq!(frame_length(&[0x01, 0x02, 0x03, 0x04]), Err(FrameError::TooLarge(0x0102_0304)));
    assert_eq!(frame_length(&MAX_MESSAGE_SIZE.to_be_bytes()), Ok(MAX_MESSAGE_SIZE as usize));
    assert_eq!(
        frame_length(&(MAX_MESSAGE_SIZE + 1).to_be_bytes()),
        Err(FrameError::TooLarge(MAX_MESSAGE_SIZE + 1))
    );
}

#[test]
fn protocol_test_read_write_message() {
    let msg = r#"{"type":"init","seq":1}"#;
    let buf = encode_message(msg);
    let len = frame_length(&buf[..4]).unwrap();
    let read_msg = String::from_utf8(buf[4..4 + len].to_vec()).unwrap();
    assert_eq!(read_msg, msg);
}

#[test]
fn test_message_too_large() {
    let buf = (MAX_MESSAGE_SIZE + 1).to_be_bytes();
    let result = frame_length(&buf);
    assert!(result.is_err());
}

fn test_server() -> Server {
    Server::with_converter(Converter::new(None), "0.1.0".to_string())
}

#[test]
fn handler_test_init_request() {
    let server = test_server();
    let request = Request::Init { seq: 1, session_id: None };
    match server.handle_request(request, "session_1".to_string(), None) {
        Response::InitResult { seq, version, has_dictionary, .. } => {
            assert_eq!(seq, 1);
            assert!(!version.is_empty());
            assert!(!has_dictionary);
        }
        _ => panic!("Expected InitResult"),
    }
}

#[test]
fn handler_test_convert_request() {
    let server = test_server();
    let request = Request::Convert {
        seq: 42,
        session_id: "abc".to_string(),
        reading: "きょうは".to_string(),
        cursor: None,
        options: None,
    };
    match server.handle_request(request, String::new(), None) {
        Response::ConvertResult { seq, session_id, candidates, .. } => {
            assert_eq!(seq, 42);
            assert_eq!(session_id, "abc");
            assert!(!candidates.is_empty());
            assert_eq!(candidates[0], "きょうは");
        }
        _ => panic!("Expected ConvertResult"),
    }
}

#[test]
fn handler_test_shutdown_request() {
    let server = test_server();
    match server.handle_request(Request::Shutdown { seq: 99, session_id: None }, String::new(), None) {
        Response::ShutdownResult { seq } => assert_eq!(seq, 99),
        _ => panic!("Expected ShutdownResult"),
    }
}

#[test]
fn commit_is_acknowledged() {
    let server = test_server();
    let request = Request::Commit {
        seq: 3,
        session_id: "abc".to_string(),
        reading: "きょう".to_string(),
        candidate: "今日".to_string(),
    };
    match server.handle_request(request, String::new(), None) {
        Response::CommitResult { seq, session_id, success } => {
            assert_eq!(seq, 3);
            assert_eq!(session_id, "abc");
            assert!(success);
        }
        _ => panic!("Expected CommitResult"),
    }
}
