use azuki::dictionary::{decode_content, hiragana_to_okuri_symbol, parse_entry, Dictionary};

const TEST_DICT: &str = ";; -*- mode: fundamental; coding: utf-8 -*-
;; okuri-ari entries.
かk /書/欠/
うごk /動/
よm /読/
;; okuri-nasi entries.
きょう /今日/京/教/
あずき /小豆/
かんじ /漢字;kanji/感じ/
";

fn load_test_dictionary() -> Dictionary {
    let (text, _) = decode_content(TEST_DICT.as_bytes());
    Dictionary::from_text(&text)
}

#[test]
fn test_parse_entry() {
    let (reading, candidates) = parse_entry("きょう /今日/京/教/").unwrap();
    assert_eq!(reading, "きょう");
    assert_eq!(candidates, vec!["今日", "京", "教"]);
}

#[test]
fn test_parse_entry_with_annotation() {
    let (reading, candidates) = parse_entry("かんじ /漢字;kanji/感じ/").unwrap();
    assert_eq!(reading, "かんじ");
    assert_eq!(candidates, vec!["漢字", "感じ"]);
}

#[test]
fn test_parse_entry_empty() {
    assert!(parse_entry("invalid").is_none());
    assert!(parse_entry("reading //").is_none());
}

#[test]
fn test_load_dictionary_utf8() {
    let dict = load_test_dictionary();
    assert!(!dict.is_empty());

    let candidates = dict.lookup("きょう").unwrap();
    assert_eq!(candidates, &vec!["今日", "京", "教"]);

    let candidates = dict.lookup("あずき").unwrap();
    assert_eq!(candidates, &vec!["小豆"]);

    assert!(dict.lookup("そんざいしない").is_none());
}

#[test]
fn test_decode_content_utf8() {
    let utf8_bytes = "きょう /今日/".as_bytes();
    let (decoded, encoding) = decode_content(utf8_bytes);
    assert_eq!(decoded, "きょう /今日/");
    assert_eq!(encoding, "UTF-8");
}

#[test]
fn test_decode_content_eucjp() {
    let eucjp_bytes: Vec<u8> = vec![
        0xA4, 0xAD, 0xA4, 0xE7, 0xA4, 0xA6, // きょう
        0x20, 0x2F, // " /"
        0xBA, 0xA3, 0xC6, 0xFC, // 今日
        0x2F, // "/"
    ];
    let (decoded, encoding) = decode_content(&eucjp_bytes);
    assert_eq!(decoded, "きょう /今日/");
    assert_eq!(encoding, "EUC-JP");
}

#[test]
fn test_lookup_with_fallback_found() {
    let dict = load_test_dictionary();
    let result = dict.lookup_with_fallback("きょう");
    assert!(result.contains(&"今日".to_string()));
    assert!(result.contains(&"きょう".to_string()));
}

#[test]
fn test_lookup_with_fallback_not_found() {
    let dict = load_test_dictionary();
    let result = dict.lookup_with_fallback("そんざいしない");
    assert_eq!(result, vec!["そんざいしない"]);
}

#[test]
fn test_lookup_with_fallback_empty_string() {
    let dict = load_test_dictionary();
    let result = dict.lookup_with_fallback("");
    assert_eq!(result, vec![""]);
}

#[test]
fn test_hiragana_to_okuri_symbol() {
    assert_eq!(hiragana_to_okuri_symbol('か'), Some('k'));
    assert_eq!(hiragana_to_okuri_symbol('き'), Some('k'));
    assert_eq!(hiragana_to_okuri_symbol('く'), Some('k'));
    assert_eq!(hiragana_to_okuri_symbol('す'), Some('s'));
    assert_eq!(hiragana_to_okuri_symbol('が'), Some('g'));
    assert_eq!(hiragana_to_okuri_symbol('あ'), Some('あ'));
    assert_eq!(hiragana_to_okuri_symbol('い'), Some('い'));
    assert_eq!(hiragana_to_okuri_symbol('む'), Some('m'));
    assert_eq!(hiragana_to_okuri_symbol('ー'), None);
}

#[test]
fn test_load_okuri_ari() {
    let dict = load_test_dictionary();
    assert!(dict.okuri_ari_len() > 0);
}

#[test]
fn test_lookup_okuri_ari() {
    let dict = load_test_dictionary();

    let candidates = dict.lookup_okuri_ari("か", 'く').unwrap();
    assert!(candidates.contains(&"書".to_string()));
    assert!(candidates.contains(&"欠".to_string()));

    let candidates = dict.lookup_okuri_ari("うご", 'く').unwrap();
    assert!(candidates.contains(&"動".to_string()));

    let candidates = dict.lookup_okuri_ari("よ", 'む').unwrap();
    assert!(candidates.contains(&"読".to_string()));

    assert!(dict.lookup_okuri_ari("そんざい", 'く').is_none());
}

#[test]
fn test_lookup_combined() {
    let dict = load_test_dictionary();

    let result = dict.lookup_combined("かく");
    assert!(result.contains(&"書く".to_string()));
    assert!(result.contains(&"欠く".to_string()));
    assert!(result.contains(&"かく".to_string()));

    let result = dict.lookup_combined("よむ");
    assert!(result.contains(&"読む".to_string()));

    let result = dict.lookup_combined("きょう");
    assert!(result.contains(&"今日".to_string()));
}

#[test]
fn test_lookup_combined_single_char() {
    let dict = load_test_dictionary();
    let result = dict.lookup_combined("あ");
    assert_eq!(result, vec!["あ"]);
}
