use azuki::converter::Converter;
use azuki::dictionary::Dictionary;

const TEST_DICT: &str = ";; okuri-ari entries.
かk /書/欠/
うごk /動/
よm /読/
;; okuri-nasi entries.
きょう /今日/京/教/
あずき /小豆/
";

fn load_test_dictionary() -> Dictionary {
    Dictionary::from_text(TEST_DICT)
}

#[test]
fn test_convert_no_dictionary() {
    let converter = Converter::new(None);
    let result = converter.convert_with_segments("きょう");
    assert_eq!(result.combined_candidates, vec!["きょう"]);
}

#[test]
fn test_convert_empty() {
    let converter = Converter::new(None);
    let result = converter.convert_with_segments("");
    assert!(result.combined_candidates.is_empty());
}

#[test]
fn test_convert_with_dictionary() {
    let dict = load_test_dictionary();
    let converter = Converter::new(Some(dict));

    let result = converter.convert_with_segments("きょう");
    assert!(result.combined_candidates.iter().any(|c| c == "今日"));

    let result = converter.convert_with_segments("あずき");
    assert!(result.combined_candidates.iter().any(|c| c == "小豆"));
}

#[test]
fn test_convert_segmented() {
    let dict = load_test_dictionary();
    let converter = Converter::new(Some(dict));
    let result = converter.convert_with_segments("きょうは");
    assert!(result
        .combined_candidates
        .iter()
        .any(|c| c.contains("今日")));
}

#[test]
fn test_convert_no_match() {
    let dict = load_test_dictionary();
    let converter = Converter::new(Some(dict));
    let result = converter.convert_with_segments("あいうえお");
    assert!(result.combined_candidates.iter().any(|c| c == "あいうえお"));
}
