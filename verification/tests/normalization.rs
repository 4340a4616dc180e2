use lindera_filter::filter::{
    FilterError, JapaneseStopTagsTokenFilter, JapaneseStopTagsTokenFilterConfig,
    JAPANESE_STOP_TAGS_TOKEN_FILTER_NAME,
};
use lindera_filter::pattern::{canonical_tag, join_levels, normalize_levels, split_levels};
use lindera_filter::token::{token_pattern, FilteredToken};

fn token(text: &str, position: usize, details: &[&str]) -> FilteredToken {
    FilteredToken {
        text: text.to_string(),
        byte_start: 0,
        byte_end: 0,
        position,
        position_length: 1,
        details: details.iter().map(|d| d.to_string()).collect(),
    }
}

#[test]
fn normalization_total_for_every_input_length() {
    assert_eq!(canonical_tag(""), ",*,*,*");
    assert_eq!(canonical_tag("助詞"), "助詞,*,*,*");
    assert_eq!(canonical_tag("助詞,格助詞"), "助詞,格助詞,*,*");
    assert_eq!(canonical_tag("助詞,格助詞,一般"), "助詞,格助詞,一般,*");
    assert_eq!(canonical_tag("助詞,格助詞,一般,引用"), "助詞,格助詞,一般,引用");
    assert_eq!(canonical_tag("a,b,c,d,e"), "a,b,c,d");
    assert_eq!(canonical_tag("a,b,c,d,e,f,g"), "a,b,c,d");
}

#[test]
fn normalization_idempotent_on_canonical_patterns() {
    let once = canonical_tag("記号,読点");
    assert_eq!(once, "記号,読点,*,*");
    assert_eq!(canonical_tag(&once), once);
    assert_eq!(canonical_tag("助詞,*,*,*"), "助詞,*,*,*");
}

#[test]
fn split_keeps_empty_pieces() {
    assert_eq!(split_levels(""), vec!["".to_string()]);
    assert_eq!(split_levels(","), vec!["".to_string(), "".to_string()]);
    assert_eq!(
        split_levels("助詞,格助詞"),
        vec!["助詞".to_string(), "格助詞".to_string()]
    );
}

#[test]
fn normalize_and_join_pad_with_wildcards() {
    let levels = vec!["記号".to_string(), "読点".to_string()];
    let fixed = normalize_levels(&levels);
    assert_eq!(
        fixed,
        vec![
            "記号".to_string(),
            "読点".to_string(),
            "*".to_string(),
            "*".to_string()
        ]
    );
    assert_eq!(join_levels(&fixed), "記号,読点,*,*");
    assert_eq!(join_levels(&Vec::new()), "");
}

#[test]
fn duplicate_raw_tags_collapse() {
    let once = JapaneseStopTagsTokenFilterConfig::new(vec!["助詞".to_string()]);
    let twice =
        JapaneseStopTagsTokenFilterConfig::new(vec!["助詞".to_string(), "助詞".to_string()]);
    assert_eq!(once.tags().len(), 1);
    assert_eq!(twice.tags().len(), 1);
    assert_eq!(once.tags(), twice.tags());
}

#[test]
fn equal_patterns_collapse() {
    let config = JapaneseStopTagsTokenFilterConfig::new(vec![
        "助詞,格助詞".to_string(),
        "助詞,格助詞".to_string(),
    ]);
    assert_eq!(config.tags(), &vec!["助詞,格助詞,*,*".to_string()]);
}

#[test]
fn config_equality_ignores_construction_order() {
    let a = JapaneseStopTagsTokenFilterConfig::new(vec![
        "助詞".to_string(),
        "記号,読点".to_string(),
    ]);
    let b = JapaneseStopTagsTokenFilterConfig::new(vec![
        "記号,読点".to_string(),
        "助詞".to_string(),
    ]);
    assert_eq!(a, b);
    let c = JapaneseStopTagsTokenFilterConfig::new(vec!["助詞".to_string()]);
    assert!(a != c);
}

#[test]
fn membership_uses_canonical_patterns() {
    let config = JapaneseStopTagsTokenFilterConfig::new(vec!["助詞".to_string()]);
    assert!(config.contains_pattern(&"助詞,*,*,*".to_string()));
    assert!(!config.contains_pattern(&"助詞".to_string()));
    assert!(!config.contains_pattern(&"名詞,*,*,*".to_string()));
}

#[test]
fn token_pattern_reads_four_or_one_details() {
    let full = token("うち", 0, &["名詞", "非自立", "副詞可能", "*", "*", "*", "ウチ"]);
    assert_eq!(token_pattern(&full), "名詞,非自立,副詞可能,*");
    // Fewer than four detail fields: only the first takes part.
    let short = token("も", 1, &["助詞", "係助詞"]);
    assert_eq!(token_pattern(&short), "助詞,*,*,*");
    let single = token("?", 2, &["記号"]);
    assert_eq!(token_pattern(&single), "記号,*,*,*");
}

#[test]
fn apply_keeps_order_and_drops_stopped_tokens() {
    let config = JapaneseStopTagsTokenFilterConfig::new(vec![
        "助詞".to_string(),
        "助詞,係助詞".to_string(),
        "助詞,連体化".to_string(),
    ]);
    let filter = JapaneseStopTagsTokenFilter::new(config);
    let mut tokens = vec![
        token("すもも", 0, &["名詞", "一般", "*", "*"]),
        token("も", 1, &["助詞", "係助詞", "*", "*"]),
        token("もも", 2, &["名詞", "一般", "*", "*"]),
        token("も", 3, &["助詞", "係助詞", "*", "*"]),
        token("もも", 4, &["名詞", "一般", "*", "*"]),
        token("の", 5, &["助詞", "連体化", "*", "*"]),
        token("うち", 6, &["名詞", "非自立", "副詞可能", "*"]),
    ];
    filter.apply(&mut tokens).unwrap();
    let texts: Vec<&str> = tokens.iter().map(|t| t.text.as_str()).collect();
    assert_eq!(texts, vec!["すもも", "もも", "もも", "うち"]);
    let positions: Vec<usize> = tokens.iter().map(|t| t.position).collect();
    assert_eq!(positions, vec![0, 2, 4, 6]);
}

#[test]
fn apply_on_empty_input_is_a_no_op() {
    let filter =
        JapaneseStopTagsTokenFilter::new(JapaneseStopTagsTokenFilterConfig::new(Vec::new()));
    let mut tokens: Vec<FilteredToken> = Vec::new();
    assert!(filter.apply(&mut tokens).is_ok());
    assert!(tokens.is_empty());
}

#[test]
fn empty_stop_set_keeps_everything() {
    let filter =
        JapaneseStopTagsTokenFilter::new(JapaneseStopTagsTokenFilterConfig::new(Vec::new()));
    let mut tokens = vec![
        token("すもも", 0, &["名詞", "一般", "*", "*"]),
        token("も", 1, &["助詞", "係助詞", "*", "*"]),
    ];
    filter.apply(&mut tokens).unwrap();
    assert_eq!(tokens.len(), 2);
}

#[test]
fn short_detail_lists_match_only_single_level_patterns() {
    // A token with two or three detail fields contributes only its first
    // field, so a two-level stop pattern does not remove it.
    let config = JapaneseStopTagsTokenFilterConfig::new(vec!["助詞,係助詞".to_string()]);
    let filter = JapaneseStopTagsTokenFilter::new(config);
    let mut tokens = vec![token("も", 0, &["助詞", "係助詞"])];
    filter.apply(&mut tokens).unwrap();
    assert_eq!(tokens.len(), 1);

    // The same token is removed by the one-level pattern its first field
    // normalizes to.
    let config = JapaneseStopTagsTokenFilterConfig::new(vec!["助詞".to_string()]);
    let filter = JapaneseStopTagsTokenFilter::new(config);
    let mut tokens = vec![token("も", 0, &["助詞", "係助詞"])];
    filter.apply(&mut tokens).unwrap();
    assert_eq!(tokens.len(), 0);
}

#[test]
fn filter_name_is_stable() {
    let filter =
        JapaneseStopTagsTokenFilter::new(JapaneseStopTagsTokenFilterConfig::new(Vec::new()));
    assert_eq!(filter.name(), "japanese_stop_tags");
    assert_eq!(JAPANESE_STOP_TAGS_TOKEN_FILTER_NAME, "japanese_stop_tags");
}

#[test]
fn malformed_config_is_rejected() {
    // Not JSON at all.
    let result = JapaneseStopTagsTokenFilterConfig::from_slice(b"not json");
    assert_eq!(result.unwrap_err(), FilterError::Deserialize);
    // Missing `tags` member.
    let result = JapaneseStopTagsTokenFilterConfig::from_slice(b"{}");
    assert_eq!(result.unwrap_err(), FilterError::Deserialize);
    // `tags` is not an array.
    let result = JapaneseStopTagsTokenFilterConfig::from_slice(br#"{"tags": "x"}"#);
    assert_eq!(result.unwrap_err(), FilterError::Deserialize);
    // An element is not a string.
    let blob = r#"{"tags": ["助詞", 3]}"#;
    let result = JapaneseStopTagsTokenFilterConfig::from_slice(blob.as_bytes());
    assert_eq!(result.unwrap_err(), FilterError::Deserialize);
    // Top level is not an object.
    let result = JapaneseStopTagsTokenFilterConfig::from_slice(br#"["tags"]"#);
    assert_eq!(result.unwrap_err(), FilterError::Deserialize);
    // The filter constructor rejects the same blobs.
    let result = JapaneseStopTagsTokenFilter::from_slice(b"{}");
    assert_eq!(result.unwrap_err(), FilterError::Deserialize);
}

#[test]
fn config_from_slice_normalizes_raw_tags() {
    let blob = r#"{"tags": ["記号,読点"]}"#;
    let config = JapaneseStopTagsTokenFilterConfig::from_slice(blob.as_bytes()).unwrap();
    assert_eq!(config.tags(), &vec!["記号,読点,*,*".to_string()]);
}
