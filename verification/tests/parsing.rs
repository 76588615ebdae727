use urlquerystring::StackQueryParams;
use urlquerystring::MAX_KEY_SIZE;
use urlquerystring::MAX_PARAM_COUNT;
use urlquerystring::MAX_VALUE_SIZE;

#[test]
fn test_basic_parsing() {
    let url = "https://example.com/path?name=John&age=25&city=New%20York";

    let params = StackQueryParams::new(url);

    assert_eq!(params.len(), 3);
    assert_eq!(params.get("name"), Some("John"));
    assert_eq!(params.get("age"), Some("25"));
    assert_eq!(params.get("city"), Some("New York"));
}

#[test]
fn test_no_query_params() {
    let url = "https://example.com/path";

    let params = StackQueryParams::new(url);

    assert_eq!(params.len(), 0);
    assert!(params.is_empty());
}

#[test]
fn test_empty_value() {
    let url = "https://example.com/path?param=";

    let params = StackQueryParams::new(url);

    assert_eq!(params.len(), 1);
    assert_eq!(params.get("param"), Some(""));
}

#[test]
fn test_max_params_limit() {
    // Create a URL with more than MAX_PARAM_COUNT parameters
    let mut url = String::from("https://example.com/path?");
    for i in 0..MAX_PARAM_COUNT + 5 {
        if i > 0 {
            url.push('&');
        }
        url.push_str(&format!("param{}=value{}", i, i));
    }

    let params = StackQueryParams::new(&url);

    // Should only have parsed MAX_PARAM_COUNT
    assert_eq!(params.len(), MAX_PARAM_COUNT);
}

#[test]
fn test_key_value_length_limits() {
    // Create a key and value that exceed the length limits
    let long_key = "a".repeat(MAX_KEY_SIZE + 10);
    let long_value = "b".repeat(MAX_VALUE_SIZE + 10);
    let url = format!("https://example.com/path?{}={}", long_key, long_value);

    let params = StackQueryParams::new(&url);

    assert_eq!(params.len(), 1);

    // The parsed key should be truncated
    let expected_key = "a".repeat(MAX_KEY_SIZE);
    let expected_value = "b".repeat(MAX_VALUE_SIZE);

    // Get the first pair directly since we can't look it up by the full long key
    let pairs = params.iter();
    let (actual_key, actual_value) = pairs[0];

    assert_eq!(actual_key, expected_key);
    assert_eq!(actual_value, expected_value);
}

#[test]
fn test_custom_new() {
    let url = "https://example.com/path?name=John&age=25&city=New%20York";

    let params = StackQueryParams::<8, 16, 64>::custom_new(url);

    assert_eq!(params.len(), 3);
    assert_eq!(params.get("name"), Some("John"));
    assert_eq!(params.get("age"), Some("25"));
    assert_eq!(params.get("city"), Some("New York"));
}

#[test]
fn test_key_only_param() {
    let params = StackQueryParams::new("?flag");

    assert_eq!(params.len(), 1);
    assert_eq!(params.get("flag"), Some(""));
}

#[test]
fn test_bare_query_string() {
    let params = StackQueryParams::new("?a=1&b=2");

    assert_eq!(params.len(), 2);
    assert_eq!(params.get("a"), Some("1"));
    assert_eq!(params.get("b"), Some("2"));
}

#[test]
fn test_no_question_mark_variants() {
    assert!(StackQueryParams::new("").is_empty());
    assert!(StackQueryParams::new("a=1&b=2").is_empty());
    assert!(StackQueryParams::new("https://example.com/a=b").is_empty());
}

#[test]
fn test_question_mark_alone() {
    let params = StackQueryParams::new("https://example.com/path?");

    assert_eq!(params.len(), 0);
    assert!(params.is_empty());
}

#[test]
fn test_empty_key_dropped() {
    // A pair with an empty key is dropped even when a value follows
    let params = StackQueryParams::new("https://example.com/path?=value&a=b");

    assert_eq!(params.len(), 1);
    assert_eq!(params.get("a"), Some("b"));
    assert_eq!(params.get(""), None);
}

#[test]
fn test_empty_pairs_skipped() {
    // Runs of '&' and a trailing '&' create no slots
    let params = StackQueryParams::new("?a=1&&b=2&");

    assert_eq!(params.len(), 2);
    assert_eq!(params.get("a"), Some("1"));
    assert_eq!(params.get("b"), Some("2"));
}

#[test]
fn test_duplicate_keys_first_wins() {
    // Both occurrences consume a slot, but get returns the first
    let params = StackQueryParams::new("?k=first&k=second");

    assert_eq!(params.len(), 2);
    assert_eq!(params.get("k"), Some("first"));

    let pairs = params.iter();
    assert_eq!(pairs[0], ("k", "first"));
    assert_eq!(pairs[1], ("k", "second"));
}

#[test]
fn test_missing_key_returns_none() {
    let params = StackQueryParams::new("?a=1");

    assert_eq!(params.get("missing"), None);
    assert_eq!(params.get("A"), None); // lookups are case-sensitive
}

#[test]
fn test_capacity_ceiling_first_present() {
    // With 5 pairs beyond the limit, the first N slots are kept in
    // order and the rest are absent from both get and iter
    let mut url = String::from("?");
    for i in 0..MAX_PARAM_COUNT + 5 {
        if i > 0 {
            url.push('&');
        }
        url.push_str(&format!("key{}=val{}", i, i));
    }

    let params = StackQueryParams::new(&url);

    assert_eq!(params.len(), MAX_PARAM_COUNT);
    for i in 0..MAX_PARAM_COUNT {
        let key = format!("key{}", i);
        let val = format!("val{}", i);
        assert_eq!(params.get(&key), Some(val.as_str()));
    }
    for i in MAX_PARAM_COUNT..MAX_PARAM_COUNT + 5 {
        let key = format!("key{}", i);
        assert_eq!(params.get(&key), None);
    }
    let pairs = params.iter();
    assert_eq!(pairs.len(), MAX_PARAM_COUNT);
    for (i, (k, v)) in pairs.iter().enumerate() {
        assert_eq!(*k, format!("key{}", i));
        assert_eq!(*v, format!("val{}", i));
    }
}

#[test]
fn test_iter_restartable() {
    let params = StackQueryParams::new("?a=1&b=2&c=3");

    let first = params.iter();
    let second = params.iter();

    assert_eq!(first, second);
    assert_eq!(first, vec![("a", "1"), ("b", "2"), ("c", "3")]);
}

#[test]
fn test_iter_empty_table() {
    let params = StackQueryParams::new("no query here");

    assert!(params.iter().is_empty());
}

#[test]
fn test_decoded_keys_and_values() {
    // Keys are decoded too, and lookups use the decoded form
    let params = StackQueryParams::new("?my%20key=my%20value&x+y=a%2Fb");

    assert_eq!(params.len(), 2);
    assert_eq!(params.get("my key"), Some("my value"));
    assert_eq!(params.get("x y"), Some("a/b"));
}

#[test]
fn test_custom_caps_truncate() {
    // Key capacity 4 and value capacity 4: both stored truncated
    let params = StackQueryParams::<4, 4, 4>::custom_new("?abcdef=123456");

    assert_eq!(params.len(), 1);
    let pairs = params.iter();
    assert_eq!(pairs[0], ("abcd", "1234"));
    assert_eq!(params.get("abcd"), Some("1234"));
    assert_eq!(params.get("abcdef"), None);
}
