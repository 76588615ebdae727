use urlquerystring::percent_decode;
use urlquerystring::StackParam;
use urlquerystring::StackString;

#[test]
fn test_percent_decode() {
    assert_eq!(percent_decode::<32>("hello+world").as_str(), "hello world");
    assert_eq!(percent_decode::<32>("hello%20world").as_str(), "hello world");
    assert_eq!(percent_decode::<32>("50%25").as_str(), "50%");
    assert_eq!(percent_decode::<32>("a%2Fb%2Fc").as_str(), "a/b/c");
    assert_eq!(percent_decode::<32>("a+b+c").as_str(), "a b c");
}

#[test]
fn test_percent_decode_hex_case() {
    assert_eq!(percent_decode::<8>("%2f").as_str(), "/");
    assert_eq!(percent_decode::<8>("%2F").as_str(), "/");
    assert_eq!(percent_decode::<8>("%4a%6A").as_str(), "Jj");
}

#[test]
fn test_percent_decode_malformed() {
    // A '%' without two valid hex digits after it stays literal
    assert_eq!(percent_decode::<8>("%").as_str(), "%");
    assert_eq!(percent_decode::<8>("a%").as_str(), "a%");
    assert_eq!(percent_decode::<8>("%2").as_str(), "%2");
    assert_eq!(percent_decode::<8>("%zz").as_str(), "%zz");
    assert_eq!(percent_decode::<8>("%%41").as_str(), "%A");
    assert_eq!(percent_decode::<8>("%4g").as_str(), "%4g");
}

#[test]
fn test_percent_decode_empty() {
    let decoded = percent_decode::<8>("");
    assert!(decoded.is_empty());
    assert_eq!(decoded.len(), 0);
    assert_eq!(decoded.as_str(), "");
}

#[test]
fn test_percent_decode_truncates() {
    let decoded = percent_decode::<4>("abcdefgh");
    assert_eq!(decoded.as_str(), "abcd");
    assert_eq!(decoded.len(), 4);
}

#[test]
fn test_percent_decode_truncates_at_char_boundary() {
    // Each escaped byte becomes one character: 0xC3 is 'Ã', a two-byte
    // character. With room for 3 bytes only one of them fits; the
    // output never holds half a character.
    let decoded = percent_decode::<3>("%C3%C3");
    assert_eq!(decoded.as_str(), "\u{c3}");
    assert_eq!(decoded.len(), 2);
}

#[test]
fn test_stackstring_push_and_read() {
    let mut s = StackString::<32>::new();
    assert!(s.is_empty());
    s.push('H');
    s.push('e');
    s.push('l');
    s.push('l');
    s.push('o');
    assert_eq!(s.as_str(), "Hello");
    assert_eq!(s.len(), 5);
    assert!(!s.is_empty());
}

#[test]
fn test_stackstring_multibyte() {
    let mut s = StackString::<9>::new();
    s.push('\u{e9}'); // two bytes
    s.push('\u{20ac}'); // three bytes
    s.push('\u{1f600}'); // four bytes
    assert_eq!(s.as_str(), "é€😀");
    assert_eq!(s.len(), 9);
}

#[test]
fn test_stackstring_drops_what_does_not_fit() {
    let mut s = StackString::<2>::new();
    s.push('a');
    s.push('\u{e9}'); // needs two bytes, only one left: dropped whole
    s.push('b'); // still fits
    assert_eq!(s.as_str(), "ab");
    assert_eq!(s.len(), 2);
}

#[test]
fn test_stackstring_full_stays_unchanged() {
    let mut s = StackString::<1>::new();
    s.push('x');
    s.push('y');
    s.push('z');
    assert_eq!(s.as_str(), "x");
    assert_eq!(s.len(), 1);
}

#[test]
fn test_stackparam_starts_empty() {
    let p = StackParam::<32, 128>::new();
    assert_eq!(p.key(), "");
    assert_eq!(p.value(), "");
}
