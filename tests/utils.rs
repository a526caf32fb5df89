use assistant_rs::utils::{split_at_first, StrUtils, StringUtils};

#[test]
fn test_split_owned() {
    let test_buffer = "abcdXabcdXXabcdXXXabcd".to_owned();
    let spl = test_buffer.split_owned("abcd").collect_all();
    assert_eq!(spl, vec!["", "X", "XX", "XXX", ""]);
}

#[test]
fn split_owned_on_colons() {
    let mut parts = "a:bc:".to_owned().split_owned(":");
    assert_eq!(Some("a".to_owned()), parts.next());
    assert_eq!(Some("bc".to_owned()), parts.next());
    assert_eq!(Some("".to_owned()), parts.next());
    assert_eq!(None, parts.next());
}

#[test]
fn split_at_first_marker() {
    assert_eq!(("key".to_owned(), "value=x".to_owned()), split_at_first("key=value=x", '='));
    assert_eq!(("plain".to_owned(), "".to_owned()), "plain".split_at_first('='));
    assert_eq!(("".to_owned(), "".to_owned()), split_at_first(":", ':'));
}
