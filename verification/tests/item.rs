use link_header::item::strip_brackets_str;
use link_header::params::{find_name, insert_pair};
use link_header::{InvalidLink, LinkItem, UriRef};

fn pair(name: &str, value: &str) -> (String, String) {
    (name.to_string(), value.to_string())
}

#[test]
fn parameter_parsing() {
    let item = LinkItem::from_str("<http://x>; rel=next; title=Foo").unwrap();
    assert_eq!(item.uri().as_str(), "http://x/");
    assert_eq!(
        item.uri().as_str().parse::<http::Uri>().unwrap(),
        "http://x".parse::<http::Uri>().unwrap()
    );
    assert_eq!(item.param("rel"), Some("next"));
    assert_eq!(item.param("title"), Some("Foo"));
    assert_eq!(item.param("missing"), None);
    assert_eq!(item.param_count(), 2);
}

#[test]
fn duplicate_key_keeps_last_value() {
    let item = LinkItem::from_str("<http://x>; a=1; a=2").unwrap();
    assert_eq!(item.param("a"), Some("2"));
    assert_eq!(item.param_count(), 1);
}

#[test]
fn duplicate_key_keeps_its_place() {
    let item = LinkItem::from_str("<http://x>; a=1; b=2; a=3").unwrap();
    assert_eq!(item.param("a"), Some("3"));
    assert_eq!(item.param("b"), Some("2"));
    assert_eq!(item.to_string(), "<http://x/>; a=3; b=2");
}

#[test]
fn item_without_parameters() {
    let item = LinkItem::from_str("<https://example.com/a?b=c>").unwrap();
    assert_eq!(item.uri().as_str(), "https://example.com/a?b=c");
    assert_eq!(item.param_count(), 0);
    assert_eq!(item.param("rel"), None);
    assert_eq!(item.to_string(), "<https://example.com/a?b=c>");
}

#[test]
fn missing_brackets_are_rejected() {
    assert_eq!(LinkItem::from_str("http://x").unwrap_err(), InvalidLink);
    assert_eq!(LinkItem::from_str("<http://x").unwrap_err(), InvalidLink);
    assert_eq!(LinkItem::from_str("http://x>").unwrap_err(), InvalidLink);
    assert_eq!(LinkItem::from_str("<").unwrap_err(), InvalidLink);
    assert_eq!(LinkItem::from_str(">").unwrap_err(), InvalidLink);
    assert_eq!(LinkItem::from_str("").unwrap_err(), InvalidLink);
    assert_eq!(LinkItem::from_str("; rel=next").unwrap_err(), InvalidLink);
}

#[test]
fn white_space_around_brackets_is_rejected() {
    assert_eq!(LinkItem::from_str(" <http://x>").unwrap_err(), InvalidLink);
    assert_eq!(LinkItem::from_str("<http://x> ").unwrap_err(), InvalidLink);
    assert_eq!(LinkItem::from_str("<http://x> ; rel=next").unwrap_err(), InvalidLink);
}

#[test]
fn unparsable_uri_is_rejected() {
    assert_eq!(LinkItem::from_str("<not a uri !!>").unwrap_err(), InvalidLink);
    assert_eq!(LinkItem::from_str("<>").unwrap_err(), InvalidLink);
    assert_eq!(LinkItem::from_str("<not a uri !!>; rel=next").unwrap_err(), InvalidLink);
}

#[test]
fn parameter_without_equals_is_rejected() {
    assert_eq!(LinkItem::from_str("<http://x>; rel").unwrap_err(), InvalidLink);
    assert_eq!(LinkItem::from_str("<http://x>; rel=next; title").unwrap_err(), InvalidLink);
    assert_eq!(LinkItem::from_str("<http://x>; rel; title=Foo").unwrap_err(), InvalidLink);
}

#[test]
fn trailing_semicolon_is_rejected() {
    assert_eq!(LinkItem::from_str("<http://x>;").unwrap_err(), InvalidLink);
    assert_eq!(LinkItem::from_str("<http://x>; rel=next;").unwrap_err(), InvalidLink);
    assert_eq!(LinkItem::from_str("<http://x>;; rel=next").unwrap_err(), InvalidLink);
}

#[test]
fn fragment_is_trimmed_but_name_and_value_are_not() {
    let item = LinkItem::from_str("<http://x>;  \trel = next  ;title=a=b").unwrap();
    assert_eq!(item.param("rel "), Some(" next"));
    assert_eq!(item.param("rel"), None);
    assert_eq!(item.param("title"), Some("a=b"));
}

#[test]
fn empty_name_and_empty_value_are_taken() {
    let item = LinkItem::from_str("<http://x>; =v; k=").unwrap();
    assert_eq!(item.param(""), Some("v"));
    assert_eq!(item.param("k"), Some(""));
}

#[test]
fn value_is_not_percent_decoded() {
    let item = LinkItem::from_str("<http://x>; title=a%20b").unwrap();
    assert_eq!(item.param("title"), Some("a%20b"));
}

#[test]
fn new_item_has_no_parameters() {
    let item = LinkItem::new(UriRef::parse("http://example.com/next").unwrap());
    assert_eq!(item.uri().as_str(), "http://example.com/next");
    assert_eq!(item.param_count(), 0);
    assert_eq!(item.param("rel"), None);
    assert_eq!(item.to_string(), "<http://example.com/next>");
}

#[test]
fn with_param_keeps_order_and_last_value() {
    let item = LinkItem::with_param(
        UriRef::parse("http://x/").unwrap(),
        vec![pair("rel", "next"), pair("title", "Foo"), pair("rel", "prev")],
    );
    assert_eq!(item.param("rel"), Some("prev"));
    assert_eq!(item.param("title"), Some("Foo"));
    assert_eq!(item.param_count(), 2);
    assert_eq!(item.to_string(), "<http://x/>; rel=prev; title=Foo");
}

#[test]
fn with_param_of_nothing_is_new() {
    let item = LinkItem::with_param(UriRef::parse("/a").unwrap(), Vec::new());
    assert_eq!(item.to_string(), "</a>");
    assert_eq!(item.param_count(), 0);
}

#[test]
fn item_format_has_exact_separators() {
    let item = LinkItem::with_param(
        UriRef::parse("http://x/").unwrap(),
        vec![pair("rel", "next"), pair("title", "Foo")],
    );
    assert_eq!(item.to_string(), "<http://x/>; rel=next; title=Foo");
}

#[test]
fn item_format_is_the_same_each_time() {
    let item = LinkItem::from_str("<http://x>; b=2; a=1; c=3").unwrap();
    let first = item.to_string();
    assert_eq!(first, "<http://x/>; b=2; a=1; c=3");
    assert_eq!(item.to_string(), first);
}

#[test]
fn item_parse_is_the_same_each_time() {
    let text = "<http://x>; rel=next; title=Foo";
    let one = LinkItem::from_str(text).unwrap();
    let two = LinkItem::from_str(text).unwrap();
    assert_eq!(one.uri().as_str(), two.uri().as_str());
    assert_eq!(one.param_count(), two.param_count());
    assert_eq!(one.param("rel"), two.param("rel"));
    assert_eq!(one.param("title"), two.param("title"));
    assert_eq!(one.to_string(), two.to_string());
}

#[test]
fn item_round_trip() {
    let item = LinkItem::with_param(
        UriRef::parse("https://example.com/page/2").unwrap(),
        vec![pair("rel", "next"), pair("title", "Page2"), pair("n", "")],
    );
    let back = LinkItem::from_str(&item.to_string()).unwrap();
    assert_eq!(back.uri().as_str(), "https://example.com/page/2");
    assert_eq!(back.param_count(), 3);
    assert_eq!(back.param("rel"), Some("next"));
    assert_eq!(back.param("title"), Some("Page2"));
    assert_eq!(back.param("n"), Some(""));
    assert_eq!(back.to_string(), item.to_string());
}

#[test]
fn item_parses_through_the_trait() {
    let item: LinkItem = "<http://x>; rel=next".parse().unwrap();
    assert_eq!(item.param("rel"), Some("next"));
    assert!("http://x".parse::<LinkItem>().is_err());
}

#[test]
fn strip_brackets_takes_first_and_last() {
    assert_eq!(strip_brackets_str("<a>"), Some("a"));
    assert_eq!(strip_brackets_str("<>"), Some(""));
    assert_eq!(strip_brackets_str("<<a>>"), Some("<a>"));
    assert_eq!(strip_brackets_str("<"), None);
    assert_eq!(strip_brackets_str(">"), None);
    assert_eq!(strip_brackets_str("a>"), None);
    assert_eq!(strip_brackets_str("<a"), None);
    assert_eq!(strip_brackets_str(""), None);
    assert_eq!(strip_brackets_str("<é>"), Some("é"));
}

#[test]
fn insert_pair_replaces_or_appends() {
    let mut pairs = vec![pair("a", "1"), pair("b", "2")];
    assert_eq!(find_name(&pairs, &"b".to_string()), 1);
    assert_eq!(find_name(&pairs, &"c".to_string()), 2);
    insert_pair(&mut pairs, "a".to_string(), "3".to_string());
    assert_eq!(pairs, vec![pair("a", "3"), pair("b", "2")]);
    insert_pair(&mut pairs, "c".to_string(), "4".to_string());
    assert_eq!(pairs, vec![pair("a", "3"), pair("b", "2"), pair("c", "4")]);
}
