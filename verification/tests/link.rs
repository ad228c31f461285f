use link_header::link::{is_text, is_value};
use link_header::{InvalidLink, Link, LinkItem, UriRef};

fn pair(name: &str, value: &str) -> (String, String) {
    (name.to_string(), value.to_string())
}

fn item(uri: &str, params: Vec<(String, String)>) -> LinkItem {
    LinkItem::with_param(UriRef::parse(uri).unwrap(), params)
}

#[test]
fn multi_item_ordering() {
    let link = Link::from_str("<a>,<b>,<c>").unwrap();
    assert_eq!(link.len(), 3);
    assert_eq!(link.items()[0].uri().as_str(), "a");
    assert_eq!(link.items()[1].uri().as_str(), "b");
    assert_eq!(link.items()[2].uri().as_str(), "c");
}

#[test]
fn items_with_parameters() {
    let link =
        Link::from_str("<http://x/1>; rel=prev,<http://x/3>; rel=next; title=Three").unwrap();
    assert_eq!(link.len(), 2);
    assert_eq!(link.items()[0].uri().as_str(), "http://x/1");
    assert_eq!(link.items()[0].param("rel"), Some("prev"));
    assert_eq!(link.items()[1].uri().as_str(), "http://x/3");
    assert_eq!(link.items()[1].param("rel"), Some("next"));
    assert_eq!(link.items()[1].param("title"), Some("Three"));
}

#[test]
fn empty_text_is_rejected() {
    assert_eq!(Link::from_str("").unwrap_err(), InvalidLink);
}

#[test]
fn link_of_no_items_has_empty_text() {
    assert_eq!(Link::from_items(Vec::new()).to_string(), "");
    assert_eq!(Link::from_array([]).to_string(), "");
    assert_eq!(Link::from_items(Vec::new()).len(), 0);
}

#[test]
fn one_bad_segment_rejects_the_link() {
    assert_eq!(Link::from_str("<a>,http://x,<c>").unwrap_err(), InvalidLink);
    assert_eq!(Link::from_str("<a>,<not a uri !!>").unwrap_err(), InvalidLink);
    assert_eq!(Link::from_str("<a>; rel,<b>").unwrap_err(), InvalidLink);
}

#[test]
fn empty_segment_rejects_the_link() {
    assert_eq!(Link::from_str("<a>,").unwrap_err(), InvalidLink);
    assert_eq!(Link::from_str(",<a>").unwrap_err(), InvalidLink);
    assert_eq!(Link::from_str("<a>,,<b>").unwrap_err(), InvalidLink);
}

#[test]
fn segments_are_not_trimmed() {
    assert_eq!(Link::from_str("<a>, <b>").unwrap_err(), InvalidLink);
    assert_eq!(Link::from_str("<a> ,<b>").unwrap_err(), InvalidLink);
    assert!(Link::from_str("<a>; rel=x ,<b>").is_ok());
}

#[test]
fn comma_in_a_value_splits_the_item() {
    assert_eq!(Link::from_str("<a>; title=x,y").unwrap_err(), InvalidLink);
}

#[test]
fn link_format_joins_with_commas() {
    let link = Link::from_items(vec![
        item("http://x/1", vec![pair("rel", "prev")]),
        item("http://x/3", vec![pair("rel", "next"), pair("title", "Three")]),
        item("/last", Vec::new()),
    ]);
    assert_eq!(link.to_string(), "<http://x/1>; rel=prev,<http://x/3>; rel=next; title=Three,</last>");
}

#[test]
fn link_of_one_item_has_no_comma() {
    let link = Link::from_array([item("http://x/1", vec![pair("rel", "prev")])]);
    assert_eq!(link.to_string(), "<http://x/1>; rel=prev");
}

#[test]
fn from_array_keeps_the_order() {
    let link = Link::from_array([item("/a", Vec::new()), item("/b", Vec::new())]);
    assert_eq!(link.len(), 2);
    assert_eq!(link.items()[0].uri().as_str(), "/a");
    assert_eq!(link.items()[1].uri().as_str(), "/b");
    assert_eq!(link.to_string(), "</a>,</b>");
}

#[test]
fn link_round_trip() {
    let link = Link::from_items(vec![
        item("https://example.com/?page=1", vec![pair("rel", "first")]),
        item("https://example.com/?page=4", vec![pair("rel", "next"), pair("title", "Four")]),
        item("https://example.com/?page=9", Vec::new()),
    ]);
    let text = link.to_string();
    let back = Link::from_str(&text).unwrap();
    assert_eq!(back.len(), 3);
    let mut i = 0;
    while i < 3 {
        let before = &link.items()[i];
        let after = &back.items()[i];
        assert_eq!(after.uri().as_str(), before.uri().as_str());
        assert_eq!(after.param_count(), before.param_count());
        assert_eq!(after.param("rel"), before.param("rel"));
        assert_eq!(after.param("title"), before.param("title"));
        assert_eq!(after.to_string(), before.to_string());
        i += 1;
    }
    assert_eq!(back.to_string(), text);
}

#[test]
fn link_parse_is_the_same_each_time() {
    let text = "<http://x>; rel=next,<http://y>";
    let one = Link::from_str(text).unwrap();
    let two = Link::from_str(text).unwrap();
    assert_eq!(one.len(), two.len());
    assert_eq!(one.to_string(), two.to_string());
    assert_eq!(one.to_string(), "<http://x/>; rel=next,<http://y/>");
}

#[test]
fn link_parses_through_the_trait() {
    let link: Link = "<a>,<b>".parse().unwrap();
    assert_eq!(link.len(), 2);
    assert!("".parse::<Link>().is_err());
}

#[test]
fn decode_of_no_value_is_rejected() {
    assert_eq!(Link::decode(&[]).unwrap_err(), InvalidLink);
}

#[test]
fn decode_reads_the_first_value_only() {
    let first: &[u8] = b"<http://x>; rel=next";
    let second: &[u8] = b"<http://y>";
    let link = Link::decode(&[first, second]).unwrap();
    assert_eq!(link.len(), 1);
    assert_eq!(link.items()[0].uri().as_str(), "http://x/");
    assert_eq!(link.items()[0].param("rel"), Some("next"));
    let bad: &[u8] = b"http://y";
    assert!(Link::decode(&[first, bad]).is_ok());
    assert_eq!(Link::decode(&[bad, first]).unwrap_err(), InvalidLink);
}

#[test]
fn decode_of_bytes_that_are_no_text_is_rejected() {
    let high: &[u8] = b"<http://x>; title=\xc3\xa9";
    assert_eq!(Link::decode(&[high]).unwrap_err(), InvalidLink);
    let invalid: &[u8] = b"<http://x>\xff";
    assert_eq!(Link::decode(&[invalid]).unwrap_err(), InvalidLink);
    let control: &[u8] = b"<http://x>; title=a\x01b";
    assert_eq!(Link::decode(&[control]).unwrap_err(), InvalidLink);
    let delete: &[u8] = b"<http://x>; title=a\x7fb";
    assert_eq!(Link::decode(&[delete]).unwrap_err(), InvalidLink);
}

#[test]
fn decode_takes_a_tab_as_text() {
    let value: &[u8] = b"<http://x>;\trel=next";
    let link = Link::decode(&[value]).unwrap();
    assert_eq!(link.items()[0].param("rel"), Some("next"));
}

#[test]
fn decode_of_empty_value_is_rejected() {
    let empty: &[u8] = b"";
    assert_eq!(Link::decode(&[empty]).unwrap_err(), InvalidLink);
}

#[test]
fn decode_agrees_with_header_value() {
    let samples: [&[u8]; 5] = [
        b"<http://x>; rel=next",
        b"<a>,<b>",
        b"<http://x>; title=caf\xe9",
        b"\ttab",
        b"plain text",
    ];
    for bytes in samples {
        let value = http::HeaderValue::from_bytes(bytes).unwrap();
        assert_eq!(is_text(bytes), value.to_str().is_ok());
        let expected = match value.to_str() {
            Ok(text) => Link::from_str(text).map(|link| link.to_string()),
            Err(_) => Err(InvalidLink),
        };
        let decoded = Link::decode(&[value.as_bytes()]).map(|link| link.to_string());
        assert_eq!(decoded, expected);
    }
}

#[test]
fn encode_appends_exactly_one_value() {
    let link = Link::from_str("<http://x>; rel=next,<http://y>").unwrap();
    assert!(link.is_encodable());
    let mut values: Vec<Vec<u8>> = vec![b"kept".to_vec()];
    link.encode(&mut values);
    assert_eq!(values, vec![b"kept".to_vec(), b"<http://x/>; rel=next,<http://y/>".to_vec()]);
}

#[test]
fn encode_of_no_items_is_the_empty_value() {
    let link = Link::from_items(Vec::new());
    assert!(link.is_encodable());
    let mut values: Vec<Vec<u8>> = Vec::new();
    link.encode(&mut values);
    assert_eq!(values, vec![Vec::<u8>::new()]);
}

#[test]
fn encode_writes_utf8() {
    let link = Link::from_items(vec![item("/a", vec![pair("title", "café")])]);
    assert!(link.is_encodable());
    let mut values: Vec<Vec<u8>> = Vec::new();
    link.encode(&mut values);
    assert_eq!(values, vec![b"</a>; title=caf\xc3\xa9".to_vec()]);
    assert!(http::HeaderValue::from_bytes(&values[0]).is_ok());
}

#[test]
fn control_characters_cannot_be_encoded() {
    let link = Link::from_items(vec![item("/a", vec![pair("title", "a\nb")])]);
    assert!(!link.is_encodable());
    assert!(http::HeaderValue::from_str(&link.to_string()).is_err());
    let link = Link::from_items(vec![item("/a", vec![pair("title", "a\tb")])]);
    assert!(link.is_encodable());
    assert!(http::HeaderValue::from_str(&link.to_string()).is_ok());
}

#[test]
fn header_value_rules_agree_with_the_http_crate() {
    let mut b: u16 = 0;
    while b < 256 {
        let bytes = [b as u8];
        let value = http::HeaderValue::from_bytes(&bytes);
        assert_eq!(is_value(&bytes), value.is_ok(), "byte {}", b);
        if let Ok(value) = value {
            assert_eq!(is_text(&bytes), value.to_str().is_ok(), "byte {}", b);
        } else {
            assert!(!is_text(&bytes));
        }
        b += 1;
    }
}

#[test]
fn encode_then_decode_gives_the_link_back() {
    let link = Link::from_items(vec![
        item("http://x/1", vec![pair("rel", "prev")]),
        item("http://x/3", vec![pair("rel", "next")]),
    ]);
    let mut values: Vec<Vec<u8>> = Vec::new();
    link.encode(&mut values);
    let back = Link::decode(&[values[0].as_slice()]).unwrap();
    assert_eq!(back.to_string(), link.to_string());
    assert_eq!(back.len(), 2);
}
