//! The whole `Link` header: link items separated by `,`, and the rules by
//! which the header travels as a raw header value.

use vstd::prelude::*;
use vstd::string::StrSliceExecFns;
use vstd::string::StringExecFns;
use vstd::string::StringSliceAdditionalSpecFns;
use vstd::utf8::{
    decode_utf8, encode_utf8, encode_utf8_decode_utf8, encode_utf8_valid_utf8, is_ascii_chars,
    is_ascii_chars_encode_utf8, valid_utf8,
};
use crate::error::InvalidLink;
use crate::item::{
    format_item, lemma_parse_item_valid, parse_item, valid_item, LinkItem, LinkItemView,
};
use crate::text::{split, split_str, views};

verus! {

/// The link items that a sequence of segments gives, or `None` where one of
/// the segments is no link item.
pub open spec fn parse_items(segments: Seq<Seq<char>>) -> Option<Seq<LinkItemView>>
    decreases segments.len(),
{
    if segments.len() == 0 {
        Some(Seq::empty())
    } else {
        match (parse_items(segments.drop_last()), parse_item(segments.last())) {
            (Some(items), Some(item)) => Some(items.push(item)),
            _ => None,
        }
    }
}

/// The link items that the header text `s` denotes, in the order of the text,
/// or `None` where `s` is no header text. The text is split on `,` and nothing
/// is trimmed: every segment must be a link item as it stands.
pub open spec fn parse_link(s: Seq<char>) -> Option<Seq<LinkItemView>> {
    parse_items(split(s, ','))
}

/// The header text of a sequence of link items: the text of each, joined by
/// `,`. The text of no items is empty.
pub open spec fn format_link(items: Seq<LinkItemView>) -> Seq<char>
    decreases items.len(),
{
    if items.len() == 0 {
        Seq::empty()
    } else if items.len() == 1 {
        format_item(items[0])
    } else {
        format_link(items.drop_last()) + seq![','] + format_item(items.last())
    }
}

/// Whether every item is valid.
pub open spec fn valid_items(items: Seq<LinkItemView>) -> bool {
    forall|i: int| 0 <= i < items.len() ==> valid_item(#[trigger] items[i])
}

/// Whether a byte of a raw header value can be read as text: a visible ASCII
/// character, a space or a tab.
pub open spec fn text_byte(b: u8) -> bool {
    32 <= b < 127 || b == 9
}

/// Whether a raw header value can be read as text.
pub open spec fn is_text_value(value: Seq<u8>) -> bool {
    forall|i: int| 0 <= i < value.len() ==> text_byte(#[trigger] value[i])
}

/// The text of a raw header value of ASCII bytes.
pub open spec fn ascii_text(value: Seq<u8>) -> Seq<char> {
    Seq::new(value.len(), |i: int| value[i] as char)
}

/// The link items that the raw values of the header denote. Only the first
/// value is read; with no value, or with a first value that is no text, there
/// are none.
pub open spec fn decode_values(values: Seq<Seq<u8>>) -> Option<Seq<LinkItemView>> {
    if values.len() == 0 || !is_text_value(values[0]) {
        None
    } else {
        parse_link(ascii_text(values[0]))
    }
}

/// Whether a byte may stand in a raw header value: no control character but
/// the tab.
pub open spec fn value_byte(b: u8) -> bool {
    b >= 32 && b != 127 || b == 9
}

/// Whether `value` may travel as a raw header value.
pub open spec fn is_header_value(value: Seq<u8>) -> bool {
    forall|i: int| 0 <= i < value.len() ==> value_byte(#[trigger] value[i])
}

/// The raw header value of a sequence of link items: their header text in
/// UTF-8.
pub open spec fn encode_items(items: Seq<LinkItemView>) -> Seq<u8> {
    encode_utf8(format_link(items))
}

/// The view of each item of `items`.
pub open spec fn items_view(items: Seq<LinkItem>) -> Seq<LinkItemView> {
    items.map_values(|item: LinkItem| item@)
}

/// The view of each raw value of `values`.
pub open spec fn values_view(values: Seq<&[u8]>) -> Seq<Seq<u8>> {
    values.map_values(|value: &[u8]| value@)
}

/// The view of each raw value of `values`.
pub open spec fn owned_values_view(values: Seq<Vec<u8>>) -> Seq<Seq<u8>> {
    values.map_values(|value: Vec<u8>| value@)
}

/// Segments of which some first ones are no link items are no link items.
pub proof fn lemma_parse_items_prefix(segments: Seq<Seq<char>>, k: int)
    requires
        0 <= k <= segments.len(),
        parse_items(segments.take(k)) is None,
    ensures
        parse_items(segments) is None,
    decreases segments.len() - k,
{
    if k < segments.len() {
        assert(segments.take(k + 1).drop_last() =~= segments.take(k));
        lemma_parse_items_prefix(segments, k + 1);
    } else {
        assert(segments.take(k) =~= segments);
    }
}

/// Every link item of a header text is valid.
pub proof fn lemma_parse_link_valid(s: Seq<char>)
    ensures
        parse_link(s) matches Some(items) ==> valid_items(items),
{
    lemma_parse_items_valid(split(s, ','));
}

/// Every link item of a sequence of segments is valid.
pub proof fn lemma_parse_items_valid(segments: Seq<Seq<char>>)
    ensures
        parse_items(segments) matches Some(items) ==> valid_items(items),
    decreases segments.len(),
{
    if segments.len() > 0 {
        lemma_parse_items_valid(segments.drop_last());
        lemma_parse_item_valid(segments.last());
    }
}

/// A raw header value that can be read as text is the UTF-8 encoding of its
/// text, and of no other text.
pub proof fn lemma_text_value_utf8(value: Seq<u8>)
    requires
        is_text_value(value),
    ensures
        valid_utf8(value),
        decode_utf8(value) == ascii_text(value),
        encode_utf8(ascii_text(value)) == value,
{
    let chars = ascii_text(value);
    assert(is_ascii_chars(chars)) by {
        assert forall|i: int| 0 <= i < chars.len() implies '\0' <= #[trigger] chars[i]
            <= '\u{7f}' by {
            assert(text_byte(value[i]));
        }
    }
    is_ascii_chars_encode_utf8(chars);
    assert(encode_utf8(chars) =~= value) by {
        assert forall|i: int| 0 <= i < value.len() implies encode_utf8(chars)[i] == value[i] by {
            assert(text_byte(value[i]));
            assert(chars[i] as u8 == value[i]);
        }
    }
    encode_utf8_valid_utf8(chars);
    encode_utf8_decode_utf8(chars);
}

/// `core::str::from_utf8`: the bytes as a string slice where they are UTF-8,
/// and `None` where they are not. The string slice is made of the bytes given.
#[verifier::external_body]
fn utf8_text<'a>(bytes: &'a [u8]) -> (text: Option<&'a str>)
    ensures
        text is Some <==> valid_utf8(bytes@),
        text matches Some(t) ==> t.spec_bytes() == bytes@,
{
    core::str::from_utf8(bytes).ok()
}

/// Whether the raw header value `value` can be read as text.
pub fn is_text(value: &[u8]) -> (r: bool)
    ensures
        r == is_text_value(value@),
{
    let n = value.len();
    let mut i: usize = 0;
    while i < n
        invariant
            n == value.len(),
            i <= n,
            forall|j: int| 0 <= j < i ==> text_byte(#[trigger] value@[j]),
        decreases n - i,
    {
        let b = value[i];
        if !((32 <= b && b < 127) || b == 9) {
            return false;
        }
        i += 1;
    }
    true
}

/// Whether `value` may travel as a raw header value.
pub fn is_value(value: &[u8]) -> (r: bool)
    ensures
        r == is_header_value(value@),
{
    let n = value.len();
    let mut i: usize = 0;
    while i < n
        invariant
            n == value.len(),
            i <= n,
            forall|j: int| 0 <= j < i ==> value_byte(#[trigger] value@[j]),
        decreases n - i,
    {
        let b = value[i];
        if !((b >= 32 && b != 127) || b == 9) {
            return false;
        }
        i += 1;
    }
    true
}

/// The link items of one `Link` header, in the order of the header text.
#[derive(Debug)]
pub struct Link {
    items: Vec<LinkItem>,
}

impl View for Link {
    type V = Seq<LinkItemView>;

    closed spec fn view(&self) -> Seq<LinkItemView> {
        items_view(self.items@)
    }
}

impl Link {
    /// The link with the items of `items`, in their order.
    pub fn from_items(items: Vec<LinkItem>) -> (link: Link)
        ensures
            link@ == items_view(items@),
    {
        Link { items }
    }

    /// The link with the items of the array `items`, in their order.
    pub fn from_array<const N: usize>(items: [LinkItem; N]) -> (link: Link)
        ensures
            link@ == items_view(items@),
    {
        let boxed: Box<[LinkItem]> = Box::new(items);
        Link { items: boxed.into_vec() }
    }

    /// The items of the link, in their order.
    pub fn items(&self) -> (items: &Vec<LinkItem>)
        ensures
            items_view(items@) == self@,
    {
        &self.items
    }

    /// The number of items.
    pub fn len(&self) -> (n: usize)
        ensures
            n == self@.len(),
    {
        self.items.len()
    }

    /// Reads a header text. Succeeds exactly on the texts of which every
    /// segment between commas is a link item, and gives the items in the
    /// order of the text.
    pub fn from_str(s: &str) -> (r: Result<Link, InvalidLink>)
        ensures
            match r {
                Ok(link) => parse_link(s@) == Some(link@),
                Err(_) => parse_link(s@) is None,
            },
    {
        let segments = split_str(s, ',');
        let n = segments.len();
        let mut items: Vec<LinkItem> = Vec::new();
        let mut i: usize = 0;
        proof {
            assert(views(segments@).take(0) =~= Seq::<Seq<char>>::empty());
            assert(items_view(items@) =~= Seq::<LinkItemView>::empty());
        }
        while i < n
            invariant
                n == segments.len(),
                i <= n,
                views(segments@) == split(s@, ','),
                parse_items(views(segments@).take(i as int)) == Some(items_view(items@)),
            decreases n - i,
        {
            let ghost next = views(segments@).take(i + 1);
            let ghost before = items_view(items@);
            proof {
                assert(next.drop_last() =~= views(segments@).take(i as int));
                assert(next.last() == segments@[i as int]@);
            }
            match LinkItem::from_str(segments[i]) {
                Ok(item) => {
                    items.push(item);
                    proof {
                        assert(items_view(items@) =~= before.push(item@));
                    }
                },
                Err(e) => {
                    proof {
                        lemma_parse_items_prefix(views(segments@), i + 1);
                    }
                    return Err(e);
                },
            }
            i += 1;
        }
        proof {
            assert(views(segments@).take(n as int) =~= views(segments@));
        }
        Ok(Link { items })
    }

    /// Writes the header text: the text of each item, joined by `,`.
    pub fn to_string(&self) -> (text: String)
        ensures
            text@ == format_link(self@),
    {
        proof {
            reveal_strlit(",");
        }
        let mut text = String::new();
        let n = self.items.len();
        let mut i: usize = 0;
        proof {
            assert(self@.take(0) =~= Seq::<LinkItemView>::empty());
        }
        while i < n
            invariant
                n == self.items.len(),
                i <= n,
                ","@ == seq![','],
                text@ == format_link(self@.take(i as int)),
            decreases n - i,
        {
            let ghost before = text@;
            let ghost next = self@.take(i + 1);
            if i > 0 {
                text.append(",");
            }
            let piece = self.items[i].to_string();
            text.append(piece.as_str());
            proof {
                assert(next.drop_last() =~= self@.take(i as int));
                assert(next.last() == self.items@[i as int]@);
                if i == 0 {
                    assert(text@ =~= format_item(next[0]));
                } else {
                    assert(text@ =~= before + seq![','] + format_item(next.last()));
                }
            }
            i += 1;
        }
        proof {
            assert(self@.take(n as int) =~= self@);
        }
        text
    }

    /// Reads the link from the raw values of the header. Only the first value
    /// is read. Fails where there is no value, where the first value cannot
    /// be read as text, and where its text is no header text.
    pub fn decode(values: &[&[u8]]) -> (r: Result<Link, InvalidLink>)
        ensures
            match r {
                Ok(link) => decode_values(values_view(values@)) == Some(link@),
                Err(_) => decode_values(values_view(values@)) is None,
            },
    {
        if values.len() == 0 {
            return Err(InvalidLink);
        }
        let first: &[u8] = values[0];
        assert(values_view(values@)[0] == first@);
        if !is_text(first) {
            return Err(InvalidLink);
        }
        proof {
            lemma_text_value_utf8(first@);
        }
        match utf8_text(first) {
            Some(text) => {
                proof {
                    encode_utf8_decode_utf8(text@);
                }
                Link::from_str(text)
            },
            None => Err(InvalidLink),
        }
    }

    /// Whether the header text of the link may travel as a raw header value:
    /// whether it holds no control character but the tab.
    pub fn is_encodable(&self) -> (r: bool)
        ensures
            r == is_header_value(encode_items(self@)),
    {
        let text = self.to_string();
        let bytes = text.as_str().as_bytes_vec();
        is_value(bytes.as_slice())
    }

    /// Appends the raw header value of the link to `values`: exactly one
    /// value, the header text in UTF-8.
    pub fn encode(&self, values: &mut Vec<Vec<u8>>)
        requires
            is_header_value(encode_items(self@)),
        ensures
            owned_values_view(final(values)@) == owned_values_view(old(values)@).push(
                encode_items(self@),
            ),
    {
        let text = self.to_string();
        let bytes = text.as_str().as_bytes_vec();
        let ghost before = owned_values_view(values@);
        values.push(bytes);
        proof {
            assert(owned_values_view(values@) =~= before.push(bytes@));
        }
    }
}

impl core::str::FromStr for Link {
    type Err = InvalidLink;

    /// Reads a header text, as `Link::from_str` does.
    fn from_str(s: &str) -> (r: Result<Link, InvalidLink>)
        ensures
            match r {
                Ok(link) => parse_link(s@) == Some(link@),
                Err(_) => parse_link(s@) is None,
            },
    {
        Link::from_str(s)
    }
}

} // verus!
