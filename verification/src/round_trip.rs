//! What writing and reading have to do with each other: the header text of a
//! link reads back as the same link, and the items that are read are the items
//! of the segments, one for one.

use vstd::prelude::*;
use crate::item::{
    format_item, format_param, format_params, parse_item, parse_param, parse_params,
    strip_brackets, LinkItemView,
};
use crate::link::{format_link, parse_items, parse_link};
use crate::params::{distinct_names, insert, names, Params};
use crate::text::{
    free_of, lemma_first_index_is, lemma_split_free, lemma_split_once_concat, lemma_split_push,
    lemma_trim_leading, split, trimmed,
};
use crate::uri::uri_rendering;

verus! {

/// Whether `field` can stand in header text as it is: it holds none of `;`,
/// `,`, `<`, `>` and `=`, and neither begins nor ends with white space.
pub open spec fn plain_field(field: Seq<char>) -> bool {
    &&& free_of(field, ';')
    &&& free_of(field, ',')
    &&& free_of(field, '<')
    &&& free_of(field, '>')
    &&& free_of(field, '=')
    &&& trimmed(field)
}

/// Whether every name and every value of `params` is a plain field.
pub open spec fn plain_params(params: Params) -> bool {
    forall|i: int|
        0 <= i < params.len() ==> plain_field((#[trigger] params[i]).0) && plain_field(
            params[i].1,
        )
}

/// Whether `item` is made of plain fields only: its URI reference is a plain
/// field that the URI parser writes back unchanged, its names and values are
/// plain fields, and no name occurs twice.
pub open spec fn plain_item(item: LinkItemView) -> bool {
    &&& plain_field(item.uri)
    &&& uri_rendering(item.uri) == Some(item.uri)
    &&& plain_params(item.params)
    &&& distinct_names(item.params)
}

/// Whether every item of `items` is made of plain fields only.
pub open spec fn plain_items(items: Seq<LinkItemView>) -> bool {
    forall|i: int| 0 <= i < items.len() ==> plain_item(#[trigger] items[i])
}

/// The text of a parameter behind its `;`: a space, the name, `=`, the value.
pub open spec fn fragment(param: (Seq<char>, Seq<char>)) -> Seq<char> {
    seq![' '] + param.0 + seq!['='] + param.1
}

/// The text of each item of `items`.
pub open spec fn item_texts(items: Seq<LinkItemView>) -> Seq<Seq<char>> {
    items.map_values(|item: LinkItemView| format_item(item))
}

/// The fragment of a parameter of plain fields reads back as the parameter.
proof fn lemma_fragment_round_trip(param: (Seq<char>, Seq<char>))
    requires
        plain_field(param.0),
        plain_field(param.1),
    ensures
        parse_param(fragment(param)) == Some(param),
        free_of(fragment(param), ';'),
        free_of(fragment(param), ','),
        format_param(param) == seq![';'] + fragment(param),
{
    let body = param.0 + seq!['='] + param.1;
    assert(fragment(param) =~= seq![' '] + body);
    assert(trimmed(body)) by {
        if param.0.len() > 0 {
            assert(body.first() == param.0.first());
        } else {
            assert(body.first() == '=');
        }
        if param.1.len() > 0 {
            assert(body.last() == param.1.last());
        } else {
            assert(body.last() == '=');
        }
    }
    lemma_trim_leading(' ', body);
    lemma_split_once_concat(param.0, param.1, '=');
    assert(format_param(param) =~= seq![';'] + fragment(param));
}

/// The fragments of parameters of plain fields with distinct names read back
/// as the parameters, in their order.
proof fn lemma_params_round_trip(params: Params)
    requires
        plain_params(params),
        distinct_names(params),
    ensures
        parse_params(params.map_values(|p: (Seq<char>, Seq<char>)| fragment(p))) == Some(params),
    decreases params.len(),
{
    let fragments = params.map_values(|p: (Seq<char>, Seq<char>)| fragment(p));
    if params.len() == 0 {
        assert(params =~= Seq::empty());
    } else {
        let front = params.drop_last();
        let last = params.last();
        assert(fragments.drop_last() =~= front.map_values(
            |p: (Seq<char>, Seq<char>)| fragment(p),
        ));
        assert(fragments.last() == fragment(last));
        assert(plain_params(front)) by {
            assert forall|i: int| 0 <= i < front.len() implies plain_field(
                (#[trigger] front[i]).0,
            ) && plain_field(front[i].1) by {
                assert(front[i] == params[i]);
            }
        }
        assert(distinct_names(front)) by {
            assert forall|a: int, b: int|
                0 <= a < names(front).len() && 0 <= b < names(front).len() && a != b implies names(
                front,
            )[a] != names(front)[b] by {
                assert(names(front)[a] == names(params)[a]);
                assert(names(front)[b] == names(params)[b]);
            }
        }
        lemma_params_round_trip(front);
        lemma_fragment_round_trip(last);
        assert(insert(front, last.0, last.1) =~= params) by {
            assert forall|j: int| 0 <= j < names(front).len() implies names(front)[j]
                != last.0 by {
                assert(names(front)[j] == names(params)[j]);
                assert(names(params)[params.len() - 1] == last.0);
            }
            lemma_first_index_is(names(front), last.0, front.len() as int);
        }
    }
}

/// The text of parameters of plain fields begins with `;`, and what follows
/// splits on `;` into the fragments of the parameters.
proof fn lemma_format_params_split(params: Params)
    requires
        params.len() > 0,
        plain_params(params),
    ensures
        format_params(params).len() > 0,
        format_params(params)[0] == ';',
        split(format_params(params).skip(1), ';') == params.map_values(
            |p: (Seq<char>, Seq<char>)| fragment(p),
        ),
        free_of(format_params(params), ','),
    decreases params.len(),
{
    let fragments = params.map_values(|p: (Seq<char>, Seq<char>)| fragment(p));
    let front = params.drop_last();
    let last = params.last();
    lemma_fragment_round_trip(last);
    if params.len() == 1 {
        assert(format_params(front) =~= Seq::<char>::empty());
        assert(format_params(params) =~= seq![';'] + fragment(last));
        assert(format_params(params).skip(1) =~= fragment(last));
        lemma_split_free(fragment(last), ';');
        assert(fragments =~= seq![fragment(last)]);
    } else {
        assert(plain_params(front)) by {
            assert forall|i: int| 0 <= i < front.len() implies plain_field(
                (#[trigger] front[i]).0,
            ) && plain_field(front[i].1) by {
                assert(front[i] == params[i]);
            }
        }
        lemma_format_params_split(front);
        let before = format_params(front);
        assert(format_params(params) =~= before + seq![';'] + fragment(last));
        assert(format_params(params).skip(1) =~= before.skip(1) + seq![';'] + fragment(last));
        lemma_split_push(before.skip(1), fragment(last), ';');
        assert(fragments =~= front.map_values(|p: (Seq<char>, Seq<char>)| fragment(p)).push(
            fragment(last),
        ));
    }
}

/// The text of an item of plain fields holds no `,` and reads back as the
/// item.
proof fn lemma_item_round_trip(item: LinkItemView)
    requires
        plain_item(item),
    ensures
        parse_item(format_item(item)) == Some(item),
        free_of(format_item(item), ','),
{
    let head = seq!['<'] + item.uri + seq!['>'];
    let text = format_item(item);
    assert(strip_brackets(head) == Some(item.uri)) by {
        assert(head.subrange(1, head.len() - 1) =~= item.uri);
    }
    if item.params.len() == 0 {
        assert(format_params(item.params) =~= Seq::<char>::empty());
        assert(text =~= head);
        lemma_split_free(text, ';');
        assert(item.params =~= Seq::empty());
    } else {
        lemma_format_params_split(item.params);
        let rest = format_params(item.params);
        assert(text =~= head + seq![';'] + rest.skip(1));
        lemma_split_once_concat(head, rest.skip(1), ';');
        lemma_params_round_trip(item.params);
    }
}

/// The header text of items of plain fields splits on `,` into the texts of
/// the items.
proof fn lemma_format_link_split(items: Seq<LinkItemView>)
    requires
        items.len() > 0,
        plain_items(items),
    ensures
        split(format_link(items), ',') == item_texts(items),
    decreases items.len(),
{
    let last = items.last();
    lemma_item_round_trip(last);
    if items.len() == 1 {
        lemma_split_free(format_item(items[0]), ',');
        assert(item_texts(items) =~= seq![format_item(items[0])]);
    } else {
        let front = items.drop_last();
        assert(plain_items(front)) by {
            assert forall|i: int| 0 <= i < front.len() implies plain_item(#[trigger] front[i]) by {
                assert(front[i] == items[i]);
            }
        }
        lemma_format_link_split(front);
        lemma_split_push(format_link(front), format_item(last), ',');
        assert(item_texts(items) =~= item_texts(front).push(format_item(last)));
    }
}

/// The texts of items of plain fields read back as the items.
proof fn lemma_items_round_trip(items: Seq<LinkItemView>)
    requires
        plain_items(items),
    ensures
        parse_items(item_texts(items)) == Some(items),
    decreases items.len(),
{
    if items.len() == 0 {
        assert(items =~= Seq::empty());
    } else {
        let front = items.drop_last();
        assert(plain_items(front)) by {
            assert forall|i: int| 0 <= i < front.len() implies plain_item(#[trigger] front[i]) by {
                assert(front[i] == items[i]);
            }
        }
        lemma_items_round_trip(front);
        lemma_item_round_trip(items.last());
        assert(item_texts(items).drop_last() =~= item_texts(front));
        assert(front.push(items.last()) =~= items);
    }
}

/// Writing, then reading gives the link back. For every link of at least one
/// item whose fields are plain (none of `;`, `,`, `<`, `>`, `=`, no white
/// space at either end), whose URI references the URI parser writes back
/// unchanged and whose parameter names are distinct, the header text of the
/// link denotes the same items in the same order, each with the same
/// parameters in the same order.
///
/// The link of no items is left out: its header text is empty, and the empty
/// text denotes no link.
pub proof fn lemma_round_trip(items: Seq<LinkItemView>)
    requires
        items.len() > 0,
        plain_items(items),
    ensures
        parse_link(format_link(items)) == Some(items),
{
    lemma_format_link_split(items);
    lemma_items_round_trip(items);
}

/// Writing, then reading gives a link item back, under the conditions of
/// `lemma_round_trip`.
pub proof fn lemma_round_trip_item(item: LinkItemView)
    requires
        plain_item(item),
    ensures
        parse_item(format_item(item)) == Some(item),
{
    lemma_item_round_trip(item);
}

/// The items that are read are the items of the segments, one for one and in
/// the order of the text: where the header text `s` denotes a link, the link
/// has as many items as `s` has segments between commas, and its item at
/// each place is the one that the segment at that place denotes.
pub proof fn lemma_items_follow_segments(s: Seq<char>)
    requires
        parse_link(s) is Some,
    ensures
        parse_link(s).unwrap().len() == split(s, ',').len(),
        forall|i: int|
            0 <= i < split(s, ',').len() ==> parse_item(#[trigger] split(s, ',')[i]) == Some(
                parse_link(s).unwrap()[i],
            ),
{
    lemma_parse_items_pointwise(split(s, ','));
}

/// The items of a sequence of segments are the items of the segments, one
/// for one.
proof fn lemma_parse_items_pointwise(segments: Seq<Seq<char>>)
    requires
        parse_items(segments) is Some,
    ensures
        parse_items(segments).unwrap().len() == segments.len(),
        forall|i: int|
            0 <= i < segments.len() ==> parse_item(#[trigger] segments[i]) == Some(
                parse_items(segments).unwrap()[i],
            ),
    decreases segments.len(),
{
    if segments.len() > 0 {
        let front = segments.drop_last();
        lemma_parse_items_pointwise(front);
        assert forall|i: int| 0 <= i < segments.len() implies parse_item(#[trigger] segments[i])
            == Some(parse_items(segments).unwrap()[i]) by {
            if i < front.len() {
                assert(segments[i] == front[i]);
            }
        }
    }
}

/// One segment that denotes no link item leaves the whole text without a
/// link: a header text denotes a link exactly where every one of its
/// segments between commas denotes a link item.
pub proof fn lemma_link_iff_every_segment(s: Seq<char>)
    ensures
        parse_link(s) is Some <==> forall|i: int|
            0 <= i < split(s, ',').len() ==> parse_item(#[trigger] split(s, ',')[i]) is Some,
{
    let segments = split(s, ',');
    if parse_link(s) is Some {
        lemma_parse_items_pointwise(segments);
    }
    if forall|i: int| 0 <= i < segments.len() ==> parse_item(#[trigger] segments[i]) is Some {
        lemma_parse_items_total(segments);
    }
}

/// Segments that each denote a link item denote link items together.
proof fn lemma_parse_items_total(segments: Seq<Seq<char>>)
    requires
        forall|i: int| 0 <= i < segments.len() ==> parse_item(#[trigger] segments[i]) is Some,
    ensures
        parse_items(segments) is Some,
    decreases segments.len(),
{
    if segments.len() > 0 {
        let front = segments.drop_last();
        assert forall|i: int| 0 <= i < front.len() implies parse_item(#[trigger] front[i])
            is Some by {
            assert(front[i] == segments[i]);
        }
        lemma_parse_items_total(front);
        assert(parse_item(segments[segments.len() - 1]) is Some);
    }
}

/// One fragment without `=` leaves the fragments without parameters:
/// fragments give parameters exactly where every one of them is a parameter.
pub proof fn lemma_params_iff_every_fragment(fragments: Seq<Seq<char>>)
    ensures
        parse_params(fragments) is Some <==> forall|i: int|
            0 <= i < fragments.len() ==> parse_param(#[trigger] fragments[i]) is Some,
    decreases fragments.len(),
{
    if fragments.len() > 0 {
        let front = fragments.drop_last();
        lemma_params_iff_every_fragment(front);
        if parse_params(fragments) is Some {
            assert forall|i: int| 0 <= i < fragments.len() implies parse_param(
                #[trigger] fragments[i],
            ) is Some by {
                if i < front.len() {
                    assert(fragments[i] == front[i]);
                }
            }
        }
        if forall|i: int| 0 <= i < fragments.len() ==> parse_param(#[trigger] fragments[i])
            is Some {
            assert forall|i: int| 0 <= i < front.len() implies parse_param(#[trigger] front[i])
                is Some by {
                assert(front[i] == fragments[i]);
            }
            assert(parse_param(fragments[fragments.len() - 1]) is Some);
        }
    }
}

/// Reading is a function of the text: texts that are the same denote the
/// same link, or both denote none.
pub proof fn lemma_same_text_same_link(s: Seq<char>, t: Seq<char>)
    requires
        s =~= t,
    ensures
        parse_link(s) == parse_link(t),
        parse_item(s) == parse_item(t),
{
}

/// Writing is a function of the items and of the order of their parameters:
/// links with the same items, each with the same URI reference and the same
/// parameters in the same order, have the same header text.
pub proof fn lemma_same_items_same_text(a: Seq<LinkItemView>, b: Seq<LinkItemView>)
    requires
        a.len() == b.len(),
        forall|i: int|
            0 <= i < a.len() ==> a[i].uri =~= b[i].uri && a[i].params =~= (#[trigger] b[i]).params,
    ensures
        format_link(a) == format_link(b),
{
    assert(a =~= b);
}

/// The empty text denotes no link, and the link of no items has the empty
/// text.
pub proof fn lemma_empty_text()
    ensures
        parse_link(Seq::empty()) is None,
        format_link(Seq::empty()) == Seq::<char>::empty(),
{
    let empty = Seq::<char>::empty();
    lemma_split_free(empty, ',');
    lemma_split_free(empty, ';');
    let segments = split(empty, ',');
    assert(segments =~= seq![empty]);
    assert(segments.last() == empty);
    assert(strip_brackets(empty) is None);
    assert(parse_item(empty) is None);
}

} // verus!
