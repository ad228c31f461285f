//! One item of a `Link` header: `<uri>` followed by `; name=value` parameters.

use vstd::prelude::*;
use vstd::string::StrSliceExecFns;
use vstd::string::StringExecFns;
use crate::error::InvalidLink;
use crate::params::{
    distinct_names, insert, insert_all, insert_pair, lemma_insert_all_distinct,
    lemma_insert_distinct, lookup, names, pairs_view, find_name, Params,
};
use crate::text::{chars_of, split, split_once, split_once_str, split_str, trim, trim_str, views};
use crate::uri::{is_rendering, uri_rendering, UriRef};

verus! {

/// A link item as a mathematical value.
pub struct LinkItemView {
    /// The text of the URI reference.
    pub uri: Seq<char>,
    /// The parameters, in the order in which they are written.
    pub params: Params,
}

/// What stands between `<` and `>` in `head`, or `None` where `head` does not
/// begin with `<` and end, behind that, with `>`.
pub open spec fn strip_brackets(head: Seq<char>) -> Option<Seq<char>> {
    if head.len() >= 2 && head.first() == '<' && head.last() == '>' {
        Some(head.subrange(1, head.len() - 1))
    } else {
        None
    }
}

/// The name and the value of one parameter: the trimmed fragment, split at
/// its first `=`. `None` where it holds no `=`.
pub open spec fn parse_param(fragment: Seq<char>) -> Option<(Seq<char>, Seq<char>)> {
    split_once(trim(fragment), '=')
}

/// The parameters that a sequence of fragments gives, each inserted in turn,
/// or `None` where one of the fragments is no parameter.
pub open spec fn parse_params(fragments: Seq<Seq<char>>) -> Option<Params>
    decreases fragments.len(),
{
    if fragments.len() == 0 {
        Some(Seq::empty())
    } else {
        match (parse_params(fragments.drop_last()), parse_param(fragments.last())) {
            (Some(params), Some((name, value))) => Some(insert(params, name, value)),
            _ => None,
        }
    }
}

/// The link item that `s` denotes, or `None` where `s` denotes none.
///
/// The part before the first `;` must be a URI reference in angle brackets
/// that the URI parser accepts. What follows the first `;` is split on `;`,
/// and every fragment must be a parameter.
pub open spec fn parse_item(s: Seq<char>) -> Option<LinkItemView> {
    let (head, tail) = match split_once(s, ';') {
        Some((head, tail)) => (head, Some(tail)),
        None => (s, None),
    };
    match strip_brackets(head) {
        None => None,
        Some(inner) => match uri_rendering(inner) {
            None => None,
            Some(uri) => match tail {
                None => Some(LinkItemView { uri, params: Seq::empty() }),
                Some(tail) => match parse_params(split(tail, ';')) {
                    None => None,
                    Some(params) => Some(LinkItemView { uri, params }),
                },
            },
        },
    }
}

/// The text of one parameter: `; `, the name, `=`, the value.
pub open spec fn format_param(param: (Seq<char>, Seq<char>)) -> Seq<char> {
    seq![';', ' '] + param.0 + seq!['='] + param.1
}

/// The text of the parameters, one after the other.
pub open spec fn format_params(params: Params) -> Seq<char>
    decreases params.len(),
{
    if params.len() == 0 {
        Seq::empty()
    } else {
        format_params(params.drop_last()) + format_param(params.last())
    }
}

/// The text of a link item: the URI reference in angle brackets, then the
/// parameters.
pub open spec fn format_item(item: LinkItemView) -> Seq<char> {
    seq!['<'] + item.uri + seq!['>'] + format_params(item.params)
}

/// A link item as a value that every function of this crate returns: its URI
/// reference is one that the URI parser writes, and no name occurs twice among
/// its parameters.
pub open spec fn valid_item(item: LinkItemView) -> bool {
    &&& is_rendering(item.uri)
    &&& distinct_names(item.params)
}

/// The parameters of a sequence of fragments have distinct names.
pub proof fn lemma_parse_params_distinct(fragments: Seq<Seq<char>>)
    ensures
        parse_params(fragments) matches Some(params) ==> distinct_names(params),
    decreases fragments.len(),
{
    if fragments.len() == 0 {
        assert(names(Seq::<(Seq<char>, Seq<char>)>::empty()) =~= Seq::<Seq<char>>::empty());
    } else {
        lemma_parse_params_distinct(fragments.drop_last());
        match (parse_params(fragments.drop_last()), parse_param(fragments.last())) {
            (Some(params), Some((name, value))) => {
                lemma_insert_distinct(params, name, value);
            },
            _ => {},
        }
    }
}

/// Every link item that a text denotes is valid.
pub proof fn lemma_parse_item_valid(s: Seq<char>)
    ensures
        parse_item(s) matches Some(item) ==> valid_item(item),
{
    let (head, tail) = match split_once(s, ';') {
        Some((head, tail)) => (head, Some(tail)),
        None => (s, None),
    };
    if let Some(item) = parse_item(s) {
        let inner = strip_brackets(head).unwrap();
        assert(uri_rendering(inner) == Some(item.uri));
        match tail {
            None => {
                assert(names(Seq::<(Seq<char>, Seq<char>)>::empty()) =~= Seq::<Seq<char>>::empty());
            },
            Some(tail) => {
                lemma_parse_params_distinct(split(tail, ';'));
            },
        }
    }
}

/// One URI reference with its parameters.
#[derive(Debug)]
pub struct LinkItem {
    uri: UriRef,
    params: Vec<(String, String)>,
}

impl View for LinkItem {
    type V = LinkItemView;

    closed spec fn view(&self) -> LinkItemView {
        LinkItemView { uri: self.uri@, params: pairs_view(self.params@) }
    }
}

/// What stands between `<` and `>` in `head`.
pub fn strip_brackets_str<'a>(head: &'a str) -> (inner: Option<&'a str>)
    ensures
        match inner {
            Some(inner) => strip_brackets(head@) == Some(inner@),
            None => strip_brackets(head@) is None,
        },
{
    let chars = chars_of(head);
    let n = chars.len();
    if n >= 2 && chars[0] == '<' && chars[n - 1] == '>' {
        Some(head.substring_char(1, n - 1))
    } else {
        None
    }
}

impl LinkItem {
    /// What holds of every link item: it is valid.
    #[verifier::type_invariant]
    pub open spec fn wf(self) -> bool {
        valid_item(self@)
    }

    /// A link item without parameters.
    pub fn new(uri: UriRef) -> (item: LinkItem)
        ensures
            item@ == (LinkItemView { uri: uri@, params: Seq::empty() }),
            valid_item(item@),
    {
        let params: Vec<(String, String)> = Vec::new();
        proof {
            use_type_invariant(&uri);
            assert(pairs_view(params@) =~= Seq::<(Seq<char>, Seq<char>)>::empty());
            assert(names(pairs_view(params@)) =~= Seq::<Seq<char>>::empty());
        }
        LinkItem { uri, params }
    }

    /// A link item with the parameters that `params` gives, inserted first to
    /// last: where a name occurs twice, its last value stays.
    pub fn with_param(uri: UriRef, params: Vec<(String, String)>) -> (item: LinkItem)
        ensures
            item@ == (LinkItemView {
                uri: uri@,
                params: insert_all(Seq::empty(), pairs_view(params@)),
            }),
            valid_item(item@),
    {
        let mut kept: Vec<(String, String)> = Vec::new();
        let n = params.len();
        let mut i: usize = 0;
        proof {
            use_type_invariant(&uri);
            assert(pairs_view(kept@) =~= Seq::<(Seq<char>, Seq<char>)>::empty());
            assert(pairs_view(params@).take(0) =~= Seq::<(Seq<char>, Seq<char>)>::empty());
        }
        while i < n
            invariant
                n == params.len(),
                i <= n,
                pairs_view(kept@) == insert_all(Seq::empty(), pairs_view(params@).take(i as int)),
            decreases n - i,
        {
            let name = params[i].0.clone();
            let value = params[i].1.clone();
            proof {
                let next = pairs_view(params@).take(i + 1);
                assert(next.drop_last() =~= pairs_view(params@).take(i as int));
                assert(next.last() == (name@, value@));
            }
            insert_pair(&mut kept, name, value);
            i += 1;
        }
        proof {
            assert(pairs_view(params@).take(n as int) =~= pairs_view(params@));
            assert(names(Seq::<(Seq<char>, Seq<char>)>::empty()) =~= Seq::<Seq<char>>::empty());
            lemma_insert_all_distinct(Seq::empty(), pairs_view(params@));
        }
        LinkItem { uri, params: kept }
    }

    /// The URI reference of the item.
    pub fn uri(&self) -> (uri: &UriRef)
        ensures
            uri@ == self@.uri,
    {
        &self.uri
    }

    /// The value of the parameter `name`, or `None` where the item has no
    /// such parameter.
    pub fn param(&self, name: &str) -> (value: Option<&str>)
        ensures
            match value {
                Some(value) => lookup(self@.params, name@) == Some(value@),
                None => lookup(self@.params, name@) is None,
            },
    {
        let key = name.to_owned();
        let i = find_name(&self.params, &key);
        if i < self.params.len() {
            Some(self.params[i].1.as_str())
        } else {
            None
        }
    }

    /// The number of parameters.
    pub fn param_count(&self) -> (n: usize)
        ensures
            n == self@.params.len(),
    {
        self.params.len()
    }

    /// Reads one link item. Succeeds exactly on the texts that denote one, and
    /// gives the item that the text denotes.
    pub fn from_str(s: &str) -> (r: Result<LinkItem, InvalidLink>)
        ensures
            match r {
                Ok(item) => parse_item(s@) == Some(item@) && valid_item(item@),
                Err(_) => parse_item(s@) is None,
            },
    {
        let (head, tail) = match split_once_str(s, ';') {
            Some((head, tail)) => (head, Some(tail)),
            None => (s, None),
        };
        let inner = match strip_brackets_str(head) {
            Some(inner) => inner,
            None => {
                return Err(InvalidLink);
            },
        };
        let uri = match UriRef::parse(inner) {
            Ok(uri) => uri,
            Err(e) => {
                return Err(e);
            },
        };
        let mut params: Vec<(String, String)> = Vec::new();
        proof {
            use_type_invariant(&uri);
            assert(pairs_view(params@) =~= Seq::<(Seq<char>, Seq<char>)>::empty());
            assert(names(pairs_view(params@)) =~= Seq::<Seq<char>>::empty());
        }
        if let Some(tail) = tail {
            let fragments = split_str(tail, ';');
            let n = fragments.len();
            let mut i: usize = 0;
            proof {
                assert(views(fragments@).take(0) =~= Seq::<Seq<char>>::empty());
            }
            while i < n
                invariant
                    n == fragments.len(),
                    i <= n,
                    views(fragments@) == split(tail@, ';'),
                    parse_params(views(fragments@)) is None ==> parse_item(s@) is None,
                    parse_params(views(fragments@).take(i as int)) == Some(pairs_view(params@)),
                decreases n - i,
            {
                let ghost next = views(fragments@).take(i + 1);
                proof {
                    assert(next.drop_last() =~= views(fragments@).take(i as int));
                    assert(next.last() == fragments@[i as int]@);
                }
                match split_once_str(trim_str(fragments[i]), '=') {
                    Some((name, value)) => {
                        insert_pair(&mut params, name.to_owned(), value.to_owned());
                    },
                    None => {
                        proof {
                            lemma_parse_params_prefix(views(fragments@), i + 1);
                        }
                        return Err(InvalidLink);
                    },
                }
                i += 1;
            }
            proof {
                assert(views(fragments@).take(n as int) =~= views(fragments@));
                lemma_parse_params_distinct(views(fragments@));
            }
        }
        Ok(LinkItem { uri, params })
    }

    /// Writes the item: the URI reference in angle brackets, then each
    /// parameter as `; name=value`, in the order in which the item holds them.
    pub fn to_string(&self) -> (text: String)
        ensures
            text@ == format_item(self@),
    {
        proof {
            reveal_strlit("<");
            reveal_strlit(">");
            reveal_strlit("; ");
            reveal_strlit("=");
        }
        let mut text = String::new();
        text.append("<");
        text.append(self.uri.as_str());
        text.append(">");
        let ghost head = text@;
        assert(head =~= seq!['<'] + self@.uri + seq!['>']);
        let n = self.params.len();
        let mut i: usize = 0;
        proof {
            assert(pairs_view(self.params@).take(0) =~= Seq::<(Seq<char>, Seq<char>)>::empty());
            assert(text@ =~= head + format_params(pairs_view(self.params@).take(0)));
        }
        while i < n
            invariant
                n == self.params.len(),
                i <= n,
                "; "@ == seq![';', ' '],
                "="@ == seq!['='],
                text@ == head + format_params(pairs_view(self.params@).take(i as int)),
            decreases n - i,
        {
            let ghost before = text@;
            let ghost next = pairs_view(self.params@).take(i + 1);
            text.append("; ");
            text.append(self.params[i].0.as_str());
            text.append("=");
            text.append(self.params[i].1.as_str());
            proof {
                assert(next.drop_last() =~= pairs_view(self.params@).take(i as int));
                assert(next.last() == (self.params@[i as int].0@, self.params@[i as int].1@));
                assert(text@ =~= before + format_param(next.last()));
                assert(text@ =~= head + format_params(next));
            }
            i += 1;
        }
        proof {
            assert(pairs_view(self.params@).take(n as int) =~= pairs_view(self.params@));
        }
        text
    }
}

impl core::str::FromStr for LinkItem {
    type Err = InvalidLink;

    /// Reads one link item, as `LinkItem::from_str` does.
    fn from_str(s: &str) -> (r: Result<LinkItem, InvalidLink>)
        ensures
            match r {
                Ok(item) => parse_item(s@) == Some(item@) && valid_item(item@),
                Err(_) => parse_item(s@) is None,
            },
    {
        LinkItem::from_str(s)
    }
}

/// Fragments of which some first ones are no parameters are no parameters.
pub proof fn lemma_parse_params_prefix(fragments: Seq<Seq<char>>, k: int)
    requires
        0 <= k <= fragments.len(),
        parse_params(fragments.take(k)) is None,
    ensures
        parse_params(fragments) is None,
    decreases fragments.len() - k,
{
    if k < fragments.len() {
        assert(fragments.take(k + 1).drop_last() =~= fragments.take(k));
        lemma_parse_params_prefix(fragments, k + 1);
    } else {
        assert(fragments.take(k) =~= fragments);
    }
}

} // verus!
