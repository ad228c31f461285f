//! The parameters of a link item: pairs of a name and a value in which no name
//! occurs twice. A pair given for a name that is already there replaces the
//! value and keeps the place; a pair with a new name goes to the end.

use vstd::prelude::*;
use crate::text::{first_index_of, lemma_first_index_is, lemma_first_index_of};

verus! {

/// Parameters as mathematical values: each pair is a name and its value.
pub type Params = Seq<(Seq<char>, Seq<char>)>;

/// The names of `params`, in order.
pub open spec fn names(params: Params) -> Seq<Seq<char>> {
    params.map_values(|p: (Seq<char>, Seq<char>)| p.0)
}

/// Whether no name occurs twice in `params`.
pub open spec fn distinct_names(params: Params) -> bool {
    names(params).no_duplicates()
}

/// The value that `params` holds for `name`.
pub open spec fn lookup(params: Params, name: Seq<char>) -> Option<Seq<char>> {
    let i = first_index_of(names(params), name);
    if 0 <= i < params.len() {
        Some(params[i].1)
    } else {
        None
    }
}

/// `params` with `value` for `name`.
pub open spec fn insert(params: Params, name: Seq<char>, value: Seq<char>) -> Params {
    let i = first_index_of(names(params), name);
    if 0 <= i < params.len() {
        params.update(i, (name, value))
    } else {
        params.push((name, value))
    }
}

/// `params` after inserting each pair of `pairs`, first to last.
pub open spec fn insert_all(params: Params, pairs: Params) -> Params
    decreases pairs.len(),
{
    if pairs.len() == 0 {
        params
    } else {
        insert(insert_all(params, pairs.drop_last()), pairs.last().0, pairs.last().1)
    }
}

/// The mapping from name to value that `params` stands for.
pub open spec fn as_map(params: Params) -> Map<Seq<char>, Seq<char>> {
    Map::new(
        |name: Seq<char>| lookup(params, name) is Some,
        |name: Seq<char>| lookup(params, name).unwrap(),
    )
}

/// The view of executable parameters.
pub open spec fn pairs_view(pairs: Seq<(String, String)>) -> Params {
    pairs.map_values(|p: (String, String)| (p.0@, p.1@))
}

/// Inserting keeps the names distinct.
pub proof fn lemma_insert_distinct(params: Params, name: Seq<char>, value: Seq<char>)
    requires
        distinct_names(params),
    ensures
        distinct_names(insert(params, name, value)),
{
    let i = first_index_of(names(params), name);
    let after = insert(params, name, value);
    lemma_first_index_of(names(params), name);
    assert forall|a: int, b: int|
        0 <= a < names(after).len() && 0 <= b < names(after).len() && a != b implies names(
        after,
    )[a] != names(after)[b] by {
        if i < params.len() {
            assert(names(after) =~= names(params));
        } else {
            if a < params.len() && b < params.len() {
                assert(names(after)[a] == names(params)[a]);
                assert(names(after)[b] == names(params)[b]);
            } else if a < params.len() {
                assert(names(after)[a] == names(params)[a]);
            } else {
                assert(names(after)[b] == names(params)[b]);
            }
        }
    }
}

/// Inserting every pair of a sequence keeps the names distinct.
pub proof fn lemma_insert_all_distinct(params: Params, pairs: Params)
    requires
        distinct_names(params),
    ensures
        distinct_names(insert_all(params, pairs)),
    decreases pairs.len(),
{
    if pairs.len() > 0 {
        lemma_insert_all_distinct(params, pairs.drop_last());
        lemma_insert_distinct(
            insert_all(params, pairs.drop_last()),
            pairs.last().0,
            pairs.last().1,
        );
    }
}

/// The last value given for a name is the one that is found: after an
/// insertion the name has the new value, and every other name has what it had.
pub proof fn lemma_lookup_insert(
    params: Params,
    name: Seq<char>,
    value: Seq<char>,
    other: Seq<char>,
)
    ensures
        lookup(insert(params, name, value), name) == Some(value),
        other != name ==> lookup(insert(params, name, value), other) == lookup(params, other),
{
    let after = insert(params, name, value);
    let i = first_index_of(names(params), name);
    let k = first_index_of(names(params), other);
    lemma_first_index_of(names(params), name);
    lemma_first_index_of(names(params), other);
    if i < params.len() {
        assert(names(after) =~= names(params));
    } else {
        assert(names(after) =~= names(params).push(name));
        lemma_first_index_is(names(after), name, i);
        if other != name {
            if k < params.len() {
                lemma_first_index_is(names(after), other, k);
            } else {
                lemma_first_index_is(names(after), other, after.len() as int);
            }
        }
    }
}

/// As a mapping, an insertion is the insertion of the mapping.
pub proof fn lemma_insert_as_map(params: Params, name: Seq<char>, value: Seq<char>)
    ensures
        as_map(insert(params, name, value)) == as_map(params).insert(name, value),
{
    let after = insert(params, name, value);
    assert forall|k: Seq<char>| #[trigger]
        as_map(after).dom().contains(k) == as_map(params).insert(name, value).dom().contains(
            k,
        ) by {
        lemma_lookup_insert(params, name, value, k);
    }
    assert forall|k: Seq<char>| #[trigger] as_map(after).dom().contains(k) implies as_map(
        after,
    )[k] == as_map(params).insert(name, value)[k] by {
        lemma_lookup_insert(params, name, value, k);
    }
    assert(as_map(after) =~= as_map(params).insert(name, value));
}

/// Position of `name` among `pairs`; the length where it is not there.
pub fn find_name(pairs: &Vec<(String, String)>, name: &String) -> (i: usize)
    ensures
        i == first_index_of(names(pairs_view(pairs@)), name@),
        i <= pairs.len(),
{
    let n = pairs.len();
    let mut i: usize = 0;
    while i < n
        invariant
            n == pairs.len(),
            i <= n,
            forall|j: int| 0 <= j < i ==> pairs@[j].0@ != name@,
        decreases n - i,
    {
        if pairs[i].0 == *name {
            proof {
                lemma_first_index_is(names(pairs_view(pairs@)), name@, i as int);
            }
            return i;
        }
        i += 1;
    }
    proof {
        lemma_first_index_is(names(pairs_view(pairs@)), name@, i as int);
    }
    i
}

/// Gives `name` the value `value` in `pairs`.
pub fn insert_pair(pairs: &mut Vec<(String, String)>, name: String, value: String)
    ensures
        pairs_view(final(pairs)@) == insert(pairs_view(old(pairs)@), name@, value@),
{
    let i = find_name(pairs, &name);
    let ghost before = pairs_view(pairs@);
    if i < pairs.len() {
        pairs.set(i, (name, value));
        assert(pairs_view(pairs@) =~= before.update(i as int, (name@, value@)));
    } else {
        pairs.push((name, value));
        assert(pairs_view(pairs@) =~= before.push((name@, value@)));
    }
}

} // verus!
