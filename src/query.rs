use vstd::prelude::*;

use crate::catalog::{CatalogStore, Data};
use crate::tags::{
    is_none_request, lower_of, lower_tags, lowercase, parse_tags, passes, tags_match, trim_of,
    trimmed,
};
use crate::topk::{lemma_run_members, run, top_k, Scored, TopKError};

verus! {

/// Why a query could not be answered.
#[derive(Debug, PartialEq, Eq, Structural, Clone, Copy)]
pub enum QueryError {
    /// No item has the name asked for.
    ItemNotFound,
    /// An item that the query needs has no embedding: the store was not
    /// populated.
    MissingEmbedding,
}

/// A name as the user gives it, made ready for comparison: trimmed, then
/// lower-cased.
pub open spec fn query_key(name: Seq<char>) -> Seq<char> {
    lower_of(trim_of(name))
}

/// Item `d` bears the name whose key is `key`, ignoring case.
pub open spec fn named(d: Data, key: Seq<char>) -> bool {
    lower_of(d.name@) == key
}

/// `i` is the first item that bears the name with key `key`.
pub open spec fn is_first_named(items: Seq<Data>, key: Seq<char>, i: int) -> bool {
    &&& 0 <= i < items.len()
    &&& named(items[i], key)
    &&& forall|j: int| 0 <= j < i ==> !named(#[trigger] items[j], key)
}

/// The key of the item left out of its own results, if any.
pub open spec fn exclusion_key(exclude: Option<&str>) -> Option<Seq<char>> {
    match exclude {
        Some(n) => Some(query_key(n@)),
        None => None,
    }
}

/// Item `d` takes part in a query: it is not the excluded item and it
/// passes the tag request.
pub open spec fn eligible(d: Data, key: Option<Seq<char>>, req: Seq<char>) -> bool {
    &&& !(key matches Some(k) && named(d, k))
    &&& passes(d.tags@, req)
}

/// The indices of the eligible items, in order.
pub open spec fn eligible_indices(items: Seq<Data>, key: Option<Seq<char>>, req: Seq<char>) -> Seq<
    int,
>
    decreases items.len(),
{
    if items.len() == 0 {
        Seq::empty()
    } else {
        let front = eligible_indices(items.drop_last(), key, req);
        if eligible(items.last(), key, req) {
            front.push(items.len() - 1)
        } else {
            front
        }
    }
}

/// The offers that the items at `picked` make with the scores `scores`.
pub open spec fn offers_of(items: Seq<Data>, picked: Seq<int>, scores: Seq<i64>) -> Seq<Scored> {
    Seq::new(picked.len(), |i: int| (items[picked[i]].name, scores[i]))
}

pub proof fn lemma_eligible_indices(items: Seq<Data>, key: Option<Seq<char>>, req: Seq<char>)
    ensures
        forall|m: int|
            0 <= m < eligible_indices(items, key, req).len() ==> {
                let i = #[trigger] eligible_indices(items, key, req)[m];
                0 <= i < items.len() && eligible(items[i], key, req)
            },
        forall|i: int|
            0 <= i < items.len() && eligible(items[i], key, req) ==> #[trigger] eligible_indices(
                items,
                key,
                req,
            ).contains(i),
    decreases items.len(),
{
    if items.len() > 0 {
        let front = items.drop_last();
        lemma_eligible_indices(front, key, req);
        let e = eligible_indices(items, key, req);
        let f = eligible_indices(front, key, req);
        assert forall|m: int| 0 <= m < e.len() implies {
            let i = #[trigger] e[m];
            0 <= i < items.len() && eligible(items[i], key, req)
        } by {
            if m < f.len() {
                assert(e[m] == f[m]);
                assert(items[f[m]] == front[f[m]]);
            }
        }
        assert forall|i: int|
            0 <= i < items.len() && eligible(items[i], key, req) implies #[trigger] e.contains(
            i,
        ) by {
            if i < items.len() - 1 {
                assert(items[i] == front[i]);
                assert(f.contains(i));
                let m = choose|m: int| 0 <= m < f.len() && f[m] == i;
                assert(e[m] == i);
            } else {
                assert(e[e.len() - 1] == i);
            }
        }
    }
}

/// The embedding of the first item named `item_name` (trimmed, any case).
/// Fails with `ItemNotFound` when no item bears that name, and with
/// `MissingEmbedding` when that item has no embedding.
pub fn find_embedding<'a, E>(data: &'a CatalogStore<E>, item_name: &str) -> (r: Result<
    &'a E,
    QueryError,
>)
    requires
        data.wf(),
    ensures
        (r matches Err(QueryError::ItemNotFound)) <==> forall|i: int|
            0 <= i < data.items().len() ==> !named(
                #[trigger] data.items()[i],
                query_key(item_name@),
            ),
        r matches Ok(e) ==> exists|i: int|
            #[trigger] is_first_named(data.items(), query_key(item_name@), i) && data.slots()[i]
                == Some(*e),
        (r matches Err(QueryError::MissingEmbedding)) ==> exists|i: int|
            #[trigger] is_first_named(data.items(), query_key(item_name@), i)
                && data.slots()[i] is None,
{
    let key = lowercase(trimmed(item_name));
    let n = data.len();
    let mut i: usize = 0;
    while i < n
        invariant
            n == data.items().len(),
            data.wf(),
            key@ == query_key(item_name@),
            i <= n,
            forall|j: int| 0 <= j < i ==> !named(#[trigger] data.items()[j], key@),
        decreases n - i,
    {
        let name = lowercase(data.item(i).name.as_str());
        if name == key {
            proof {
                assert(is_first_named(data.items(), key@, i as int));
            }
            return match data.embedding(i) {
                Some(e) => Ok(e),
                None => Err(QueryError::MissingEmbedding),
            };
        }
        i += 1;
    }
    Err(QueryError::ItemNotFound)
}

/// The indices of the items that take part in a query, in order: those that
/// pass the tag request `tags_input` and are not the item named `exclude`
/// (trimmed, any case). Fails with `MissingEmbedding` when one of them has no
/// embedding.
pub fn candidates<E>(data: &CatalogStore<E>, exclude: Option<&str>, tags_input: &str) -> (r:
    Result<Vec<usize>, QueryError>)
    requires
        data.wf(),
    ensures
        r is Err ==> (r matches Err(QueryError::MissingEmbedding)),
        r is Err <==> exists|i: int|
            0 <= i < data.items().len() && eligible(
                #[trigger] data.items()[i],
                exclusion_key(exclude),
                tags_input@,
            ) && data.slots()[i] is None,
        r matches Ok(v) ==> v@.map_values(|i: usize| i as int) == eligible_indices(
            data.items(),
            exclusion_key(exclude),
            tags_input@,
        ),
{
    let key = match exclude {
        Some(name) => Some(lowercase(trimmed(name))),
        None => None,
    };
    let no_filter = is_none_request(tags_input);
    let wanted = parse_tags(tags_input);
    let ghost k = exclusion_key(exclude);
    let ghost items = data.items();
    let n = data.len();
    let mut r: Vec<usize> = Vec::new();
    let mut i: usize = 0;
    while i < n
        invariant
            n == items.len(),
            items == data.items(),
            data.wf(),
            i <= n,
            k == exclusion_key(exclude),
            key is Some <==> k is Some,
            key matches Some(s) ==> k == Some(s@),
            no_filter == crate::tags::is_no_filter(tags_input@),
            crate::tags::views(wanted@) == crate::tags::requested_tags(tags_input@),
            r@.map_values(|j: usize| j as int) == eligible_indices(items.take(i as int), k, tags_input@),
            forall|j: int|
                0 <= j < i && eligible(#[trigger] items[j], k, tags_input@) ==> data.slots()[j] is Some,
        decreases n - i,
    {
        let d = data.item(i);
        let mut take = true;
        if let Some(s) = &key {
            let name = lowercase(d.name.as_str());
            if name == *s {
                take = false;
            }
        }
        if take && !no_filter {
            let have = lower_tags(&d.tags);
            take = tags_match(&wanted, &have);
        }
        proof {
            assert(items.take(i as int + 1).drop_last() =~= items.take(i as int));
            assert(items.take(i as int + 1).last() == items[i as int]);
            assert(take == eligible(items[i as int], k, tags_input@));
        }
        if take {
            if data.embedding(i).is_none() {
                return Err(QueryError::MissingEmbedding);
            }
            r.push(i);
            proof {
                assert(r@.map_values(|j: usize| j as int) =~= eligible_indices(
                    items.take(i as int),
                    k,
                    tags_input@,
                ).push(i as int));
            }
        }
        i += 1;
    }
    proof {
        assert(items.take(i as int) =~= items);
    }
    Ok(r)
}

/// The ranked result: the `k` best of the offers that the items at `picked`
/// make with the scores `scores`, highest first, earlier offers first among
/// equal scores. Fails with `InvalidCapacity` when `k` is 0.
pub fn ranked<E>(data: &CatalogStore<E>, picked: &Vec<usize>, scores: &Vec<i64>, k: usize) -> (r:
    Result<Vec<Scored>, TopKError>)
    requires
        data.wf(),
        picked@.len() == scores@.len(),
        forall|i: int| 0 <= i < picked@.len() ==> #[trigger] picked@[i] < data.items().len(),
    ensures
        k >= 1 <==> r is Ok,
        r is Err ==> (r matches Err(TopKError::InvalidCapacity)),
        r matches Ok(v) ==> v@ == run(
            k as nat,
            offers_of(data.items(), picked@.map_values(|i: usize| i as int), scores@),
        ),
{
    let mut offers: Vec<Scored> = Vec::new();
    let mut i: usize = 0;
    while i < picked.len()
        invariant
            picked@.len() == scores@.len(),
            forall|j: int| 0 <= j < picked@.len() ==> #[trigger] picked@[j] < data.items().len(),
            i <= picked@.len(),
            offers@ == offers_of(data.items(), picked@.map_values(|j: usize| j as int), scores@).take(
                i as int,
            ),
        decreases picked@.len() - i,
    {
        let name = data.item(picked[i]).name.clone();
        offers.push((name, scores[i]));
        proof {
            assert(offers@ =~= offers_of(
                data.items(),
                picked@.map_values(|j: usize| j as int),
                scores@,
            ).take(i as int + 1));
        }
        i += 1;
    }
    proof {
        assert(offers@ =~= offers_of(data.items(), picked@.map_values(|j: usize| j as int), scores@));
    }
    top_k(&offers, k)
}

/// A query by an item never returns that item: no entry of the ranked
/// result over the eligible items bears the name queried by.
pub proof fn lemma_item_never_recommends_itself(
    items: Seq<Data>,
    name: Seq<char>,
    req: Seq<char>,
    scores: Seq<i64>,
    k: nat,
)
    requires
        scores.len() == eligible_indices(items, Some(query_key(name)), req).len(),
    ensures
        forall|e: Scored|
            #[trigger] run(
                k,
                offers_of(items, eligible_indices(items, Some(query_key(name)), req), scores),
            ).contains(e) ==> lower_of(e.0@) != query_key(name),
{
    let key = Some(query_key(name));
    let picked = eligible_indices(items, key, req);
    let offers = offers_of(items, picked, scores);
    lemma_eligible_indices(items, key, req);
    lemma_run_members(k, offers);
    assert forall|e: Scored| #[trigger] run(k, offers).contains(e) implies lower_of(e.0@)
        != query_key(name) by {
        assert(offers.contains(e));
        let m = choose|m: int| 0 <= m < offers.len() && offers[m] == e;
        assert(eligible(items[picked[m]], key, req));
    }
}

/// A tag request that no item passes gives an empty ranked result, not an
/// error.
pub proof fn lemma_no_match_no_result(
    items: Seq<Data>,
    key: Option<Seq<char>>,
    req: Seq<char>,
    scores: Seq<i64>,
    k: nat,
)
    requires
        forall|i: int| 0 <= i < items.len() ==> !passes(#[trigger] items[i].tags@, req),
    ensures
        eligible_indices(items, key, req).len() == 0,
        run(k, offers_of(items, eligible_indices(items, key, req), scores)).len() == 0,
{
    lemma_eligible_indices(items, key, req);
    let e = eligible_indices(items, key, req);
    if e.len() > 0 {
        assert(eligible(items[e[0]], key, req));
    }
    assert(offers_of(items, e, scores) =~= Seq::<Scored>::empty());
}

} // verus!
