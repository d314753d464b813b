//! Which index a query goes by.

use vstd::prelude::*;

use crate::jsondb::query::{best_index, first_on, pins, rating, score, usable, FilterView};
use crate::jsondb::schema::IndexDefView;

verus! {

/// The first condition on the field is the one at position `k`.
pub open spec fn is_first_on(filters: Seq<FilterView>, field: Seq<char>, k: int) -> bool {
    &&& 0 <= k < filters.len()
    &&& filters[k].field() == field
    &&& forall|j: int| 0 <= j < k ==> (#[trigger] filters[j]).field() != field
}

/// The condition on a field is the first that was given on it; there is none
/// exactly if no condition is on the field.
pub proof fn law_first_condition_counts(filters: Seq<FilterView>, field: Seq<char>)
    ensures
        first_on(filters, field) is Some ==> exists|k: int| #[trigger]
            is_first_on(filters, field, k) && first_on(filters, field) == Some(filters[k]),
        first_on(filters, field) is None ==> forall|j: int|
            0 <= j < filters.len() ==> (#[trigger] filters[j]).field() != field,
    decreases filters.len(),
{
    if filters.len() > 0 {
        let rest = filters.drop_first();
        if filters.first().field() == field {
            assert(is_first_on(filters, field, 0));
        } else {
            law_first_condition_counts(rest, field);
            if first_on(filters, field) is Some {
                let k = choose|k: int| #[trigger]
                    is_first_on(rest, field, k) && first_on(rest, field) == Some(rest[k]);
                assert forall|j: int| 0 <= j < k + 1 implies (#[trigger] filters[j]).field()
                    != field by {
                    if j > 0 {
                        assert(rest[j - 1] == filters[j]);
                    }
                }
                assert(is_first_on(filters, field, k + 1));
            } else {
                assert forall|j: int| 0 <= j < filters.len() implies (
                #[trigger] filters[j]).field() != field by {
                    if j > 0 {
                        assert(rest[j - 1] == filters[j]);
                    }
                }
            }
        }
    }
}

/// A query can go by an index if each of its fields has a condition, none of
/// which asks for an array or an object, and where each element of an array is
/// entered only one that asks for a value.
pub open spec fn serves(filters: Seq<FilterView>, d: IndexDefView) -> bool {
    &&& d.key_paths.len() > 0
    &&& forall|i: int|
        0 <= i < d.key_paths.len() ==> match first_on(filters, #[trigger] d.key_paths[i]) {
            None => false,
            Some(FilterView::Eq(_, v)) => !(v is Array) && !(v is Object),
            Some(_) => !d.multi_entry || d.key_paths.len() > 1,
        }
}

/// A query goes by the first of the indexes that serve it with the most fields,
/// and by none exactly if none serves it.
pub proof fn law_query_goes_by_the_longest_index(
    filters: Seq<FilterView>,
    indexes: Seq<IndexDefView>,
)
    ensures
        match best_index(filters, indexes, indexes.len()) {
            Some(k) => {
                &&& 0 <= k < indexes.len()
                &&& serves(filters, indexes[k])
                &&& forall|j: int|
                    0 <= j < indexes.len() && serves(filters, #[trigger] indexes[j])
                        ==> indexes[j].key_paths.len() <= indexes[k].key_paths.len() && (j < k
                        ==> indexes[j].key_paths.len() < indexes[k].key_paths.len())
            },
            None => forall|j: int|
                0 <= j < indexes.len() ==> !serves(filters, #[trigger] indexes[j]),
        },
{
    lemma_best(filters, indexes, indexes.len());
}

proof fn lemma_rating(filters: Seq<FilterView>, d: IndexDefView)
    ensures
        rating(filters, d) > 0 <==> serves(filters, d),
        serves(filters, d) ==> rating(filters, d) == d.key_paths.len(),
        usable(filters, d) <==> serves(filters, d),
{
    if usable(filters, d) {
        assert forall|i: int| 0 <= i < d.key_paths.len() implies first_on(
            filters,
            #[trigger] d.key_paths[i],
        ) is Some by {
            assert(pins(filters, d.key_paths[i], d.multi_entry && d.key_paths.len() == 1));
        }
        lemma_score(filters, d.key_paths);
        assert forall|i: int| 0 <= i < d.key_paths.len() implies match first_on(
            filters,
            #[trigger] d.key_paths[i],
        ) {
            None => false,
            Some(FilterView::Eq(_, v)) => !(v is Array) && !(v is Object),
            Some(_) => !d.multi_entry || d.key_paths.len() > 1,
        } by {
            assert(pins(filters, d.key_paths[i], d.multi_entry && d.key_paths.len() == 1));
        }
    }
}

proof fn lemma_score(filters: Seq<FilterView>, paths: Seq<Seq<char>>)
    requires
        forall|i: int| 0 <= i < paths.len() ==> first_on(filters, #[trigger] paths[i]) is Some,
    ensures
        score(filters, paths) == paths.len(),
    decreases paths.len(),
{
    if paths.len() > 0 {
        let rest = paths.drop_first();
        assert(first_on(filters, paths[0]) is Some);
        assert forall|i: int| 0 <= i < rest.len() implies first_on(
            filters,
            #[trigger] rest[i],
        ) is Some by {
            assert(rest[i] == paths[i + 1]);
        }
        lemma_score(filters, rest);
    }
}

proof fn lemma_best(filters: Seq<FilterView>, indexes: Seq<IndexDefView>, n: nat)
    requires
        n <= indexes.len(),
    ensures
        match best_index(filters, indexes, n) {
            Some(k) => {
                &&& 0 <= k < n
                &&& serves(filters, indexes[k])
                &&& forall|j: int|
                    0 <= j < n && serves(filters, #[trigger] indexes[j])
                        ==> indexes[j].key_paths.len() <= indexes[k].key_paths.len() && (j < k
                        ==> indexes[j].key_paths.len() < indexes[k].key_paths.len())
            },
            None => forall|j: int| 0 <= j < n ==> !serves(filters, #[trigger] indexes[j]),
        },
    decreases n,
{
    if n > 0 {
        lemma_best(filters, indexes, (n - 1) as nat);
        lemma_rating(filters, indexes[n - 1]);
        match best_index(filters, indexes, (n - 1) as nat) {
            Some(k) => {
                lemma_rating(filters, indexes[k]);
            },
            None => {},
        }
    }
}

} // verus!
