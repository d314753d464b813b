//! What holds of the order in which cursors give their items.

use vstd::prelude::*;

use crate::jsondb::cursor::{directed, first_items, seen, CursorDirection, Item, WalkView};
use crate::jsondb::value::{json_equal, lemma_json_equal_reflexive, Json};

verus! {

/// A cursor that runs backwards gives the items of one that runs forwards, in
/// the opposite order.
pub proof fn law_backwards_is_the_opposite_order(items: Seq<Item>)
    ensures
        directed(items, CursorDirection::Prev) == directed(items, CursorDirection::Next).reverse(),
        directed(items, CursorDirection::Next) == items,
{
}

/// The primary keys of items.
pub open spec fn keys_of(items: Seq<Item>) -> Seq<Json> {
    items.map_values(|t: Item| t.1)
}

/// The items of which the primary key comes first are among all items, and no
/// key comes twice.
proof fn lemma_first_items(items: Seq<Item>)
    ensures
        forall|i: int, j: int|
            0 <= i < j < first_items(items).len() ==> !json_equal(
                (#[trigger] first_items(items)[i]).1,
                (#[trigger] first_items(items)[j]).1,
            ),
        forall|i: int| 0 <= i < first_items(items).len() ==> items.contains(#[trigger] first_items(items)[i]),
    decreases items.len(),
{
    if items.len() > 0 {
        let t = items.drop_last();
        let x = items.last();
        let before = first_items(t);
        let all = first_items(items);
        let keys = keys_of(before);
        lemma_first_items(t);
        assert forall|i: int| 0 <= i < before.len() implies items.contains(#[trigger] before[i]) by {
            assert(t.contains(before[i]));
            let k = choose|k: int| 0 <= k < t.len() && t[k] == before[i];
            assert(items[k] == before[i]);
        }
        if !seen(keys, x.1) {
            assert(items[items.len() - 1] == x);
            assert forall|i: int, j: int| 0 <= i < j < all.len() implies !json_equal(
                (#[trigger] all[i]).1,
                (#[trigger] all[j]).1,
            ) by {
                assert(all[i] == before[i]);
                if j < before.len() {
                    assert(all[j] == before[j]);
                } else {
                    assert(keys[i] == before[i].1);
                }
            }
            assert forall|i: int| 0 <= i < all.len() implies items.contains(#[trigger] all[i]) by {
                if i < before.len() {
                    assert(all[i] == before[i]);
                }
            }
        }
    }
}

/// Every primary key is one of the first ones.
proof fn lemma_all_keys_come(items: Seq<Item>, i: int)
    requires
        0 <= i < items.len(),
    ensures
        seen(keys_of(first_items(items)), items[i].1),
    decreases items.len(),
{
    let t = items.drop_last();
    let x = items.last();
    let before = first_items(t);
    let all = first_items(items);
    if i < t.len() {
        lemma_all_keys_come(t, i);
        let j = choose|j: int|
            0 <= j < keys_of(before).len() && json_equal(
                #[trigger] keys_of(before)[j],
                items[i].1,
            );
        assert(all[j] == before[j]);
        assert(json_equal(keys_of(all)[j], items[i].1));
    } else if !seen(keys_of(before), x.1) {
        lemma_json_equal_reflexive(x.1);
        assert(keys_of(all)[before.len() as int] == x.1);
    }
}

/// A unique cursor gives no primary key twice, and one item for every key.
pub proof fn law_unique_cursor_gives_every_key_once(items: Seq<Item>, dir: CursorDirection)
    requires
        dir.unique(),
    ensures
        forall|i: int, j: int|
            0 <= i < j < directed(items, dir).len() ==> !json_equal(
                (#[trigger] directed(items, dir)[i]).1,
                (#[trigger] directed(items, dir)[j]).1,
            ),
        forall|i: int|
            0 <= i < directed(items, dir).len() ==> items.contains(#[trigger] directed(items, dir)[i]),
        forall|i: int|
            0 <= i < items.len() ==> seen(keys_of(directed(items, dir)), (#[trigger] items[i]).1),
{
    let order = if dir.reverse() {
        items.reverse()
    } else {
        items
    };
    lemma_first_items(order);
    let out = directed(items, dir);
    assert forall|i: int| 0 <= i < out.len() implies items.contains(#[trigger] out[i]) by {
        assert(order.contains(out[i]));
        let k = choose|k: int| 0 <= k < order.len() && order[k] == out[i];
        if dir.reverse() {
            assert(items[items.len() - 1 - k] == out[i]);
        }
    }
    assert forall|i: int| 0 <= i < items.len() implies seen(
        keys_of(out),
        (#[trigger] items[i]).1,
    ) by {
        let k = if dir.reverse() {
            items.len() - 1 - i
        } else {
            i
        };
        assert(order[k] == items[i]);
        lemma_all_keys_come(order, k);
    }
}

/// The walk after `n` single steps.
pub open spec fn stepped_often(w: WalkView, n: nat) -> WalkView
    decreases n,
{
    if n == 0 {
        w
    } else {
        stepped_often(w, (n - 1) as nat).stepped()
    }
}

/// A walk from the start gives every item in turn, and none after the last.
pub proof fn law_walk_gives_every_item(items: Seq<Item>, n: nat)
    ensures
        n < items.len() ==> stepped_often(WalkView::at_start(items), n).item() == Some(
            items[n as int],
        ),
        n >= items.len() ==> stepped_often(WalkView::at_start(items), n).item() is None,
{
    lemma_walk(items, n);
}

proof fn lemma_walk(items: Seq<Item>, n: nat)
    ensures
        stepped_often(WalkView::at_start(items), n) == WalkView::at_start(items).skipped(n),
    decreases n,
{
    if n > 0 {
        lemma_walk(items, (n - 1) as nat);
    }
}

/// Skipping items is stepping over them one by one; a walk stops behind its last
/// item.
pub proof fn law_skipping_is_stepping(w: WalkView, n: nat)
    requires
        w.pos <= w.items.len(),
    ensures
        w.skipped(n) == stepped_often(w, n),
        w.skipped(n).items == w.items,
        w.skipped(n).pos == if w.pos + n <= w.items.len() {
            w.pos + n
        } else {
            w.items.len()
        },
    decreases n,
{
    if n > 0 {
        law_skipping_is_stepping(w, (n - 1) as nat);
    }
}

/// No item before has an equal primary key.
pub open spec fn comes_first(items: Seq<Item>, i: int) -> bool {
    forall|j: int| 0 <= j < i ==> !json_equal((#[trigger] items[j]).1, items[i].1)
}

proof fn lemma_kept_places(items: Seq<Item>) -> (places: Seq<int>)
    ensures
        places.len() == first_items(items).len(),
        forall|k: int|
            0 <= k < places.len() ==> 0 <= #[trigger] places[k] < items.len() && items[places[k]]
                == first_items(items)[k],
        forall|k: int, l: int|
            0 <= k < l < places.len() ==> #[trigger] places[k] < #[trigger] places[l],
        forall|i: int|
            0 <= i < items.len() && #[trigger] comes_first(items, i) ==> places.contains(i),
    decreases items.len(),
{
    if items.len() == 0 {
        Seq::empty()
    } else {
        let t = items.drop_last();
        let x = items.last();
        let n = items.len() - 1;
        let before = first_items(t);
        let rest = lemma_kept_places(t);
        let taken = !seen(before.map_values(|t: Item| t.1), x.1);
        let places = if taken {
            rest.push(n)
        } else {
            rest
        };
        let out = first_items(items);
        assert forall|k: int| 0 <= k < places.len() implies 0 <= #[trigger] places[k] < items.len()
            && items[places[k]] == out[k] by {
            if k < rest.len() {
                assert(places[k] == rest[k]);
                assert(t[rest[k]] == before[k]);
            }
        }
        assert forall|i: int| 0 <= i < items.len() && #[trigger] comes_first(items, i) implies
            places.contains(i) by {
            if i < n {
                assert(comes_first(t, i)) by {
                    assert forall|j: int| 0 <= j < i implies !json_equal(
                        (#[trigger] t[j]).1,
                        t[i].1,
                    ) by {
                        assert(t[j] == items[j]);
                    }
                }
                assert(rest.contains(i));
                let k = choose|k: int| 0 <= k < rest.len() && rest[k] == i;
                assert(places[k] == i);
            } else {
                let keys = before.map_values(|t: Item| t.1);
                if seen(keys, x.1) {
                    let k = choose|k: int|
                        0 <= k < keys.len() && json_equal(#[trigger] keys[k], x.1);
                    assert(before[k] == t[rest[k]]);
                    assert(items[rest[k]].1 == keys[k]);
                }
                assert(places[places.len() - 1] == n);
            }
        }
        places
    }
}

/// A unique cursor gives, of all items in the order of its direction, those
/// before which none with an equal primary key comes, in that order.
pub proof fn law_unique_cursor_keeps_the_first(items: Seq<Item>, dir: CursorDirection) -> (places: Seq<
    int,
>)
    requires
        dir.unique(),
    ensures
        ({
            let order = if dir is PrevUnique {
                items.reverse()
            } else {
                items
            };
            let out = directed(items, dir);
            &&& places.len() == out.len()
            &&& forall|k: int|
                0 <= k < places.len() ==> 0 <= #[trigger] places[k] < order.len()
                    && order[places[k]] == out[k]
            &&& forall|k: int, l: int|
                0 <= k < l < places.len() ==> #[trigger] places[k] < #[trigger] places[l]
            &&& forall|i: int|
                0 <= i < order.len() && #[trigger] comes_first(order, i) ==> places.contains(i)
        }),
{
    let order = if dir is PrevUnique {
        items.reverse()
    } else {
        items
    };
    lemma_kept_places(order)
}

} // verus!
