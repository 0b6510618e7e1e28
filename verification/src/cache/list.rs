//! index-linked least-recently-used list with a free list of reusable slots

use vstd::prelude::*;

verus! {

/// sentinel link meaning "no slot"
pub const NO_SLOT: usize = usize::MAX;

/// one slot of the list: a linked value or a member of the free list
#[derive(Debug, PartialEq, Eq)]
pub enum Node<T> {
    Value(Value<T>),
    Empty { next: usize },
}

/// a stored value with its neighbours in recency order
#[derive(Debug, PartialEq, Eq)]
pub struct Value<T> {
    pub value: T,
    pub prev: usize,
    pub next: usize,
}

/// slots ordered from least to most recently used, with freed slots reused first
pub struct LruList<T> {
    capacity: usize,
    items: Vec<Node<T>>,
    least_recent: usize,
    most_recent: usize,
    free_first: usize,
    order: Ghost<Seq<usize>>,
    free: Ghost<Seq<usize>>,
}

/// the slot before position `k` of a linked sequence
pub open spec fn link_before(s: Seq<usize>, k: int) -> usize {
    if k <= 0 {
        NO_SLOT
    } else {
        s[k - 1]
    }
}

/// the slot after position `k` of a linked sequence
pub open spec fn link_after(s: Seq<usize>, k: int) -> usize {
    if k + 1 >= s.len() {
        NO_SLOT
    } else {
        s[k + 1]
    }
}

/// the first slot of a linked sequence
pub open spec fn first_slot(s: Seq<usize>) -> usize {
    if s.len() == 0 {
        NO_SLOT
    } else {
        s[0]
    }
}

/// the last slot of a linked sequence
pub open spec fn last_slot(s: Seq<usize>) -> usize {
    if s.len() == 0 {
        NO_SLOT
    } else {
        s[s.len() - 1]
    }
}


spec fn values_linked<T>(items: Seq<Node<T>>, order: Seq<usize>) -> bool {
    forall|k: int|
        #![trigger order[k]]
        0 <= k < order.len() ==> {
            let i = order[k] as int;
            &&& 0 <= i < items.len()
            &&& items[i] is Value
            &&& items[i]->Value_0.prev == link_before(order, k)
            &&& items[i]->Value_0.next == link_after(order, k)
        }
}

spec fn free_linked<T>(items: Seq<Node<T>>, free: Seq<usize>) -> bool {
    forall|k: int|
        #![trigger free[k]]
        0 <= k < free.len() ==> {
            let i = free[k] as int;
            &&& 0 <= i < items.len()
            &&& items[i] is Empty
            &&& items[i]->next == link_after(free, k)
        }
}

spec fn slots_covered<T>(items: Seq<Node<T>>, order: Seq<usize>, free: Seq<usize>) -> bool {
    forall|i: int|
        #![trigger items[i]]
        0 <= i < items.len() ==> {
            &&& items[i] is Value ==> order.contains(i as usize)
            &&& items[i] is Empty ==> free.contains(i as usize)
        }
}

/// every slot is either linked into the recency order or into the free list
spec fn linked<T>(items: Seq<Node<T>>, order: Seq<usize>, free: Seq<usize>) -> bool {
    &&& items.len() <= usize::MAX
    &&& order.no_duplicates()
    &&& free.no_duplicates()
    &&& values_linked(items, order)
    &&& free_linked(items, free)
    &&& slots_covered(items, order, free)
}

/// the slot sequence after a value is placed at `index` and linked as most recent
spec fn with_next<T>(items: Seq<Node<T>>, i: usize, next: usize) -> Seq<Node<T>> {
    items.update(
        i as int,
        Node::Value(Value { value: items[i as int]->Value_0.value, prev: items[i as int]->Value_0.prev, next }),
    )
}

spec fn with_prev<T>(items: Seq<Node<T>>, i: usize, prev: usize) -> Seq<Node<T>> {
    items.update(
        i as int,
        Node::Value(Value { value: items[i as int]->Value_0.value, prev, next: items[i as int]->Value_0.next }),
    )
}

proof fn lemma_linked_facts<T>(items: Seq<Node<T>>, order: Seq<usize>, free: Seq<usize>)
    requires
        linked(items, order, free),
    ensures
        forall|i: usize| #[trigger] order.contains(i) ==> !free.contains(i),
        forall|i: usize|
            #[trigger] order.contains(i) ==> (i as int) < items.len() && items[i as int] is Value,
        forall|i: usize|
            #[trigger] free.contains(i) ==> (i as int) < items.len() && items[i as int] is Empty,
{
    assert forall|i: usize| #[trigger] order.contains(i) implies (i as int) < items.len()
        && items[i as int] is Value by {
        let k = choose|k: int| 0 <= k < order.len() && order[k] == i;
        assert(order[k] == i);
    }
    assert forall|i: usize| #[trigger] free.contains(i) implies (i as int) < items.len()
        && items[i as int] is Empty by {
        let k = choose|k: int| 0 <= k < free.len() && free[k] == i;
        assert(free[k] == i);
    }
}

/// the slots after a value is placed at `index` and linked after the old most recent
spec fn placed<T>(items: Seq<Node<T>>, order: Seq<usize>, free: Seq<usize>, index: usize, value: T) -> Seq<Node<T>> {
    let node = Node::Value(Value { value, prev: last_slot(order), next: NO_SLOT });
    let items1 = if free.len() == 0 { items.push(node) } else { items.update(index as int, node) };
    if order.len() == 0 { items1 } else { with_next(items1, last_slot(order), index) }
}

spec fn remaining_free(free: Seq<usize>) -> Seq<usize> {
    if free.len() == 0 { free } else { free.drop_first() }
}

spec fn placement_ok<T>(items: Seq<Node<T>>, order: Seq<usize>, free: Seq<usize>, index: usize) -> bool {
    &&& linked(items, order, free)
    &&& free.len() == 0 ==> index as int == items.len() && items.len() < usize::MAX
    &&& free.len() > 0 ==> index == free[0]
}

proof fn lemma_placed_shape<T>(items: Seq<Node<T>>, order: Seq<usize>, free: Seq<usize>, index: usize, value: T)
    requires
        placement_ok(items, order, free, index),
    ensures
        !order.contains(index),
        placed(items, order, free, index, value).len() == (if free.len() == 0 { items.len() + 1 } else { items.len() + 0 }),
        placed(items, order, free, index, value)[index as int] == Node::Value(Value { value, prev: last_slot(order), next: NO_SLOT }),
        order.len() > 0 ==> placed(items, order, free, index, value)[last_slot(order) as int] == Node::Value(Value { value: items[last_slot(order) as int]->Value_0.value, prev: items[last_slot(order) as int]->Value_0.prev, next: index }),
        forall|i: int| 0 <= i < items.len() && i != index && (order.len() == 0 || i != last_slot(order)) ==> #[trigger] placed(items, order, free, index, value)[i] == items[i],
{
    lemma_linked_facts(items, order, free);
    if free.len() > 0 {
        assert(free.contains(index) && free[0] == index);
    }
    if order.len() > 0 {
        assert(order.contains(last_slot(order)) && order[order.len() - 1] == last_slot(order));
    }
}

proof fn lemma_placed_values<T>(items: Seq<Node<T>>, order: Seq<usize>, free: Seq<usize>, index: usize, value: T)
    requires
        placement_ok(items, order, free, index),
    ensures
        values_linked(placed(items, order, free, index, value), order.push(index)),
        order.push(index).no_duplicates(),
{
    lemma_linked_facts(items, order, free);
    lemma_placed_shape(items, order, free, index, value);
    let items2 = placed(items, order, free, index, value);
    let order2 = order.push(index);
    assert forall|k: int|
        #![trigger order2[k]]
        0 <= k < order2.len() implies {
        let i = order2[k] as int;
        &&& 0 <= i < items2.len()
        &&& items2[i] is Value
        &&& items2[i]->Value_0.prev == link_before(order2, k)
        &&& items2[i]->Value_0.next == link_after(order2, k)
    } by {
        if k < order.len() {
            assert(order[k] == order2[k]);
            assert(order.contains(order[k]));
            if k == order.len() - 1 {
                assert(order2[k] == last_slot(order));
            } else {
                assert(order[k] != order[order.len() - 1]);
            }
        }
    }
}

proof fn lemma_placed_free<T>(items: Seq<Node<T>>, order: Seq<usize>, free: Seq<usize>, index: usize, value: T)
    requires
        placement_ok(items, order, free, index),
    ensures
        free_linked(placed(items, order, free, index, value), remaining_free(free)),
        remaining_free(free).no_duplicates(),
{
    lemma_linked_facts(items, order, free);
    lemma_placed_shape(items, order, free, index, value);
    let items2 = placed(items, order, free, index, value);
    let free2 = remaining_free(free);
    assert forall|k: int|
        #![trigger free2[k]]
        0 <= k < free2.len() implies {
        let i = free2[k] as int;
        &&& 0 <= i < items2.len()
        &&& items2[i] is Empty
        &&& items2[i]->next == link_after(free2, k)
    } by {
        assert(free[k + 1] == free2[k]);
        assert(free.contains(free[k + 1]));
        assert(free[k + 1] != free[0]);
    }
}

proof fn lemma_placed_covered<T>(items: Seq<Node<T>>, order: Seq<usize>, free: Seq<usize>, index: usize, value: T)
    requires
        placement_ok(items, order, free, index),
    ensures
        slots_covered(placed(items, order, free, index, value), order.push(index), remaining_free(free)),
{
    lemma_linked_facts(items, order, free);
    lemma_placed_shape(items, order, free, index, value);
    let items2 = placed(items, order, free, index, value);
    let order2 = order.push(index);
    let free2 = remaining_free(free);
    assert forall|i: int|
        #![trigger items2[i]]
        0 <= i < items2.len() implies {
        &&& items2[i] is Value ==> order2.contains(i as usize)
        &&& items2[i] is Empty ==> free2.contains(i as usize)
    } by {
        if i == index as int {
            assert(order2[order.len() as int] == index);
        } else if order.len() > 0 && i == last_slot(order) as int {
            assert(order2[order.len() - 1] == i as usize);
        } else {
            assert(items2[i] == items[i]);
            if items[i] is Value {
                let k = choose|k: int| 0 <= k < order.len() && order[k] == i as usize;
                assert(order2[k] == i as usize);
            } else {
                let k = choose|k: int| 0 <= k < free.len() && free[k] == i as usize;
                assert(free[k] as int == i);
                assert(k != 0);
                assert(free2[k - 1] == i as usize);
            }
        }
    }
}

/// placing a value in a new or freed slot and linking it after the old most recent
#[verifier::spinoff_prover]
#[verifier::rlimit(40)]
proof fn lemma_link_most_recent<T>(
    items: Seq<Node<T>>,
    order: Seq<usize>,
    free: Seq<usize>,
    index: usize,
    value: T,
)
    requires
        placement_ok(items, order, free, index),
    ensures
        linked(placed(items, order, free, index, value), order.push(index), remaining_free(free)),
        !order.contains(index),
        placed(items, order, free, index, value).len() == (if free.len() == 0 { items.len() + 1 } else { items.len() + 0 }),
        placed(items, order, free, index, value)[index as int]->Value_0.value == value,
        forall|i: usize| #[trigger] order.contains(i) ==> placed(items, order, free, index, value)[i as int]->Value_0.value == items[i as int]->Value_0.value,
{
    lemma_linked_facts(items, order, free);
    lemma_placed_shape(items, order, free, index, value);
    lemma_placed_values(items, order, free, index, value);
    lemma_placed_free(items, order, free, index, value);
    lemma_placed_covered(items, order, free, index, value);
}

/// the slots after the entry at position `k` of the order is bypassed by its neighbours
spec fn unlink<T>(items: Seq<Node<T>>, order: Seq<usize>, k: int) -> Seq<Node<T>> {
    let prev = link_before(order, k);
    let next = link_after(order, k);
    let items1 = if next != NO_SLOT { with_prev(items, next, prev) } else { items };
    if prev != NO_SLOT { with_next(items1, prev, next) } else { items1 }
}

/// the slots after the entry at position `k` is unlinked and pushed on the free list
spec fn unlinked_and_freed<T>(items: Seq<Node<T>>, order: Seq<usize>, free: Seq<usize>, k: int) -> Seq<Node<T>> {
    unlink(items, order, k).update(order[k] as int, Node::Empty { next: first_slot(free) })
}

proof fn lemma_unlink_shape<T>(items: Seq<Node<T>>, order: Seq<usize>, free: Seq<usize>, k: int)
    requires
        linked(items, order, free),
        0 <= k < order.len(),
    ensures
        unlink(items, order, k).len() == items.len(),
        k > 0 ==> unlink(items, order, k)[order[k - 1] as int] == Node::Value(Value {
            value: items[order[k - 1] as int]->Value_0.value,
            prev: items[order[k - 1] as int]->Value_0.prev,
            next: link_after(order, k),
        }),
        k + 1 < order.len() ==> unlink(items, order, k)[order[k + 1] as int] == Node::Value(Value {
            value: items[order[k + 1] as int]->Value_0.value,
            prev: link_before(order, k),
            next: items[order[k + 1] as int]->Value_0.next,
        }),
        forall|i: int|
            0 <= i < items.len() && (k == 0 || i != order[k - 1] as int) && (k + 1 >= order.len() || i != order[k + 1] as int)
                ==> #[trigger] unlink(items, order, k)[i] == items[i],
{
    lemma_linked_facts(items, order, free);
    if k > 0 {
        assert(order.contains(order[k - 1]));
    }
    if k + 1 < order.len() {
        assert(order.contains(order[k + 1]));
        if k > 0 {
            assert(order[k - 1] != order[k + 1]);
        }
    }
}

proof fn lemma_removed_values<T>(items: Seq<Node<T>>, order: Seq<usize>, free: Seq<usize>, k: int)
    requires
        linked(items, order, free),
        0 <= k < order.len(),
    ensures
        values_linked(unlinked_and_freed(items, order, free, k), order.remove(k)),
        order.remove(k).no_duplicates(),
{
    lemma_linked_facts(items, order, free);
    lemma_unlink_shape(items, order, free, k);
    let items2 = unlinked_and_freed(items, order, free, k);
    let order2 = order.remove(k);
    let index = order[k];
    assert forall|p: int|
        #![trigger order2[p]]
        0 <= p < order2.len() implies {
        let i = order2[p] as int;
        &&& 0 <= i < items2.len()
        &&& items2[i] is Value
        &&& items2[i]->Value_0.prev == link_before(order2, p)
        &&& items2[i]->Value_0.next == link_after(order2, p)
    } by {
        let q = if p < k { p } else { p + 1 };
        assert(order2[p] == order[q]);
        assert(order.contains(order[q]));
        assert(order[q] != index);
        if q != k - 1 && q != k + 1 {
            if k > 0 {
                assert(order[q] != order[k - 1]);
            }
            if k + 1 < order.len() {
                assert(order[q] != order[k + 1]);
            }
        }
        if p > 0 {
            let r = if p - 1 < k { p - 1 } else { p };
            assert(order2[p - 1] == order[r]);
        }
        if p + 1 < order2.len() {
            let r = if p + 1 < k { p + 1 } else { p + 2 };
            assert(order2[p + 1] == order[r]);
        }
    }
    assert forall|a: int, b: int| 0 <= a < order2.len() && 0 <= b < order2.len() && a != b implies order2[a] != order2[b] by {
        let qa = if a < k { a } else { a + 1 };
        let qb = if b < k { b } else { b + 1 };
        assert(order2[a] == order[qa]);
        assert(order2[b] == order[qb]);
    }
}

proof fn lemma_removed_free<T>(items: Seq<Node<T>>, order: Seq<usize>, free: Seq<usize>, k: int)
    requires
        linked(items, order, free),
        0 <= k < order.len(),
    ensures
        free_linked(unlinked_and_freed(items, order, free, k), seq![order[k]] + free),
        (seq![order[k]] + free).no_duplicates(),
{
    lemma_linked_facts(items, order, free);
    lemma_unlink_shape(items, order, free, k);
    let items2 = unlinked_and_freed(items, order, free, k);
    let free2 = seq![order[k]] + free;
    let index = order[k];
    assert(order.contains(index));
    assert forall|p: int|
        #![trigger free2[p]]
        0 <= p < free2.len() implies {
        let i = free2[p] as int;
        &&& 0 <= i < items2.len()
        &&& items2[i] is Empty
        &&& items2[i]->next == link_after(free2, p)
    } by {
        if p > 0 {
            assert(free2[p] == free[p - 1]);
            assert(free.contains(free[p - 1]));
            if k > 0 {
                assert(order.contains(order[k - 1]));
            }
            if k + 1 < order.len() {
                assert(order.contains(order[k + 1]));
            }
        } else if free.len() > 0 {
            assert(free2[1] == free[0]);
        }
    }
    assert forall|a: int, b: int| 0 <= a < free2.len() && 0 <= b < free2.len() && a != b implies free2[a] != free2[b] by {
        if a > 0 {
            assert(free2[a] == free[a - 1]);
            assert(free.contains(free[a - 1]));
        }
        if b > 0 {
            assert(free2[b] == free[b - 1]);
            assert(free.contains(free[b - 1]));
        }
    }
}

proof fn lemma_removed_covered<T>(items: Seq<Node<T>>, order: Seq<usize>, free: Seq<usize>, k: int)
    requires
        linked(items, order, free),
        0 <= k < order.len(),
        items.len() <= usize::MAX,
    ensures
        slots_covered(unlinked_and_freed(items, order, free, k), order.remove(k), seq![order[k]] + free),
{
    lemma_linked_facts(items, order, free);
    lemma_unlink_shape(items, order, free, k);
    let items2 = unlinked_and_freed(items, order, free, k);
    let order2 = order.remove(k);
    let free2 = seq![order[k]] + free;
    let index = order[k];
    assert forall|i: int|
        #![trigger items2[i]]
        0 <= i < items2.len() implies {
        &&& items2[i] is Value ==> order2.contains(i as usize)
        &&& items2[i] is Empty ==> free2.contains(i as usize)
    } by {
        if i == index as int {
            assert(free2[0] == index);
        } else {
            assert(items[i] is Value <==> items2[i] is Value);
            if items[i] is Value {
                let q = choose|q: int| 0 <= q < order.len() && order[q] == i as usize;
                assert(q != k);
                let p = if q < k { q } else { q - 1 };
                assert(order2[p] == i as usize);
            } else {
                let q = choose|q: int| 0 <= q < free.len() && free[q] == i as usize;
                assert(free2[q + 1] == i as usize);
            }
        }
    }
}

/// unlinking the entry at position `k` and pushing its slot on the free list
#[verifier::spinoff_prover]
#[verifier::rlimit(40)]
proof fn lemma_remove_at<T>(items: Seq<Node<T>>, order: Seq<usize>, free: Seq<usize>, k: int)
    requires
        linked(items, order, free),
        0 <= k < order.len(),
        items.len() <= usize::MAX,
    ensures
        linked(unlinked_and_freed(items, order, free, k), order.remove(k), seq![order[k]] + free),
        unlinked_and_freed(items, order, free, k).len() == items.len(),
        forall|i: usize| #[trigger] order.contains(i) ==> unlinked_and_freed(items, order, free, k)[i as int] is Value
            ==> unlinked_and_freed(items, order, free, k)[i as int]->Value_0.value == items[i as int]->Value_0.value,
        forall|i: usize| i != order[k] && #[trigger] order.contains(i) ==> order.remove(k).contains(i),
{
    lemma_linked_facts(items, order, free);
    lemma_unlink_shape(items, order, free, k);
    lemma_removed_values(items, order, free, k);
    lemma_removed_free(items, order, free, k);
    lemma_removed_covered(items, order, free, k);
    assert forall|i: usize| i != order[k] && #[trigger] order.contains(i) implies order.remove(k).contains(i) by {
        let q = choose|q: int| 0 <= q < order.len() && order[q] == i;
        let p = if q < k { q } else { q - 1 };
        assert(order.remove(k)[p] == i);
    }
}

/// the slots after the entry at position `k` is moved to the most recent end, in the
/// order the links are rewritten
spec fn moved_to_back<T>(items: Seq<Node<T>>, order: Seq<usize>, k: int) -> Seq<Node<T>> {
    let index = order[k];
    let prev = link_before(order, k);
    let next = link_after(order, k);
    let most = last_slot(order);
    let items1 = items.update(
        index as int,
        Node::Value(Value { value: items[index as int]->Value_0.value, prev: most, next: NO_SLOT }),
    );
    let items2 = if prev != NO_SLOT { with_next(items1, prev, next) } else { items1 };
    let items3 = with_prev(items2, next, prev);
    with_next(items3, most, index)
}

/// moving an entry to the most recent end keeps the slots linked
#[verifier::spinoff_prover]
#[verifier::rlimit(40)]
proof fn lemma_move_to_back<T>(items: Seq<Node<T>>, order: Seq<usize>, free: Seq<usize>, k: int)
    requires
        linked(items, order, free),
        0 <= k < order.len() - 1,
    ensures
        linked(moved_to_back(items, order, k), order.remove(k).push(order[k]), free),
        moved_to_back(items, order, k).len() == items.len(),
        forall|i: usize| #[trigger] order.contains(i) ==> moved_to_back(items, order, k)[i as int]->Value_0.value == items[i as int]->Value_0.value,
{
    let index = order[k];
    let value = items[index as int]->Value_0.value;
    lemma_linked_facts(items, order, free);
    lemma_remove_at(items, order, free, k);
    lemma_unlink_shape(items, order, free, k);
    assert(order.contains(index));
    assert(order.contains(order[k + 1]));
    if k > 0 {
        assert(order.contains(order[k - 1]));
    }
    assert(order.contains(order[order.len() - 1]));
    assert(order.remove(k)[order.len() - 2] == order[order.len() - 1]);
    let freed = unlinked_and_freed(items, order, free, k);
    lemma_link_most_recent(freed, order.remove(k), seq![index] + free, index, value);
    assert(moved_to_back(items, order, k) =~= placed(freed, order.remove(k), seq![index] + free, index, value));
    assert(remaining_free(seq![index] + free) =~= free);
}

/// the elements of `s` whose decision in `keep` is true, in order
pub open spec fn select(s: Seq<usize>, keep: Seq<bool>) -> Seq<usize>
    decreases s.len(),
{
    if s.len() == 0 || keep.len() != s.len() {
        Seq::empty()
    } else {
        let rest = select(s.drop_last(), keep.drop_last());
        if keep.last() {
            rest.push(s.last())
        } else {
            rest
        }
    }
}

proof fn lemma_select_step(all: Seq<usize>, pos: int, keep: Seq<bool>, b: bool)
    requires
        0 <= pos < all.len(),
        keep.len() == pos,
    ensures
        select(all.subrange(0, pos + 1), keep.push(b)) == (if b {
            select(all.subrange(0, pos), keep).push(all[pos])
        } else {
            select(all.subrange(0, pos), keep)
        }),
{
    assert(all.subrange(0, pos + 1).drop_last() =~= all.subrange(0, pos));
    assert(keep.push(b).drop_last() =~= keep);
}

proof fn lemma_retain_step(kept: Seq<usize>, all: Seq<usize>, pos: int)
    requires
        0 <= pos < all.len(),
    ensures
        kept + all.subrange(pos, all.len() as int) == kept.push(all[pos]) + all.subrange(pos + 1, all.len() as int),
        (kept + all.subrange(pos, all.len() as int)).remove(kept.len() as int) == kept + all.subrange(pos + 1, all.len() as int),
        (kept + all.subrange(pos, all.len() as int))[kept.len() as int] == all[pos],
        pos + 1 < all.len() ==> (kept + all.subrange(pos, all.len() as int))[kept.len() as int + 1] == all[pos + 1],
{
    assert(kept + all.subrange(pos, all.len() as int) =~= kept.push(all[pos]) + all.subrange(pos + 1, all.len() as int));
    assert((kept + all.subrange(pos, all.len() as int)).remove(kept.len() as int) =~= kept + all.subrange(pos + 1, all.len() as int));
}

/// removing the slot an insert used gives back the recency order from before
/// the insert
pub proof fn law_remove_undoes_insert(recency: Seq<usize>, slot: usize)
    requires
        recency.no_duplicates(),
        !recency.contains(slot),
    ensures
        recency.push(slot).remove(recency.push(slot).index_of(slot)) == recency,
{
    let pushed = recency.push(slot);
    let k = pushed.index_of(slot);
    assert(pushed[recency.len() as int] == slot);
    assert(pushed.contains(slot));
    assert(pushed[k] == slot);
    if k < recency.len() {
        assert(recency[k] == slot);
        assert(recency.contains(slot));
    }
    assert(pushed.remove(k) =~= recency);
}

/// promoting the most recently used slot changes nothing
pub proof fn law_promote_most_recent(recency: Seq<usize>)
    requires
        recency.no_duplicates(),
        recency.len() > 0,
    ensures
        recency.remove(recency.index_of(recency.last())).push(recency.last()) == recency,
{
    let last = recency.last();
    let k = recency.index_of(last);
    assert(recency[recency.len() - 1] == last);
    assert(recency.contains(last));
    assert(recency[k] == last);
    if k < recency.len() - 1 {
        assert(recency[k] == recency[recency.len() - 1]);
    }
    assert(recency.remove(k).push(last) =~= recency);
}

impl<T> LruList<T> {
    /// slots holding values, least recently used first
    pub closed spec fn recency(&self) -> Seq<usize> {
        self.order@
    }

    /// freed slots in the order they will be reused
    pub closed spec fn free_slots(&self) -> Seq<usize> {
        self.free@
    }

    /// number of slots allocated so far
    pub closed spec fn slot_count(&self) -> nat {
        self.items@.len()
    }

    /// the most slots the list will allocate
    pub closed spec fn limit(&self) -> nat {
        self.capacity as nat
    }

    /// the value stored in a slot
    pub closed spec fn value_of(&self, index: usize) -> T {
        self.items@[index as int]->Value_0.value
    }

    /// the node a slot holds, as described by the recency order and the free list
    pub open spec fn expected_node(&self, index: usize) -> Node<T> {
        if self.recency().contains(index) {
            let k = self.recency().index_of(index);
            Node::Value(
                Value {
                    value: self.value_of(index),
                    prev: link_before(self.recency(), k),
                    next: link_after(self.recency(), k),
                },
            )
        } else {
            Node::Empty { next: link_after(self.free_slots(), self.free_slots().index_of(index)) }
        }
    }

    /// the links stored in the slots agree with the recency order and the free list
    pub closed spec fn wf(&self) -> bool {
        &&& self.items@.len() <= self.capacity
        &&& linked(self.items@, self.order@, self.free@)
        &&& self.least_recent == first_slot(self.order@)
        &&& self.most_recent == last_slot(self.order@)
        &&& self.free_first == first_slot(self.free@)
    }

    /// an empty list that will allocate at most `capacity` slots
    pub fn new(capacity: usize) -> (list: Self)
        ensures
            list.wf(),
            list.recency() == Seq::<usize>::empty(),
            list.free_slots() == Seq::<usize>::empty(),
            list.slot_count() == 0,
            list.limit() == capacity,
    {
        LruList {
            capacity,
            items: Vec::new(),
            least_recent: NO_SLOT,
            most_recent: NO_SLOT,
            free_first: NO_SLOT,
            order: Ghost(Seq::empty()),
            free: Ghost(Seq::empty()),
        }
    }

    /// the value stored in a used slot
    pub fn get(&self, index: usize) -> (value: &T)
        requires
            self.wf(),
            self.recency().contains(index),
        ensures
            *value == self.value_of(index),
    {
        proof {
            lemma_linked_facts(self.items@, self.order@, self.free@);
        }
        match &self.items[index] {
            Node::Value(value) => &value.value,
            Node::Empty { .. } => {
                vstd::pervasive::unreached()
            },
        }
    }

    /// slots in use are distinct and allocated
    pub proof fn lemma_recency(&self)
        requires
            self.wf(),
        ensures
            self.recency().no_duplicates(),
            forall|i: usize| #[trigger] self.recency().contains(i) ==> (i as int) < self.slot_count(),
            forall|i: usize| #[trigger] self.free_slots().contains(i) ==> !self.recency().contains(i),
            self.slot_count() <= self.limit(),
            self.limit() <= usize::MAX,
    {
        lemma_linked_facts(self.items@, self.order@, self.free@);
    }

    /// the used slots from least to most recently used
    pub fn slots_in_order(&self) -> (slots: Vec<usize>)
        requires
            self.wf(),
        ensures
            slots@ == self.recency(),
    {
        proof {
            lemma_linked_facts(self.items@, self.order@, self.free@);
        }
        let mut slots: Vec<usize> = Vec::new();
        let mut index = self.least_recent;
        while index != NO_SLOT
            invariant
                self.wf(),
                slots@.len() <= self.order@.len(),
                slots@ == self.order@.subrange(0, slots@.len() as int),
                index == (if slots@.len() < self.order@.len() {
                    self.order@[slots@.len() as int]
                } else {
                    NO_SLOT
                }),
            decreases self.order@.len() - slots@.len(),
        {
            let ghost k = slots@.len() as int;
            proof {
                lemma_linked_facts(self.items@, self.order@, self.free@);
                assert(self.order@.contains(index));
                assert(self.order@.index_of(index) == k) by {
                    let j = self.order@.index_of(index);
                    assert(self.order@[j] == index);
                    assert(self.order@.no_duplicates());
                }
            }
            let next = match self.node(index) {
                Node::Value(value) => value.next,
                Node::Empty { .. } => vstd::pervasive::unreached(),
            };
            slots.push(index);
            proof {
                assert(slots@ =~= self.order@.subrange(0, slots@.len() as int));
            }
            index = next;
        }
        proof {
            assert(slots@ =~= self.order@);
        }
        slots
    }

    /// the value in slot `index`, or `None` for a slot that holds none
    pub fn lookup(&self, index: usize) -> (value: Option<&T>)
        requires
            self.wf(),
        ensures
            self.recency().contains(index) ==> value == Some(&self.value_of(index)),
            !self.recency().contains(index) ==> value is None,
    {
        proof {
            lemma_linked_facts(self.items@, self.order@, self.free@);
        }
        if index >= self.items.len() {
            return None;
        }
        match &self.items[index] {
            Node::Value(value) => {
                proof {
                    if !self.order@.contains(index) {
                        let k = self.free@.index_of(index);
                        assert(slots_covered(self.items@, self.order@, self.free@));
                        assert(self.free@.contains(index));
                    }
                }
                Some(&value.value)
            },
            Node::Empty { .. } => None,
        }
    }

    /// puts `value` in the used slot `index` and hands back the value it held
    pub fn replace(&mut self, index: usize, value: T) -> (previous: T)
        requires
            old(self).wf(),
            old(self).recency().contains(index),
        ensures
            final(self).wf(),
            previous == old(self).value_of(index),
            final(self).recency() == old(self).recency(),
            final(self).free_slots() == old(self).free_slots(),
            final(self).slot_count() == old(self).slot_count(),
            final(self).limit() == old(self).limit(),
            final(self).value_of(index) == value,
            forall|i: usize|
                i != index && #[trigger] old(self).recency().contains(i) ==> final(self).value_of(i) == old(self).value_of(i),
    {
        proof {
            lemma_linked_facts(self.items@, self.order@, self.free@);
        }
        let (prev, next) = match &self.items[index] {
            Node::Value(node) => (node.prev, node.next),
            Node::Empty { .. } => vstd::pervasive::unreached(),
        };
        let mut node = Node::Value(Value { value, prev, next });
        std::mem::swap(&mut self.items[index], &mut node);
        proof {
            assert(self.items@ =~= old(self).items@.update(
                index as int,
                Node::Value(Value { value, prev, next }),
            ));
            let items = self.items@;
            let before = old(self).items@;
            assert forall|k: int| #![trigger self.order@[k]] 0 <= k < self.order@.len() implies {
                let i = self.order@[k] as int;
                &&& 0 <= i < items.len()
                &&& items[i] is Value
                &&& items[i]->Value_0.prev == link_before(self.order@, k)
                &&& items[i]->Value_0.next == link_after(self.order@, k)
            } by {
                assert(values_linked(before, self.order@));
                let i = self.order@[k] as int;
                assert(before[i] is Value);
            }
            assert forall|k: int| #![trigger self.free@[k]] 0 <= k < self.free@.len() implies {
                let i = self.free@[k] as int;
                &&& 0 <= i < items.len()
                &&& items[i] is Empty
                &&& items[i]->next == link_after(self.free@, k)
            } by {
                assert(free_linked(before, self.free@));
                assert(self.free@.contains(self.free@[k]));
            }
            assert forall|i: int| #![trigger items[i]] 0 <= i < items.len() implies {
                &&& items[i] is Value ==> self.order@.contains(i as usize)
                &&& items[i] is Empty ==> self.free@.contains(i as usize)
            } by {
                assert(slots_covered(before, self.order@, self.free@));
                assert(before[i] is Value || before[i] is Empty);
            }
        }
        match node {
            Node::Value(old_value) => old_value.value,
            Node::Empty { .. } => vstd::pervasive::unreached(),
        }
    }

    /// inserts `value` as the most recently used entry and returns its slot
    ///
    /// a freed slot is reused first; a new slot is allocated only below the
    /// capacity, otherwise the value is handed back
    #[verifier::spinoff_prover]
    #[verifier::rlimit(40)]
    pub fn insert(&mut self, value: T) -> (result: Result<(&T, usize), T>)
        requires
            old(self).wf(),
        ensures
            final(self).wf(),
            final(self).limit() == old(self).limit(),
            old(self).free_slots().len() == 0 && old(self).slot_count() == old(self).limit()
                ==> result == Err::<(&T, usize), T>(value) && *final(self) == *old(self),
            !(old(self).free_slots().len() == 0 && old(self).slot_count() == old(self).limit())
                ==> (result matches Ok((stored, index)) && {
                &&& *stored == value
                &&& index == (if old(self).free_slots().len() == 0 {
                    old(self).slot_count() as usize
                } else {
                    old(self).free_slots()[0]
                })
                &&& final(self).recency() == old(self).recency().push(index)
                &&& final(self).free_slots() == (if old(self).free_slots().len() == 0 {
                    old(self).free_slots()
                } else {
                    old(self).free_slots().drop_first()
                })
                &&& final(self).slot_count() == (if old(self).free_slots().len() == 0 {
                    old(self).slot_count() + 1
                } else {
                    old(self).slot_count()
                })
                &&& final(self).value_of(index) == value
                &&& forall|i: usize|
                    #[trigger] old(self).recency().contains(i) ==> final(self).value_of(i)
                        == old(self).value_of(i)
            }),
    {
        let ghost gvalue = value;
        proof {
            lemma_linked_facts(self.items@, self.order@, self.free@);
            if self.free@.len() > 0 {
                assert(self.free@.contains(self.free@[0]));
            }
            if self.order@.len() > 0 {
                assert(self.order@.contains(self.most_recent));
            }
        }
        let index = if self.free_first == NO_SLOT {
            if self.items.len() == self.capacity {
                return Err(value);
            }
            proof {
                lemma_link_most_recent(self.items@, self.order@, self.free@, self.items@.len() as usize, gvalue);
            }
            self.items.push(Node::Value(Value { value, prev: self.most_recent, next: NO_SLOT }));
            self.items.len() - 1
        } else {
            let index = self.free_first;
            proof {
                lemma_link_most_recent(self.items@, self.order@, self.free@, index, gvalue);
            }
            let next = match &self.items[index] {
                Node::Empty { next } => *next,
                Node::Value(_) => {
                    proof {
                        assert(self.free@[0] == index);
                        assert(false);
                    }
                    NO_SLOT
                },
            };
            self.free_first = next;
            self.items.set(index, Node::Value(Value { value, prev: self.most_recent, next: NO_SLOT }));
            proof {
                self.free@ = self.free@.drop_first();
            }
            index
        };
        let ghost mid = self.items@;
        let most = self.most_recent;
        if most < self.items.len() {
            assert(old(self).order@.contains(most));
            match &mut self.items[most] {
                Node::Value(node) => {
                    node.next = index;
                },
                Node::Empty { .. } => {
                    proof {
                        assert(false);
                    }
                },
            }
        }
        self.most_recent = index;
        if self.least_recent == NO_SLOT {
            self.least_recent = index;
        }
        proof {
            self.order@ = self.order@.push(index);
            if old(self).order@.len() > 0 {
                assert(self.items@ =~= with_next(mid, most, index));
            } else {
                assert(self.items@ =~= mid);
            }
            assert(self.items@ =~= placed(old(self).items@, old(self).order@, old(self).free@, index, gvalue));
        }
        let stored = match &self.items[index] {
            Node::Value(node) => &node.value,
            Node::Empty { .. } => {
                vstd::pervasive::unreached()
            },
        };
        Ok((stored, index))
    }

    /// unlinks the value in slot `index` and returns it; the slot is reused first
    ///
    /// a slot past the allocated ones holds nothing and gives `None`
    #[verifier::spinoff_prover]
    #[verifier::rlimit(40)]
    pub fn remove(&mut self, index: usize) -> (result: Option<T>)
        requires
            old(self).wf(),
            (index as int) < old(self).slot_count() ==> old(self).recency().contains(index),
        ensures
            final(self).wf(),
            final(self).limit() == old(self).limit(),
            final(self).slot_count() == old(self).slot_count(),
            !old(self).recency().contains(index) ==> result == None::<T> && *final(self) == *old(self),
            old(self).recency().contains(index) ==> {
                &&& result == Some(old(self).value_of(index))
                &&& final(self).recency() == old(self).recency().remove(old(self).recency().index_of(index))
                &&& final(self).free_slots() == seq![index] + old(self).free_slots()
                &&& forall|i: usize|
                    #[trigger] final(self).recency().contains(i) ==> old(self).recency().contains(i)
                        && final(self).value_of(i) == old(self).value_of(i)
            },
    {
        if index >= self.items.len() {
            proof {
                lemma_linked_facts(self.items@, self.order@, self.free@);
            }
            return None;
        }
        let ghost k = self.order@.index_of(index);
        proof {
            lemma_linked_facts(self.items@, self.order@, self.free@);
            assert(self.order@[k] == index);
            lemma_remove_at(self.items@, self.order@, self.free@, k);
            lemma_unlink_shape(self.items@, self.order@, self.free@, k);
            if k > 0 {
                assert(self.order@.contains(self.order@[k - 1]));
                assert(self.order@[k - 1] != index);
            }
            if k + 1 < self.order@.len() {
                assert(self.order@.contains(self.order@[k + 1]));
                assert(self.order@[k + 1] != index);
            }
        }
        let mut node = Node::Empty { next: self.free_first };
        std::mem::swap(&mut self.items[index], &mut node);
        let removed = match node {
            Node::Value(value) => value,
            Node::Empty { .. } => vstd::pervasive::unreached(),
        };
        let ghost after_take = self.items@;
        self.free_first = index;
        if self.least_recent == index {
            self.least_recent = removed.next;
        }
        if self.most_recent == index {
            self.most_recent = removed.prev;
        }
        if removed.next < self.items.len() {
            match &mut self.items[removed.next] {
                Node::Value(node) => {
                    node.prev = removed.prev;
                },
                Node::Empty { .. } => {},
            }
        }
        let ghost after_next = self.items@;
        if removed.prev < self.items.len() {
            match &mut self.items[removed.prev] {
                Node::Value(node) => {
                    node.next = removed.next;
                },
                Node::Empty { .. } => {},
            }
        }
        proof {
            let ghost order = self.order@;
            assert(self.items@ =~= unlinked_and_freed(old(self).items@, old(self).order@, old(self).free@, k));
            self.order@ = order.remove(k);
            self.free@ = seq![index] + self.free@;
            assert forall|i: usize|
                #[trigger] self.order@.contains(i) implies old(self).order@.contains(i) && self.items@[i as int]->Value_0.value == old(self).items@[i as int]->Value_0.value by {
                let p = choose|p: int| 0 <= p < self.order@.len() && self.order@[p] == i;
                let q = if p < k { p } else { p + 1 };
                assert(old(self).order@[q] == i);
            }
        }
        Some(removed.value)
    }

    /// marks the value in slot `index` as the most recently used
    #[verifier::spinoff_prover]
    #[verifier::rlimit(40)]
    pub fn promote(&mut self, index: usize)
        requires
            old(self).wf(),
            old(self).recency().contains(index),
        ensures
            final(self).wf(),
            final(self).limit() == old(self).limit(),
            final(self).slot_count() == old(self).slot_count(),
            final(self).free_slots() == old(self).free_slots(),
            final(self).recency() == old(self).recency().remove(old(self).recency().index_of(index)).push(index),
            forall|i: usize|
                #[trigger] old(self).recency().contains(i) ==> final(self).value_of(i) == old(self).value_of(i),
    {
        let ghost k = self.order@.index_of(index);
        let ghost value = self.items@[index as int]->Value_0.value;
        proof {
            lemma_linked_facts(self.items@, self.order@, self.free@);
            assert(self.order@[k] == index);
        }
        if index == self.most_recent {
            proof {
                assert(self.order@.remove(k).push(index) =~= self.order@);
            }
            return;
        }
        proof {
            lemma_move_to_back(self.items@, self.order@, self.free@, k);
            assert(self.order@.contains(self.order@[k + 1]));
            if k > 0 {
                assert(self.order@.contains(self.order@[k - 1]));
            }
            assert(self.order@.contains(self.order@[self.order@.len() - 1]));
        }
        let most = self.most_recent;
        let (node_next, node_prev) = match &mut self.items[index] {
            Node::Value(node) => {
                let next = node.next;
                let prev = node.prev;
                node.next = NO_SLOT;
                node.prev = most;
                (next, prev)
            },
            Node::Empty { .. } => vstd::pervasive::unreached(),
        };
        if node_prev < self.items.len() {
            match &mut self.items[node_prev] {
                Node::Value(node) => {
                    node.next = node_next;
                },
                Node::Empty { .. } => {},
            }
        }
        if node_next < self.items.len() {
            match &mut self.items[node_next] {
                Node::Value(node) => {
                    node.prev = node_prev;
                },
                Node::Empty { .. } => {},
            }
        }
        if most < self.items.len() {
            match &mut self.items[most] {
                Node::Value(node) => {
                    node.next = index;
                },
                Node::Empty { .. } => {},
            }
        }
        self.most_recent = index;
        if self.least_recent == index {
            self.least_recent = node_next;
        }
        proof {
            assert(self.items@ =~= moved_to_back(old(self).items@, old(self).order@, k));
            self.order@ = self.order@.remove(k).push(index);
        }
    }

    /// removes the least recently used value
    pub fn pop(&mut self) -> (result: Option<T>)
        requires
            old(self).wf(),
        ensures
            final(self).wf(),
            final(self).limit() == old(self).limit(),
            final(self).slot_count() == old(self).slot_count(),
            old(self).recency().len() == 0 ==> result == None::<T> && *final(self) == *old(self),
            old(self).recency().len() > 0 ==> {
                &&& result == Some(old(self).value_of(old(self).recency()[0]))
                &&& final(self).recency() == old(self).recency().drop_first()
                &&& final(self).free_slots() == seq![old(self).recency()[0]] + old(self).free_slots()
                &&& forall|i: usize|
                    #[trigger] final(self).recency().contains(i) ==> final(self).value_of(i) == old(self).value_of(i)
            },
    {
        match self.pop_with_index() {
            Some((value, _)) => Some(value),
            None => None,
        }
    }

    /// removes the least recently used value together with the slot it held
    pub fn pop_with_index(&mut self) -> (result: Option<(T, usize)>)
        requires
            old(self).wf(),
        ensures
            final(self).wf(),
            final(self).limit() == old(self).limit(),
            final(self).slot_count() == old(self).slot_count(),
            old(self).recency().len() == 0 ==> result == None::<(T, usize)> && *final(self) == *old(self),
            old(self).recency().len() > 0 ==> {
                &&& result == Some((old(self).value_of(old(self).recency()[0]), old(self).recency()[0]))
                &&& final(self).recency() == old(self).recency().drop_first()
                &&& final(self).free_slots() == seq![old(self).recency()[0]] + old(self).free_slots()
                &&& forall|i: usize|
                    #[trigger] final(self).recency().contains(i) ==> final(self).value_of(i) == old(self).value_of(i)
            },
    {
        let index = self.least_recent;
        proof {
            lemma_linked_facts(self.items@, self.order@, self.free@);
            if self.order@.len() > 0 {
                assert(self.order@.contains(self.order@[0]));
                assert(self.order@.index_of(index) == 0) by {
                    let j = self.order@.index_of(index);
                    assert(self.order@[j] == self.order@[0]);
                }
                assert(self.order@.remove(0) =~= self.order@.drop_first());
            } else {
                assert(!self.order@.contains(index));
            }
        }
        match self.remove(index) {
            Some(value) => Some((value, index)),
            None => None,
        }
    }

    /// keeps the values for which `filter` holds, visiting them from least to most
    /// recently used; removed slots go on the free list
    #[verifier::spinoff_prover]
    #[verifier::rlimit(40)]
    pub fn retain(&mut self, filter: impl Fn(usize, &T) -> bool)
        requires
            old(self).wf(),
            forall|i: usize, value: &T| filter.requires((i, value)),
        ensures
            final(self).wf(),
            final(self).limit() == old(self).limit(),
            final(self).slot_count() == old(self).slot_count(),
            exists|keep: Seq<bool>| {
                &&& keep.len() == old(self).recency().len()
                &&& final(self).recency() == select(old(self).recency(), keep)
                &&& forall|p: int|
                    #![trigger keep[p]]
                    0 <= p < keep.len() ==> filter.ensures(
                        (old(self).recency()[p], &old(self).value_of(old(self).recency()[p])),
                        keep[p],
                    )
            },
            forall|i: usize|
                #[trigger] final(self).recency().contains(i) ==> old(self).recency().contains(i)
                    && final(self).value_of(i) == old(self).value_of(i),
    {
        let ghost all = self.order@;
        let ghost mut pos: int = 0;
        let ghost mut keep: Seq<bool> = Seq::empty();
        let mut index = self.least_recent;
        proof {
            assert(select(all.subrange(0, 0), keep) =~= Seq::<usize>::empty());
            assert(all.subrange(0, 0) + all.subrange(0, all.len() as int) =~= all);
        }
        while index != NO_SLOT
            invariant
                self.wf(),
                self.limit() == old(self).limit(),
                self.slot_count() == old(self).slot_count(),
                all == old(self).order@,
                all.no_duplicates(),
                0 <= pos <= all.len(),
                keep.len() == pos,
                self.order@ == select(all.subrange(0, pos), keep) + all.subrange(pos, all.len() as int),
                index == (if pos < all.len() { all[pos] } else { NO_SLOT }),
                forall|p: int|
                    #![trigger keep[p]]
                    0 <= p < keep.len() ==> filter.ensures((all[p], &old(self).value_of(all[p])), keep[p]),
                forall|i: usize|
                    #[trigger] self.order@.contains(i) ==> all.contains(i) && self.value_of(i) == old(self).value_of(i),
                forall|i: usize, value: &T| filter.requires((i, value)),
            decreases all.len() - pos,
        {
            let ghost kept = select(all.subrange(0, pos), keep);
            proof {
                lemma_linked_facts(self.items@, self.order@, self.free@);
                lemma_retain_step(kept, all, pos);
                assert(self.order@.contains(index));
            }
            let next = match &self.items[index] {
                Node::Value(value) => value.next,
                Node::Empty { .. } => vstd::pervasive::unreached(),
            };
            let keep_value = filter(index, self.get(index));
            if !keep_value {
                proof {
                    assert(self.order@.index_of(index) == kept.len()) by {
                        let j = self.order@.index_of(index);
                        if j != kept.len() {
                            assert(self.order@[j] == self.order@[kept.len() as int]);
                        }
                    }
                }
                self.remove(index);
            }
            proof {
                lemma_select_step(all, pos, keep, keep_value);
                keep = keep.push(keep_value);
                pos = pos + 1;
            }
            index = next;
        }
        proof {
            assert(all.subrange(0, pos) =~= all);
            assert(all.subrange(pos, all.len() as int) =~= Seq::<usize>::empty());
            assert(self.order@ =~= select(all, keep));
            assert(keep.len() == old(self).recency().len());
            assert(forall|p: int|
                #![trigger keep[p]]
                0 <= p < keep.len() ==> filter.ensures(
                    (old(self).recency()[p], &old(self).value_of(old(self).recency()[p])),
                    keep[p],
                ));
        }
    }

    /// the most slots the list allocates
    pub fn capacity(&self) -> (capacity: usize)
        ensures
            capacity == self.limit(),
    {
        self.capacity
    }

    /// the number of slots allocated so far
    pub fn slots(&self) -> (slots: usize)
        ensures
            slots == self.slot_count(),
    {
        self.items.len()
    }

    /// the least recently used slot, or [`NO_SLOT`]
    pub fn least_recent(&self) -> (index: usize)
        requires
            self.wf(),
        ensures
            index == first_slot(self.recency()),
    {
        self.least_recent
    }

    /// the most recently used slot, or [`NO_SLOT`]
    pub fn most_recent(&self) -> (index: usize)
        requires
            self.wf(),
        ensures
            index == last_slot(self.recency()),
    {
        self.most_recent
    }

    /// the slot the next insertion reuses, or [`NO_SLOT`]
    pub fn free_first(&self) -> (index: usize)
        requires
            self.wf(),
        ensures
            index == first_slot(self.free_slots()),
    {
        self.free_first
    }

    /// the node stored in an allocated slot
    pub fn node(&self, index: usize) -> (node: &Node<T>)
        requires
            self.wf(),
            (index as int) < self.slot_count(),
        ensures
            *node == self.expected_node(index),
    {
        proof {
            lemma_linked_facts(self.items@, self.order@, self.free@);
            if self.order@.contains(index) {
                let k = self.order@.index_of(index);
                assert(self.order@[k] == index);
            } else {
                assert(self.items@[index as int] is Empty);
                let k = self.free@.index_of(index);
                assert(self.free@[k] == index);
            }
        }
        &self.items[index]
    }
}

} // verus!
