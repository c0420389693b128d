//! Thread identifiers in ascending order, and events in the order of their ends.

use std::collections::HashMap;

use vstd::prelude::*;

use crate::common::BlockEvent;

verus! {

/// Each element is less than every later one.
pub open spec fn ascending(s: Seq<u32>) -> bool {
    forall|i: int, j: int| 0 <= i < j < s.len() ==> s[i] < s[j]
}

/// The elements of a finite set in ascending order.
pub open spec fn ascending_keys(keys: Set<u32>) -> Seq<u32> {
    choose|s: Seq<u32>| ascending(s) && s.to_set() == keys
}

/// Two ascending sequences of the same elements are the same sequence.
proof fn lemma_ascending_is_unique(a: Seq<u32>, b: Seq<u32>)
    requires
        ascending(a),
        ascending(b),
        a.to_set() == b.to_set(),
    ensures
        a == b,
    decreases a.len(),
{
    if a.len() == 0 {
        if b.len() > 0 {
            assert(b.to_set().contains(b[0]));
        }
    } else {
        assert(a.to_set().contains(a[a.len() - 1]));
        assert(b.contains(a[a.len() - 1]));
        assert(b.to_set().contains(b[b.len() - 1]));
        assert(a.contains(b[b.len() - 1]));
        assert(a.last() == b.last());
        let a0 = a.drop_last();
        let b0 = b.drop_last();
        assert forall|x: u32| a0.to_set().contains(x) <==> b0.to_set().contains(x) by {
            if a0.to_set().contains(x) {
                let i = choose|i: int| 0 <= i < a0.len() && a0[i] == x;
                assert(a[i] == x);
                assert(b.to_set().contains(x));
                let j = choose|j: int| 0 <= j < b.len() && b[j] == x;
                assert(b0[j] == x);
            }
            if b0.to_set().contains(x) {
                let i = choose|i: int| 0 <= i < b0.len() && b0[i] == x;
                assert(b[i] == x);
                assert(a.to_set().contains(x));
                let j = choose|j: int| 0 <= j < a.len() && a[j] == x;
                assert(a0[j] == x);
            }
        }
        assert(a0.to_set() =~= b0.to_set());
        lemma_ascending_is_unique(a0, b0);
        assert(a =~= a0.push(a.last()));
        assert(b =~= b0.push(b.last()));
    }
}

/// An ascending sequence is the one that its elements have.
pub proof fn lemma_ascending_keys(s: Seq<u32>)
    requires
        ascending(s),
    ensures
        ascending_keys(s.to_set()) == s,
{
    lemma_ascending_is_unique(ascending_keys(s.to_set()), s);
}

/// A sequence with one more element, put where the order wants it.
spec fn with_element(s: Seq<u32>, element: u32) -> Seq<u32>
    decreases s.len(),
{
    if s.len() == 0 || s.last() < element {
        s.push(element)
    } else {
        with_element(s.drop_last(), element).push(s.last())
    }
}

proof fn lemma_with_element(s: Seq<u32>, element: u32)
    requires
        ascending(s),
        !s.contains(element),
    ensures
        ascending(with_element(s, element)),
        with_element(s, element).to_set() == s.to_set().insert(element),
    decreases s.len(),
{
    let longer = with_element(s, element);
    if s.len() == 0 || s.last() < element {
        assert forall|x: u32| longer.to_set().contains(x) <==> s.to_set().insert(element).contains(
            x,
        ) by {
            if s.contains(x) {
                let i = choose|i: int| 0 <= i < s.len() && s[i] == x;
                assert(longer[i] == x);
            }
            assert(longer[s.len() as int] == element);
        }
    } else {
        let fewer = s.drop_last();
        let inner = with_element(fewer, element);
        assert(s[s.len() - 1] != element);
        lemma_with_element(fewer, element);
        assert forall|x: u32| longer.to_set().contains(x) <==> s.to_set().insert(element).contains(
            x,
        ) by {
            if longer.contains(x) {
                let i = choose|i: int| 0 <= i < longer.len() && longer[i] == x;
                if i < inner.len() {
                    assert(inner[i] == x);
                    assert(inner.to_set().contains(x));
                    if x != element {
                        assert(fewer.contains(x));
                        let k = choose|k: int| 0 <= k < fewer.len() && fewer[k] == x;
                        assert(s[k] == x);
                    }
                } else {
                    assert(s[s.len() - 1] == x);
                }
            }
            if x == element || s.contains(x) {
                if x == s.last() {
                    assert(longer[longer.len() - 1] == x);
                } else {
                    if x != element {
                        let k = choose|k: int| 0 <= k < s.len() && s[k] == x;
                        assert(fewer[k] == x);
                        assert(fewer.contains(x));
                    }
                    assert(inner.to_set().contains(x));
                    let i = choose|i: int| 0 <= i < inner.len() && inner[i] == x;
                    assert(longer[i] == x);
                }
            }
        }
        assert forall|i: int, j: int| 0 <= i < j < longer.len() implies longer[i] < longer[j] by {
            if j == longer.len() - 1 {
                assert(inner.to_set().contains(inner[i]));
                if inner[i] != element {
                    assert(fewer.contains(inner[i]));
                    let k = choose|k: int| 0 <= k < fewer.len() && fewer[k] == inner[i];
                    assert(s[k] < s[s.len() - 1]);
                }
            }
        }
    }
    assert(longer.to_set() =~= s.to_set().insert(element));
}

/// The elements of a finite set can be put in ascending order.
pub proof fn lemma_keys_can_be_ordered(keys: Set<u32>)
    requires
        keys.finite(),
    ensures
        ascending(ascending_keys(keys)),
        ascending_keys(keys).to_set() == keys,
    decreases keys.len(),
{
    if keys.len() == 0 {
        let none = Seq::<u32>::empty();
        assert(keys =~= Set::empty());
        assert(none.to_set() =~= keys);
        assert(ascending(none));
    } else {
        let key = keys.choose();
        let fewer = keys.remove(key);
        lemma_keys_can_be_ordered(fewer);
        let s = ascending_keys(fewer);
        assert(!s.contains(key)) by {
            if s.contains(key) {
                assert(s.to_set().contains(key));
            }
        }
        lemma_with_element(s, key);
        assert(fewer.insert(key) =~= keys);
        let longer = with_element(s, key);
        assert(ascending(longer) && longer.to_set() == keys);
    }
}

/// Calls `<[u32]>::sort_unstable`: the elements stay the same, each as often as
/// before, and come to stand in non-descending order.
#[verifier::external_body]
fn sort_unstable(values: &mut Vec<u32>)
    ensures
        final(values)@.to_multiset() == old(values)@.to_multiset(),
        forall|i: int, j: int| 0 <= i < j < final(values)@.len() ==> final(values)@[i]
            <= final(values)@[j],
{
    values.sort_unstable();
}

/// The keys of a map in ascending order.
pub fn sorted_keys<V>(map: &HashMap<u32, V>) -> (keys: Vec<u32>)
    ensures
        ascending(keys@),
        keys@.to_set() == map@.dom(),
        keys@ == ascending_keys(map@.dom()),
{
    broadcast use vstd::std_specs::hash::group_hash_axioms;

    let mut keys: Vec<u32> = Vec::new();
    for key in iter: map.keys()
        invariant
            iter.seq().unref().to_set() == map@.dom(),
            iter.seq().no_duplicates(),
            keys@.len() == iter.index(),
            keys@ == iter.seq().unref().take(iter.index() as int),
            iter.index() == iter.seq().len() ==> keys@ == iter.seq().unref(),
    {
        keys.push(*key);
    }
    let ghost unsorted = keys@;
    assert(unsorted.no_duplicates());
    sort_unstable(&mut keys);
    proof {
        broadcast use vstd::seq_lib::group_to_multiset_ensures;

        unsorted.lemma_multiset_has_no_duplicates();
        keys@.lemma_multiset_has_no_duplicates_conv();
        assert forall|x: u32| keys@.to_set().contains(x) <==> unsorted.to_set().contains(x) by {
            assert(keys@.contains(x) <==> keys@.to_multiset().count(x) > 0);
            assert(unsorted.contains(x) <==> unsorted.to_multiset().count(x) > 0);
        }
        assert(keys@.to_set() =~= map@.dom());
        assert(ascending(keys@));
        lemma_ascending_keys(keys@);
    }
    keys
}

/// Events stand in the order in which their intervals ended.
pub open spec fn in_order_of_ends(events: Seq<BlockEvent>) -> bool {
    forall|i: int, j: int| 0 <= i < j < events.len() ==> events[i].t_end <= events[j].t_end
}

/// Calls `<[BlockEvent]>::sort_unstable_by_key` with the end of the interval as
/// the key: the events stay the same, each as often as before, and come to stand
/// in the order of their ends. Which of two with the same end comes first is
/// left open.
#[verifier::external_body]
pub(crate) fn sort_by_end(events: &mut Vec<BlockEvent>)
    ensures
        final(events)@.to_multiset() == old(events)@.to_multiset(),
        in_order_of_ends(final(events)@),
{
    events.sort_unstable_by_key(|event| event.t_end);
}

} // verus!
