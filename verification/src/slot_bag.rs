//! The entries held by a sequence of slots, as a bag, and counts of control
//! bytes: the two quantities a table's bookkeeping keeps in step with.
use vstd::prelude::*;
use vstd::multiset::Multiset;

verus! {

broadcast use vstd::multiset::group_multiset_axioms;

/// Control byte of a slot that has never held an entry.
pub const EMPTY: u8 = 0xFF;

/// Control byte of a slot whose entry was removed.
pub const DELETED: u8 = 0xFE;

/// What one slot holds, as a bag of at most one entry.
pub open spec fn entry_bag<K: View, V>(slot: Option<(K, V)>) -> Multiset<(K::V, V)> {
    match slot {
        Some(e) => Multiset::singleton((e.0@, e.1)),
        None => Multiset::empty(),
    }
}

/// All entries held by a sequence of slots.
pub open spec fn entries_of<K: View, V>(slots: Seq<Option<(K, V)>>) -> Multiset<(K::V, V)>
    decreases slots.len(),
{
    if slots.len() == 0 {
        Multiset::empty()
    } else {
        entries_of(slots.drop_last()).add(entry_bag(slots.last()))
    }
}

/// How many bytes of `s` equal `b`.
pub open spec fn count_byte(s: Seq<u8>, b: u8) -> nat
    decreases s.len(),
{
    if s.len() == 0 {
        0
    } else {
        count_byte(s.drop_last(), b) + (if s.last() == b {
            1nat
        } else {
            0nat
        })
    }
}

/// No key occurs in two entries.
pub open spec fn keys_unique<A, B>(bag: Multiset<(A, B)>) -> bool {
    forall|k: A, v1: B, v2: B|
        #![trigger bag.count((k, v1)), bag.count((k, v2))]
        bag.count((k, v1)) > 0 && bag.count((k, v2)) > 0 ==> v1 == v2 && bag.count((k, v1)) == 1
}

/// Appending a slot adds its entry to the bag.
pub proof fn lemma_entries_push<K: View, V>(s: Seq<Option<(K, V)>>, x: Option<(K, V)>)
    ensures
        entries_of(s.push(x)) == entries_of(s).add(entry_bag(x)),
{
    assert(s.push(x).drop_last() =~= s);
}

/// Appending a byte adds one to its count.
pub proof fn lemma_count_push(s: Seq<u8>, x: u8, b: u8)
    ensures
        count_byte(s.push(x), b) == count_byte(s, b) + (if x == b {
            1nat
        } else {
            0nat
        }),
{
    assert(s.push(x).drop_last() =~= s);
}

/// Overwriting a slot swaps its entry in the bag for the new one.
pub proof fn lemma_entries_update<K: View, V>(s: Seq<Option<(K, V)>>, j: int, x: Option<(K, V)>)
    requires
        0 <= j < s.len(),
    ensures
        entries_of(s.update(j, x)).add(entry_bag(s[j])) =~= entries_of(s).add(entry_bag(x)),
    decreases s.len(),
{
    let u = s.update(j, x);
    let p = s.drop_last();
    assert(entries_of(s) == entries_of(p).add(entry_bag(s.last())));
    assert(entries_of(u) == entries_of(u.drop_last()).add(entry_bag(u.last())));
    if j == s.len() - 1 {
        assert(u.drop_last() =~= p);
        assert forall|e: (K::V, V)|
            #[trigger] entries_of(u).add(entry_bag(s[j])).count(e) == entries_of(s).add(
                entry_bag(x),
            ).count(e) by {
            assert(entries_of(u).count(e) == entries_of(p).count(e) + entry_bag(x).count(e));
        }
    } else {
        assert(u.drop_last() =~= p.update(j, x));
        lemma_entries_update(p, j, x);
        assert forall|e: (K::V, V)|
            #[trigger] entries_of(u).add(entry_bag(s[j])).count(e) == entries_of(s).add(
                entry_bag(x),
            ).count(e) by {
            assert(entries_of(p.update(j, x)).add(entry_bag(p[j])).count(e) == entries_of(p).add(
                entry_bag(x),
            ).count(e));
        }
    }
}

/// Overwriting a byte moves one from the old byte's count to the new one's.
pub proof fn lemma_count_update(s: Seq<u8>, j: int, x: u8, b: u8)
    requires
        0 <= j < s.len(),
    ensures
        count_byte(s.update(j, x), b) + (if s[j] == b {
            1nat
        } else {
            0nat
        }) == count_byte(s, b) + (if x == b {
            1nat
        } else {
            0nat
        }),
    decreases s.len(),
{
    let u = s.update(j, x);
    if j == s.len() - 1 {
        assert(u.drop_last() =~= s.drop_last());
    } else {
        assert(u.drop_last() =~= s.drop_last().update(j, x));
        lemma_count_update(s.drop_last(), j, x, b);
    }
}

/// A byte with a positive count occurs somewhere.
pub proof fn lemma_count_exists(s: Seq<u8>, b: u8)
    requires
        count_byte(s, b) > 0,
    ensures
        exists|j: int| 0 <= j < s.len() && s[j] == b,
    decreases s.len(),
{
    if s.last() != b {
        lemma_count_exists(s.drop_last(), b);
        let j = choose|j: int| 0 <= j < s.drop_last().len() && s.drop_last()[j] == b;
        assert(s[j] == b);
    }
}

/// Slots that hold an entry are not empty, so entries and empty slots
/// together number at most the slots.
pub proof fn lemma_entries_and_empties<K: View, V>(slots: Seq<Option<(K, V)>>, ctrl: Seq<u8>)
    requires
        slots.len() == ctrl.len(),
        forall|j: int| 0 <= j < slots.len() && #[trigger] slots[j] is Some ==> ctrl[j] != EMPTY,
    ensures
        entries_of(slots).len() + count_byte(ctrl, EMPTY) <= slots.len(),
    decreases slots.len(),
{
    if slots.len() > 0 {
        let p = slots.drop_last();
        let c = ctrl.drop_last();
        assert forall|j: int| 0 <= j < p.len() && #[trigger] p[j] is Some implies c[j] != EMPTY by {
            assert(slots[j] == p[j]);
        }
        lemma_entries_and_empties(p, c);
    }
}

/// The entries of a prefix of the slots are among the entries of all of them.
pub proof fn lemma_entries_prefix<K: View, V>(s: Seq<Option<(K, V)>>, i: int)
    requires
        0 <= i <= s.len(),
    ensures
        forall|e: (K::V, V)| #[trigger] entries_of(s.subrange(0, i)).count(e) <= entries_of(s).count(e),
        entries_of(s.subrange(0, i)).len() <= entries_of(s).len(),
    decreases s.len() - i,
{
    if i == s.len() {
        assert(s.subrange(0, i) =~= s);
    } else {
        lemma_entries_prefix(s, i + 1);
        lemma_entries_step(s, i);
        assert forall|e: (K::V, V)| #[trigger] entries_of(s.subrange(0, i)).count(e) <= entries_of(
            s,
        ).count(e) by {
            assert(entries_of(s.subrange(0, i + 1)).count(e) <= entries_of(s).count(e));
        }
    }
}

/// One more slot adds its entry to the entries of a prefix.
pub proof fn lemma_entries_step<K: View, V>(s: Seq<Option<(K, V)>>, i: int)
    requires
        0 <= i < s.len(),
    ensures
        entries_of(s.subrange(0, i + 1)) == entries_of(s.subrange(0, i)).add(entry_bag(s[i])),
{
    assert(s.subrange(0, i + 1).drop_last() =~= s.subrange(0, i));
}

/// An entry is in the bag exactly when some slot holds it.
pub proof fn lemma_entries_contains<K: View, V>(s: Seq<Option<(K, V)>>, k: K::V, v: V)
    ensures
        entries_of(s).count((k, v)) > 0 <==> exists|j: int|
            0 <= j < s.len() && #[trigger] s[j] is Some && (s[j]->0).0@ == k && (s[j]->0).1 == v,
    decreases s.len(),
{
    if s.len() > 0 {
        let p = s.drop_last();
        lemma_entries_contains(p, k, v);
        if entries_of(s).count((k, v)) > 0 {
            if entries_of(p).count((k, v)) == 0 {
                assert(s[s.len() - 1] is Some);
            } else {
                let j = choose|j: int|
                    0 <= j < p.len() && #[trigger] p[j] is Some && (p[j]->0).0@ == k && (p[j]->0).1
                        == v;
                assert(s[j] == p[j]);
            }
        }
        if exists|j: int|
            0 <= j < s.len() && #[trigger] s[j] is Some && (s[j]->0).0@ == k && (s[j]->0).1 == v {
            let j = choose|j: int|
                0 <= j < s.len() && #[trigger] s[j] is Some && (s[j]->0).0@ == k && (s[j]->0).1 == v;
            if j < s.len() - 1 {
                assert(p[j] == s[j]);
            }
        }
    }
}

} // verus!
