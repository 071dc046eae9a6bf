use vstd::prelude::*;
use vstd::multiset::Multiset;
use crate::group::{
    group_byte, lemma_and_le, lemma_double_pow2, lemma_match_byte, lemma_nonzero_mask,
    lemma_or_group_byte, lemma_pow2_gap, lemma_set_mask_bit, lemma_wrap_mask, lemma_zero_group_byte,
    lemma_zero_mask, mask_bit, repeat_byte, is_power_of_two, lemma_small_pow2, lemma_low_bits_tag, lemma_pow2_double_fits,
};
use crate::decimal::{decimal_text, decimal_value, is_digit_char, law_decimal_text, push_decimal};
use crate::hash_key::HashKey;
use crate::probe::{covered, dist, lemma_dist_slot, lemma_slot_dist, lemma_window, slot_at, wrap_index};
use crate::slot_bag::{
    count_byte, entries_of, entry_bag, keys_unique, lemma_count_exists, lemma_count_push,
    lemma_count_update, lemma_entries_and_empties, lemma_entries_contains, lemma_entries_prefix,
    lemma_entries_push, lemma_entries_step, lemma_entries_update, DELETED, EMPTY,
};

verus! {

broadcast use vstd::multiset::group_multiset_axioms;

/// The number of slots `with_capacity(capacity)` allocates for a positive
/// capacity: the smallest power of two that is at least `capacity` and at
/// least eight.
pub open spec fn buckets_for(buckets: nat, capacity: nat) -> bool {
    &&& buckets <= usize::MAX
    &&& is_power_of_two(buckets as usize)
    &&& buckets >= 8
    &&& buckets >= capacity
    &&& (buckets == 8 || buckets < 2 * capacity)
}

/// What a slot holds, with the key taken by its view.
pub open spec fn entry_view<K: View, V>(slot: Option<(K, V)>) -> Option<(K::V, V)> {
    match slot {
        Some(e) => Some((e.0@, e.1)),
        None => None,
    }
}

/// A hash table with open addressing over groups of eight control bytes.
///
/// Slot `j` holds an entry in `slots[j]`; `ctrl[j]` is `EMPTY`, `DELETED`, or
/// the seven-bit tag of the entry's hash. A key is looked up from its home
/// slot `hash & bucket_mask` onwards, one slot at a time, eight control bytes
/// at once.
pub struct HashMap<K, V> {
    bucket_mask: usize,
    ctrl: std::vec::Vec<u8>,
    slots: std::vec::Vec<Option<(K, V)>>,
    growth_left: usize,
    items: usize,
}

impl<K: HashKey, V> HashMap<K, V> {
    /// The number of slots.
    pub closed spec fn buckets(&self) -> nat {
        self.ctrl@.len()
    }

    /// Every entry held in the table, including entries hidden behind an
    /// earlier entry with the same key.
    pub closed spec fn entries(&self) -> Multiset<(K::V, V)> {
        entries_of(self.slots@)
    }

    /// Whether no key occurs in two entries.
    pub open spec fn unique_keys(&self) -> bool {
        keys_unique(self.entries())
    }

    /// How many more entries the table takes before it grows.
    pub closed spec fn growth_left(&self) -> nat {
        self.growth_left as nat
    }

    /// Whether the next `insert` first moves the entries to a table twice
    /// as large.
    pub open spec fn grows_on_insert(&self) -> bool {
        let slots = if self.buckets() == 0 {
            1
        } else {
            self.buckets()
        };
        self.entries().len() * 8 >= slots * 7 || self.entries().len() + 1 >= self.growth_left()
    }

    /// Whether inserting key `k` overwrites the value of the entry a lookup
    /// finds for it: every slot from `k`'s home up to that entry, and up to
    /// the end of the first group, holds an entry, so the search meets the
    /// entry before any free slot.
    pub closed spec fn replaces(&self, k: K::V) -> bool {
        let n = self.buckets() as int;
        let h = self.home(k);
        exists|j: int|
            #![trigger self.visible(j)]
            self.visible(j) && self.key_at(j) == k && forall|d: int|
                0 <= d < n && (d < 8 || d <= dist(h, j, n)) ==> (#[trigger] self.slots@[slot_at(
                    h,
                    d,
                    n,
                )]) is Some
    }

    /// Whether one of the first eight slots from `h` has control byte `c`.
    spec fn group_has(&self, h: int, c: u8) -> bool {
        exists|i: int| 0 <= i < 8 && #[trigger] self.ctrl@[slot_at(h, i, self.buckets() as int)] == c
    }

    /// The first of the first eight slots from `h` with control byte `c`, in
    /// steps from `h`.
    spec fn first_in_group(&self, h: int, c: u8) -> int {
        let n = self.buckets() as int;
        choose|i: int|
            0 <= i < 8 && #[trigger] self.ctrl@[slot_at(h, i, n)] == c && forall|i2: int|
                0 <= i2 < i ==> self.ctrl@[#[trigger] slot_at(h, i2, n)] != c
    }

    /// The first slot without an entry past the first eight slots from `h`,
    /// in steps from `h`.
    spec fn first_free_after_group(&self, h: int) -> int {
        let n = self.buckets() as int;
        choose|d: int|
            8 <= d < n && (#[trigger] self.slots@[slot_at(h, d, n)]) is None && forall|d2: int|
                8 <= d2 < d ==> (#[trigger] self.slots@[slot_at(h, d2, n)]) is Some
    }

    /// Where an insertion of `k` that overwrites nothing stores its entry, in
    /// steps from `k`'s home: the first empty slot among the first eight, else
    /// the first deleted one among them, else the first slot without an entry
    /// after them.
    pub closed spec fn insert_position(&self, k: K::V) -> int {
        let h = self.home(k);
        if self.group_has(h, EMPTY) {
            self.first_in_group(h, EMPTY)
        } else if self.group_has(h, DELETED) {
            self.first_in_group(h, DELETED)
        } else {
            self.first_free_after_group(h)
        }
    }

    /// How many steps from `k`'s home lies the entry a lookup finds for `k`.
    pub closed spec fn found_position(&self, k: K::V) -> int {
        dist(
            self.home(k),
            choose|j: int| self.visible(j) && self.key_at(j) == k,
            self.buckets() as int,
        )
    }

    /// The control bytes of the slots: `EMPTY`, `DELETED`, or the tag of the
    /// entry a slot holds.
    pub closed spec fn control(&self) -> Seq<u8> {
        self.ctrl@
    }

    /// What each slot holds: nothing, or an entry of a key and a value.
    pub closed spec fn stored(&self) -> Seq<Option<(K, V)>> {
        self.slots@
    }

    /// What each slot holds: nothing, or an entry as a key view and a value.
    pub closed spec fn slot_entries(&self) -> Seq<Option<(K::V, V)>> {
        self.slots@.map_values(|slot: Option<(K, V)>| entry_view(slot))
    }

    /// The slot where the search for key `k` starts.
    pub closed spec fn home_slot(&self, k: K::V) -> int {
        self.home(k)
    }

    /// The control byte that marks a slot holding key `k`.
    pub closed spec fn tag_of(&self, k: K::V) -> u8 {
        Self::key_tag(k)
    }

    /// The slot of the entry a lookup finds for `k`: of the entries for `k`,
    /// the first along the probe sequence from `k`'s home slot.
    pub closed spec fn found_slot(&self, k: K::V) -> int {
        choose|j: int| self.visible(j) && self.key_at(j) == k
    }

    /// The slot where an insertion of `k` that overwrites nothing stores its
    /// entry: `insert_position(k)` steps after `k`'s home slot.
    pub closed spec fn insert_slot(&self, k: K::V) -> int {
        slot_at(self.home(k), self.insert_position(k), self.buckets() as int)
    }

    /// Whether every slot is empty and the table has room for as many entries
    /// as it has slots.
    pub open spec fn fresh(&self) -> bool {
        &&& self.control() == Seq::new(self.buckets(), |j: int| EMPTY)
        &&& self.slot_entries() == Seq::new(self.buckets(), |j: int| None::<(K::V, V)>)
        &&& self.entries().len() == 0
        &&& self.growth_left() == self.buckets()
    }

    /// Whether `after` is this table once `insert` has stored `value` under a
    /// key with view `k` without growing: the value of the entry a lookup
    /// finds is overwritten in place when `replaces(k)`; otherwise the entry
    /// goes into `insert_slot(k)`, whose control byte becomes `k`'s tag, and
    /// the room left shrinks by one.
    pub open spec fn inserts_to(&self, after: &Self, k: K::V, v: V) -> bool {
        &&& after.buckets() == self.buckets()
        &&& if self.replaces(k) {
            &&& after.control() == self.control()
            &&& after.slot_entries() == self.slot_entries().update(self.found_slot(k), Some((k, v)))
            &&& after.growth_left() == self.growth_left()
        } else {
            &&& after.control() == self.control().update(self.insert_slot(k), self.tag_of(k))
            &&& after.slot_entries() == self.slot_entries().update(self.insert_slot(k), Some((k, v)))
            &&& after.growth_left() == self.growth_left() - 1
        }
    }

    /// Whether re-inserting the entries of this table's slots one by one, in
    /// slot order, as `insert` stores entries, into an empty table of twice as
    /// many slots (eight when there is no table) passes through the tables
    /// `steps`: `steps[0]` is the empty table and `steps[i + 1]` follows from
    /// `steps[i]` by the entry of slot `i`, if it holds one.
    pub open spec fn rebuilds_through(&self, steps: Seq<Self>) -> bool {
        let n = self.buckets() as int;
        &&& steps.len() == n + 1
        &&& steps[0].wf()
        &&& steps[0].fresh()
        &&& steps[0].buckets() == (if n == 0 {
            8
        } else {
            2 * n
        })
        &&& forall|i: int|
            0 <= i < n ==> #[trigger] Self::rebuild_step(steps[i], steps[i + 1], self.slot_entries()[i])
    }

    /// One step of a rebuild: a slot without an entry changes nothing, a slot
    /// with an entry inserts it.
    pub open spec fn rebuild_step(before: Self, after: Self, slot: Option<(K::V, V)>) -> bool {
        match slot {
            None => after == before,
            Some(e) => before.inserts_to(&after, e.0, e.1),
        }
    }

    /// The hash of a key, as the table uses it.
    spec fn spec_hash(k: K::V) -> usize {
        K::spec_hash(k) as usize
    }

    /// The slot where the search for key `k` starts.
    spec fn home(&self, k: K::V) -> int {
        (Self::spec_hash(k) & self.bucket_mask) as int
    }

    /// The control byte that marks a slot holding key `k`.
    spec fn key_tag(k: K::V) -> u8 {
        (Self::spec_hash(k) & 0x7F) as u8
    }

    /// Whether slot `j` holds an entry for key `k`.
    spec fn has_key(&self, j: int, k: K::V) -> bool {
        &&& 0 <= j < self.slots@.len()
        &&& self.slots@[j] is Some
        &&& (self.slots@[j]->0).0@ == k
    }

    /// The key held in slot `j`.
    spec fn key_at(&self, j: int) -> K::V {
        (self.slots@[j]->0).0@
    }

    /// Whether slot `j` holds the first entry for its key along that key's
    /// probe sequence: the one a lookup finds.
    spec fn visible(&self, j: int) -> bool {
        let n = self.buckets() as int;
        let h = self.home(self.key_at(j));
        &&& 0 <= j < n
        &&& self.slots@[j] is Some
        &&& forall|t: int| #[trigger]
            self.has_key(t, self.key_at(j)) ==> dist(h, j, n) <= dist(h, t, n)
    }

    /// Whether the entry for `k` in slot `j` can be found from its home:
    /// it lies within the first group, or no empty slot comes before it.
    spec fn reachable(&self, j: int, k: K::V) -> bool {
        let n = self.buckets() as int;
        let h = self.home(k);
        dist(h, j, n) < 8 || forall|e: int|
            0 <= e < dist(h, j, n) ==> self.ctrl@[#[trigger] slot_at(h, e, n)] != EMPTY
    }

    /// Slot `j` agrees with its control byte.
    spec fn slot_ok(&self, j: int) -> bool {
        match self.slots@[j] {
            None => self.ctrl@[j] == EMPTY || self.ctrl@[j] == DELETED,
            Some(e) => self.ctrl@[j] == Self::key_tag(e.0@) && self.reachable(j, e.0@),
        }
    }

    /// The table's invariant.
    pub closed spec fn wf(&self) -> bool {
        let n = self.ctrl@.len();
        &&& self.slots@.len() == n
        &&& n == 0 ==> self.bucket_mask == 0 && self.growth_left == 0
        &&& n > 0 ==> {
            &&& self.bucket_mask + 1 == n
            &&& is_power_of_two((self.bucket_mask + 1) as usize)
            &&& 8 <= n
            &&& n * 2 <= usize::MAX + 1
            &&& 1 <= self.growth_left <= count_byte(self.ctrl@, EMPTY)
        }
        &&& forall|j: int| 0 <= j < n ==> #[trigger] self.slot_ok(j)
        &&& self.items == entries_of(self.slots@).len()
    }
}

impl<K: HashKey, V> View for HashMap<K, V> {
    type V = Map<K::V, V>;

    /// Each key maps to the value of the entry a lookup finds for it.
    closed spec fn view(&self) -> Map<K::V, V> {
        Map::new(
            |k: K::V| exists|j: int| self.visible(j) && self.key_at(j) == k,
            |k: K::V| (self.slots@[choose|j: int| self.visible(j) && self.key_at(j) == k]->0).1,
        )
    }
}

impl<K: HashKey, V> HashMap<K, V> {
    /// An empty map that has not allocated a table yet.
    pub fn new() -> (m: Self)
        ensures
            m.wf(),
            m.buckets() == 0,
            m.growth_left() == 0,
            m.fresh(),
            m.control() == Seq::<u8>::empty(),
            m.slot_entries() == Seq::<Option<(K::V, V)>>::empty(),
            m.entries() == Multiset::<(K::V, V)>::empty(),
            m@ == Map::<K::V, V>::empty(),
    {
        let m = HashMap {
            bucket_mask: 0,
            ctrl: std::vec::Vec::new(),
            slots: std::vec::Vec::new(),
            growth_left: 0,
            items: 0,
        };
        assert(m@ =~= Map::<K::V, V>::empty());
        assert(m.control() =~= Seq::<u8>::empty());
        assert(m.slot_entries() =~= Seq::<Option<(K::V, V)>>::empty());
        assert(m.control() =~= Seq::new(0, |j: int| EMPTY));
        assert(m.slot_entries() =~= Seq::new(0, |j: int| None::<(K::V, V)>));
        assert(m.entries() == Multiset::<(K::V, V)>::empty());
        m
    }

    /// An empty map with room for `capacity` entries: no table for a zero
    /// capacity, else a table of the smallest power of two of slots that is
    /// at least `capacity` and at least eight, all of them empty. That power
    /// of two must fit in a `usize`.
    pub fn with_capacity(capacity: usize) -> (m: Self)
        requires
            capacity * 2 <= usize::MAX + 1,
        ensures
            m.wf(),
            capacity == 0 ==> m.buckets() == 0,
            capacity > 0 ==> buckets_for(m.buckets(), capacity as nat),
            m.growth_left() == m.buckets(),
            m.fresh(),
            m.control() == Seq::new(m.buckets(), |j: int| EMPTY),
            m.slot_entries() == Seq::new(m.buckets(), |j: int| None::<(K::V, V)>),
            m.entries() == Multiset::<(K::V, V)>::empty(),
            m@ == Map::<K::V, V>::empty(),
    {
        if capacity == 0 {
            return Self::new();
        }
        let mut buckets: usize = 1;
        proof {
            lemma_small_pow2();
        }
        while buckets < capacity
            invariant
                is_power_of_two(buckets),
                buckets == 1 || buckets < 2 * capacity,
                capacity * 2 <= usize::MAX + 1,
            decreases usize::MAX - buckets,
        {
            proof {
                lemma_double_pow2(buckets);
            }
            buckets = buckets * 2;
        }
        if buckets < 8 {
            buckets = 8;
        }
        let mut ctrl: std::vec::Vec<u8> = std::vec::Vec::with_capacity(buckets);
        let mut slots: std::vec::Vec<Option<(K, V)>> = std::vec::Vec::with_capacity(buckets);
        let mut i: usize = 0;
        while i < buckets
            invariant
                i <= buckets,
                ctrl@.len() == i,
                slots@.len() == i,
                forall|j: int| 0 <= j < i ==> ctrl@[j] == EMPTY,
                forall|j: int| 0 <= j < i ==> slots@[j] is None,
                count_byte(ctrl@, EMPTY) == i,
                entries_of(slots@) == Multiset::<(K::V, V)>::empty(),
            decreases buckets - i,
        {
            proof {
                lemma_count_push(ctrl@, EMPTY, EMPTY);
                lemma_entries_push(slots@, None);
            }
            ctrl.push(EMPTY);
            slots.push(None);
            i = i + 1;
        }
        proof {
            lemma_pow2_double_fits(buckets);
        }
        let m = HashMap { bucket_mask: buckets - 1, ctrl, slots, growth_left: buckets, items: 0 };
        assert forall|j: int| 0 <= j < buckets implies #[trigger] m.slot_ok(j) by {}
        assert(m@ =~= Map::<K::V, V>::empty());
        assert(m.control() =~= Seq::new(m.buckets(), |j: int| EMPTY));
        assert(m.slot_entries() =~= Seq::new(m.buckets(), |j: int| None::<(K::V, V)>));
        m
    }

    /// A tag is seven bits wide, so it is neither `EMPTY` nor `DELETED`.
    proof fn lemma_tag(k: K::V)
        ensures
            Self::key_tag(k) < 0x80,
            Self::key_tag(k) != EMPTY,
            Self::key_tag(k) != DELETED,
    {
        lemma_low_bits_tag(Self::spec_hash(k));
    }

    /// A key's home slot lies in the table.
    proof fn lemma_home(&self, k: K::V)
        requires
            self.wf(),
            self.buckets() > 0,
        ensures
            0 <= self.home(k) < self.buckets(),
    {
        lemma_and_le(Self::spec_hash(k), self.bucket_mask);
    }

    /// Every key held somewhere has an entry that a lookup finds.
    proof fn lemma_visible_exists(&self, j: int, k: K::V)
        requires
            self.wf(),
            self.has_key(j, k),
        ensures
            exists|t: int| self.visible(t) && self.key_at(t) == k,
        decreases dist(self.home(k), j, self.buckets() as int),
    {
        let n = self.buckets() as int;
        let h = self.home(k);
        self.lemma_home(k);
        if !self.visible(j) {
            let t = choose|t: int| self.has_key(t, k) && dist(h, t, n) < dist(h, j, n);
            self.lemma_visible_exists(t, k);
        } else {
            assert(self.visible(j) && self.key_at(j) == k);
        }
    }

    /// A key has at most one entry that a lookup finds.
    proof fn lemma_visible_unique(&self, a: int, b: int)
        requires
            self.wf(),
            self.visible(a),
            self.visible(b),
            self.key_at(a) == self.key_at(b),
        ensures
            a == b,
    {
        let n = self.buckets() as int;
        let h = self.home(self.key_at(a));
        self.lemma_home(self.key_at(a));
        assert(self.has_key(a, self.key_at(a)));
        assert(self.has_key(b, self.key_at(a)));
        lemma_dist_slot(h, a, n);
        lemma_dist_slot(h, b, n);
    }

    /// The view maps the key of a found entry to its value.
    proof fn lemma_view_visible(&self, j: int)
        requires
            self.wf(),
            self.visible(j),
        ensures
            self@.contains_key(self.key_at(j)),
            self@[self.key_at(j)] == (self.slots@[j]->0).1,
    {
        let k = self.key_at(j);
        assert(self.visible(j) && self.key_at(j) == k);
        let t = choose|t: int| self.visible(t) && self.key_at(t) == k;
        self.lemma_visible_unique(j, t);
    }

    /// A key whose entry an insertion overwrites is in the view.
    proof fn lemma_replaces_contains(&self, k: K::V)
        requires
            self.wf(),
            self.replaces(k),
        ensures
            self@.contains_key(k),
    {
        let j = choose|j: int|
            #![trigger self.visible(j)]
            self.visible(j) && self.key_at(j) == k && forall|d: int|
                0 <= d < self.buckets() && (d < 8 || d <= dist(self.home(k), j, self.buckets() as int))
                    ==> (#[trigger] self.slots@[slot_at(self.home(k), d, self.buckets() as int)]) is Some;
        self.lemma_view_visible(j);
    }

    /// A key that no slot holds is not in the view.
    proof fn lemma_view_absent(&self, k: K::V)
        requires
            self.wf(),
            forall|j: int| 0 <= j < self.buckets() ==> !self.has_key(j, k),
        ensures
            !self@.contains_key(k),
    {
        if self@.contains_key(k) {
            let j = choose|j: int| self.visible(j) && self.key_at(j) == k;
            assert(self.has_key(j, k));
        }
    }

    /// The probes before probe `s` of the search for `k` from `h` found
    /// neither `k` nor an empty slot.
    spec fn probed_clear(&self, h: int, s: int, k: K::V) -> bool {
        let n = self.buckets() as int;
        forall|d: int|
            0 <= d < covered(s) && d < n ==> !self.has_key(#[trigger] slot_at(h, d, n), k)
                && self.ctrl@[slot_at(h, d, n)] != EMPTY
    }

    /// The group read at a probe holds no entry for `k`.
    spec fn group_lacks_key(&self, probe: int, k: K::V) -> bool {
        let n = self.buckets() as int;
        forall|ii: u8| ii < 8 ==> !self.has_key(#[trigger] wrap_index(probe + ii, n), k)
    }

    /// An entry for `k` met in the group of probe `s`, after the slots that
    /// probe looked at before it, is the one a lookup finds.
    proof fn lemma_found_visible(&self, h: int, s: int, i: u8, probe: int, k: K::V)
        requires
            self.wf(),
            self.buckets() >= 8,
            h == self.home(k),
            0 <= h < self.buckets(),
            0 <= s < self.buckets(),
            i < 8,
            probe == slot_at(h, s, self.buckets() as int),
            self.probed_clear(h, s, k),
            forall|ii: u8|
                ii < i ==> !self.has_key(
                    #[trigger] wrap_index(probe + ii, self.buckets() as int),
                    k,
                ),
            self.has_key(wrap_index(probe + i, self.buckets() as int), k),
        ensures
            self.visible(wrap_index(probe + i, self.buckets() as int)),
    {
        let n = self.buckets() as int;
        let j = wrap_index(probe + i, n);
        let big_d = wrap_index(s + i, n);
        lemma_window(h, s, i as int, n);
        lemma_slot_dist(h, big_d, n);
        assert forall|t: int| #[trigger] self.has_key(t, self.key_at(j)) implies dist(h, j, n) <= dist(
            h,
            t,
            n,
        ) by {
            lemma_dist_slot(h, t, n);
            let dt = dist(h, t, n);
            if dt < big_d {
                if dt < covered(s) {
                    assert(!self.has_key(slot_at(h, dt, n), k));
                } else {
                    let ii = (dt - s) as u8;
                    lemma_window(h, s, ii as int, n);
                    assert(!self.has_key(wrap_index(probe + ii, n), k));
                }
            }
        }
    }

    /// Once a probe's group holds an empty slot and no entry for `k`, no slot
    /// holds `k`: an entry past that empty slot could not have been placed there.
    proof fn lemma_absent_past_empty(&self, h: int, s: int, i0: u8, probe: int, k: K::V)
        requires
            self.wf(),
            self.buckets() >= 8,
            h == self.home(k),
            0 <= h < self.buckets(),
            0 <= s < self.buckets(),
            i0 < 8,
            probe == slot_at(h, s, self.buckets() as int),
            self.probed_clear(h, s, k),
            self.group_lacks_key(probe, k),
            self.ctrl@[wrap_index(probe + i0, self.buckets() as int)] == EMPTY,
        ensures
            forall|j: int| 0 <= j < self.buckets() ==> !self.has_key(j, k),
    {
        let n = self.buckets() as int;
        assert forall|j: int| 0 <= j < n implies !self.has_key(j, k) by {
            if self.has_key(j, k) {
                lemma_dist_slot(h, j, n);
                let dj = dist(h, j, n);
                assert(self.slot_ok(j));
                if dj < covered(s) {
                    assert(!self.has_key(slot_at(h, dj, n), k));
                } else if dj < s + 8 {
                    let ii = (dj - s) as u8;
                    lemma_window(h, s, ii as int, n);
                    assert(!self.has_key(wrap_index(probe + ii, n), k));
                } else {
                    lemma_window(h, s, i0 as int, n);
                    let e0 = wrap_index(s + i0, n);
                    if s + i0 < n {
                        assert(self.ctrl@[slot_at(h, e0, n)] != EMPTY);
                    } else {
                        assert(self.ctrl@[slot_at(h, e0, n)] != EMPTY);
                    }
                }
            }
        }
    }

    /// A probe whose group holds neither `k` nor an empty slot moves the
    /// search one slot on, and there is still a slot left to look at.
    proof fn lemma_advance(&self, h: int, s: int, probe: int, k: K::V)
        requires
            self.wf(),
            self.buckets() >= 8,
            h == self.home(k),
            0 <= h < self.buckets(),
            0 <= s < self.buckets(),
            probe == slot_at(h, s, self.buckets() as int),
            self.probed_clear(h, s, k),
            self.group_lacks_key(probe, k),
            forall|ii: u8|
                ii < 8 ==> self.ctrl@[#[trigger] wrap_index(probe + ii, self.buckets() as int)]
                    != EMPTY,
        ensures
            s + 8 < self.buckets(),
            self.probed_clear(h, s + 1, k),
            wrap_index(probe + 1, self.buckets() as int) == slot_at(h, s + 1, self.buckets() as int),
    {
        let n = self.buckets() as int;
        assert forall|d: int| 0 <= d < covered(s) && d < n implies self.ctrl@[#[trigger] slot_at(
            h,
            d,
            n,
        )] != EMPTY by {}
        self.lemma_room(h, s, probe);
        assert forall|d: int| 0 <= d < covered(s + 1) && d < n implies !self.has_key(
            #[trigger] slot_at(h, d, n),
            k,
        ) && self.ctrl@[slot_at(h, d, n)] != EMPTY by {
            if d >= covered(s) {
                let ii = (d - s) as u8;
                lemma_window(h, s, ii as int, n);
                assert(!self.has_key(wrap_index(probe + ii, n), k));
                assert(self.ctrl@[wrap_index(probe + ii, n)] != EMPTY);
            }
        }
    }

    /// The probes before probe `s` of an insertion of `k` from `h` found full
    /// groups without `k`.
    spec fn probed_full(&self, h: int, s: int, k: K::V) -> bool {
        let n = self.buckets() as int;
        forall|d: int|
            0 <= d < covered(s) && d < n ==> (#[trigger] self.slots@[slot_at(h, d, n)]) is Some
                && !self.has_key(slot_at(h, d, n), k)
    }

    proof fn lemma_full_clear(&self, h: int, s: int, k: K::V)
        requires
            self.wf(),
            self.buckets() >= 8,
            0 <= h < self.buckets(),
            self.probed_full(h, s, k),
        ensures
            self.probed_clear(h, s, k),
    {
        let n = self.buckets() as int;
        assert forall|d: int| 0 <= d < covered(s) && d < n implies !self.has_key(
            #[trigger] slot_at(h, d, n),
            k,
        ) && self.ctrl@[slot_at(h, d, n)] != EMPTY by {
            lemma_slot_dist(h, d, n);
            assert(self.slots@[slot_at(h, d, n)] is Some);
            assert(self.slot_ok(slot_at(h, d, n)));
            Self::lemma_tag(self.key_at(slot_at(h, d, n)));
        }
    }

    /// A search that has only met non-empty slots has not gone around the table.
    proof fn lemma_room(&self, h: int, s: int, probe: int)
        requires
            self.wf(),
            self.buckets() >= 8,
            0 <= h < self.buckets(),
            0 <= s < self.buckets(),
            probe == slot_at(h, s, self.buckets() as int),
            forall|d: int|
                0 <= d < covered(s) && d < self.buckets() ==> self.ctrl@[#[trigger] slot_at(
                    h,
                    d,
                    self.buckets() as int,
                )] != EMPTY,
            forall|ii: u8|
                ii < 8 ==> self.ctrl@[#[trigger] wrap_index(probe + ii, self.buckets() as int)]
                    != EMPTY,
        ensures
            s + 8 < self.buckets(),
    {
        let n = self.buckets() as int;
        lemma_count_exists(self.ctrl@, EMPTY);
        let e = choose|e: int| 0 <= e < self.ctrl@.len() && self.ctrl@[e] == EMPTY;
        lemma_dist_slot(h, e, n);
        let de = dist(h, e, n);
        if de < covered(s) {
            assert(self.ctrl@[slot_at(h, de, n)] != EMPTY);
        } else if de < s + 8 {
            let ii = (de - s) as u8;
            lemma_window(h, s, ii as int, n);
            assert(self.ctrl@[wrap_index(probe + ii, n)] != EMPTY);
        }
    }

    /// A free slot met by an insertion of `k` is where `k`'s new entry can be
    /// found from, and the insertion does not overwrite an entry.
    proof fn lemma_place_ok(&self, h: int, s: int, i: u8, probe: int, k: K::V)
        requires
            self.wf(),
            self.buckets() >= 8,
            h == self.home(k),
            0 <= h < self.buckets(),
            0 <= s < self.buckets(),
            i < 8,
            probe == slot_at(h, s, self.buckets() as int),
            self.probed_full(h, s, k),
            self.slots@[wrap_index(probe + i, self.buckets() as int)] is None,
        ensures
            self.reachable(wrap_index(probe + i, self.buckets() as int), k),
            !self.replaces(k),
    {
        let n = self.buckets() as int;
        let j = wrap_index(probe + i, n);
        let big_d = wrap_index(s + i, n);
        lemma_window(h, s, i as int, n);
        lemma_slot_dist(h, big_d, n);
        if s + i >= n {
            assert(self.slots@[slot_at(h, big_d, n)] is Some);
        }
        if big_d >= 8 {
            assert forall|e: int| 0 <= e < big_d implies self.ctrl@[#[trigger] slot_at(h, e, n)]
                != EMPTY by {
                lemma_slot_dist(h, e, n);
                assert(self.slots@[slot_at(h, e, n)] is Some);
                assert(self.slot_ok(slot_at(h, e, n)));
                Self::lemma_tag(self.key_at(slot_at(h, e, n)));
            }
        }
        if self.replaces(k) {
            let t = choose|t: int|
                #![trigger self.visible(t)]
                self.visible(t) && self.key_at(t) == k && forall|d: int|
                    0 <= d < n && (d < 8 || d <= dist(h, t, n)) ==> (
                    #[trigger] self.slots@[slot_at(h, d, n)]) is Some;
            lemma_dist_slot(h, t, n);
            let dt = dist(h, t, n);
            if dt < covered(s) {
                assert(!self.has_key(slot_at(h, dt, n), k));
            }
            assert(self.slots@[slot_at(h, big_d, n)] is Some);
        }
    }

    /// The slot an insertion takes is the one `insert_position` names.
    proof fn lemma_place_position(&self, h: int, s: int, i: u8, probe: int, k: K::V, c: u8)
        requires
            self.wf(),
            self.buckets() >= 8,
            h == self.home(k),
            0 <= h < self.buckets(),
            0 <= s < self.buckets(),
            i < 8,
            probe == slot_at(h, s, self.buckets() as int),
            self.probed_full(h, s, k),
            c == EMPTY || c == DELETED,
            self.ctrl@[wrap_index(probe + i, self.buckets() as int)] == c,
            forall|ii: u8|
                ii < i ==> self.ctrl@[#[trigger] wrap_index(probe + ii, self.buckets() as int)] != c,
            c == DELETED ==> forall|ii: u8|
                ii < 8 ==> self.ctrl@[#[trigger] wrap_index(probe + ii, self.buckets() as int)]
                    != EMPTY,
        ensures
            wrap_index(s + i, self.buckets() as int) == self.insert_position(k),
    {
        let n = self.buckets() as int;
        let big_p = wrap_index(s + i, n);
        lemma_window(h, s, i as int, n);
        lemma_slot_dist(h, big_p, n);
        assert(self.slot_ok(slot_at(h, big_p, n)));
        if self.slots@[slot_at(h, big_p, n)] is Some {
            Self::lemma_tag(self.key_at(slot_at(h, big_p, n)));
        }
        if s == 0 {
            assert forall|i2: int| 0 <= i2 < i implies self.ctrl@[#[trigger] slot_at(h, i2, n)]
                != c by {
                lemma_window(h, 0, i2, n);
                assert(self.ctrl@[wrap_index(probe + (i2 as u8), n)] != c);
            }
            if c == DELETED {
                assert forall|i2: int| 0 <= i2 < 8 implies #[trigger] self.ctrl@[slot_at(h, i2, n)]
                    != EMPTY by {
                    lemma_window(h, 0, i2, n);
                    assert(self.ctrl@[wrap_index(probe + (i2 as u8), n)] != EMPTY);
                }
            }
            assert(self.group_has(h, c));
            let x = self.first_in_group(h, c);
            assert(0 <= x < 8 && self.ctrl@[slot_at(h, x, n)] == c);
            if x < i {
                assert(self.ctrl@[slot_at(h, x, n)] != c);
            }
            if x > i {
                assert(self.ctrl@[slot_at(h, i as int, n)] != c);
            }
        } else {
            assert forall|d: int| 0 <= d < covered(s) && d < n implies self.ctrl@[#[trigger] slot_at(
                h,
                d,
                n,
            )] != EMPTY && self.ctrl@[slot_at(h, d, n)] != DELETED by {
                lemma_slot_dist(h, d, n);
                assert(self.slots@[slot_at(h, d, n)] is Some);
                assert(self.slot_ok(slot_at(h, d, n)));
                Self::lemma_tag(self.key_at(slot_at(h, d, n)));
            }
            if s + i >= n {
                assert(self.slots@[slot_at(h, big_p, n)] is Some);
            }
            if i < 7 {
                assert(self.slots@[slot_at(h, big_p, n)] is Some);
            }
            assert(!self.group_has(h, EMPTY));
            assert(!self.group_has(h, DELETED));
            assert(self.slots@[slot_at(h, big_p, n)] is None);
            let x = self.first_free_after_group(h);
            assert(8 <= big_p < n && (self.slots@[slot_at(h, big_p, n)]) is None && forall|d2: int|
                8 <= d2 < big_p ==> (#[trigger] self.slots@[slot_at(h, d2, n)]) is Some);
            assert(8 <= x < n && (self.slots@[slot_at(h, x, n)]) is None);
            if x < big_p {
                assert(self.slots@[slot_at(h, x, n)] is Some);
            }
            if x > big_p {
                assert(self.slots@[slot_at(h, big_p, n)] is Some);
            }
        }
    }

    /// An entry for `k` met in a full group, after full groups before it,
    /// is the one a lookup finds, and the insertion overwrites it.
    proof fn lemma_replace_ok(&self, h: int, s: int, i: u8, probe: int, k: K::V)
        requires
            self.wf(),
            self.buckets() >= 8,
            h == self.home(k),
            0 <= h < self.buckets(),
            0 <= s < self.buckets(),
            i < 8,
            probe == slot_at(h, s, self.buckets() as int),
            self.probed_full(h, s, k),
            forall|ii: u8|
                ii < 8 ==> (#[trigger] self.slots@[wrap_index(probe + ii, self.buckets() as int)]) is Some,
            forall|ii: u8|
                ii < i ==> !self.has_key(
                    #[trigger] wrap_index(probe + ii, self.buckets() as int),
                    k,
                ),
            self.has_key(wrap_index(probe + i, self.buckets() as int), k),
        ensures
            self.visible(wrap_index(probe + i, self.buckets() as int)),
            self.replaces(k),
    {
        let n = self.buckets() as int;
        let j = wrap_index(probe + i, n);
        self.lemma_full_clear(h, s, k);
        self.lemma_found_visible(h, s, i, probe, k);
        assert forall|ii: u8| ii < 8 implies self.ctrl@[#[trigger] wrap_index(probe + ii, n)]
            != EMPTY by {
            lemma_window(h, s, ii as int, n);
            assert(self.slots@[wrap_index(probe + ii, n)] is Some);
            assert(self.slot_ok(wrap_index(probe + ii, n)));
            Self::lemma_tag(self.key_at(wrap_index(probe + ii, n)));
        }
        self.lemma_room(h, s, probe);
        lemma_window(h, s, i as int, n);
        lemma_slot_dist(h, s + i, n);
        assert forall|d: int| 0 <= d < n && (d < 8 || d <= dist(h, j, n)) implies (
        #[trigger] self.slots@[slot_at(h, d, n)]) is Some by {
            if d >= covered(s) {
                let ii = (d - s) as u8;
                lemma_window(h, s, ii as int, n);
                assert(self.slots@[wrap_index(probe + ii, n)] is Some);
            }
        }
        assert(self.visible(j));
    }

    /// A full group without `k` moves an insertion one slot on.
    proof fn lemma_advance_full(&self, h: int, s: int, probe: int, k: K::V)
        requires
            self.wf(),
            self.buckets() >= 8,
            h == self.home(k),
            0 <= h < self.buckets(),
            0 <= s < self.buckets(),
            probe == slot_at(h, s, self.buckets() as int),
            self.probed_full(h, s, k),
            self.group_lacks_key(probe, k),
            forall|ii: u8|
                ii < 8 ==> (#[trigger] self.slots@[wrap_index(probe + ii, self.buckets() as int)]) is Some,
        ensures
            s + 8 < self.buckets(),
            self.probed_full(h, s + 1, k),
            wrap_index(probe + 1, self.buckets() as int) == slot_at(h, s + 1, self.buckets() as int),
    {
        let n = self.buckets() as int;
        self.lemma_full_clear(h, s, k);
        assert forall|ii: u8| ii < 8 implies self.ctrl@[#[trigger] wrap_index(probe + ii, n)]
            != EMPTY by {
            lemma_window(h, s, ii as int, n);
            assert(self.slots@[wrap_index(probe + ii, n)] is Some);
            assert(self.slot_ok(wrap_index(probe + ii, n)));
            Self::lemma_tag(self.key_at(wrap_index(probe + ii, n)));
        }
        self.lemma_room(h, s, probe);
        assert forall|d: int| 0 <= d < covered(s + 1) && d < n implies (
        #[trigger] self.slots@[slot_at(h, d, n)]) is Some && !self.has_key(slot_at(h, d, n), k) by {
            if d >= covered(s) {
                let ii = (d - s) as u8;
                lemma_window(h, s, ii as int, n);
                assert(!self.has_key(wrap_index(probe + ii, n), k));
                assert(self.slots@[wrap_index(probe + ii, n)] is Some);
            }
        }
    }

    /// Changing one slot whose entry, before and after, is for `k` or absent
    /// leaves what a lookup finds for every other key as it was.
    proof fn lemma_view_other_keys(pre: &Self, post: &Self, p: int, k: K::V)
        requires
            pre.wf(),
            post.wf(),
            post.bucket_mask == pre.bucket_mask,
            post.buckets() == pre.buckets(),
            0 <= p < pre.buckets(),
            pre.slots@[p] is Some ==> (pre.slots@[p]->0).0@ == k,
            post.slots@[p] is Some ==> (post.slots@[p]->0).0@ == k,
            forall|x: int| 0 <= x < pre.buckets() && x != p ==> post.slots@[x] == pre.slots@[x],
        ensures
            post@.remove(k) == pre@.remove(k),
    {
        assert forall|k2: K::V| k2 != k implies #[trigger] post@.contains_key(k2) == pre@.contains_key(k2) && (
        post@.contains_key(k2) ==> post@[k2] == pre@[k2]) by {
            if post@.contains_key(k2) {
                let a = choose|a: int| post.visible(a) && post.key_at(a) == k2;
                post.lemma_view_visible(a);
                assert(a != p);
                assert(pre.key_at(a) == post.key_at(a));
                assert forall|x: int| #[trigger] pre.has_key(x, k2) implies post.has_key(x, k2) by {
                    assert(x != p);
                }
                assert(pre.visible(a));
                pre.lemma_view_visible(a);
            }
            if pre@.contains_key(k2) {
                let a = choose|a: int| pre.visible(a) && pre.key_at(a) == k2;
                pre.lemma_view_visible(a);
                assert(a != p);
                assert(pre.key_at(a) == post.key_at(a));
                assert forall|x: int| #[trigger] post.has_key(x, k2) implies pre.has_key(x, k2) by {
                    assert(x != p);
                }
                assert(post.visible(a));
                post.lemma_view_visible(a);
            }
        }
        assert forall|k2: K::V| #[trigger] post@.remove(k).contains_key(k2) == pre@.remove(k).contains_key(k2) by {
            if k2 != k {
                assert(post@.contains_key(k2) == pre@.contains_key(k2));
            }
        }
        assert forall|k2: K::V| #[trigger] post@.remove(k).contains_key(k2) implies post@.remove(k)[k2] == pre@.remove(k)[k2] by {
            assert(post@[k2] == pre@[k2]);
        }
        assert(post@.remove(k) =~= pre@.remove(k));
    }

    /// Storing a new entry for `k` in a free slot leaves the view of every
    /// other key as it was; `k` is then in the view, with the new value or
    /// the value it had.
    proof fn lemma_view_place(pre: &Self, post: &Self, p: int, k: K::V, v: V)
        requires
            pre.wf(),
            post.wf(),
            post.bucket_mask == pre.bucket_mask,
            post.buckets() == pre.buckets(),
            0 <= p < pre.buckets(),
            pre.slots@[p] is None,
            post.slots@[p] is Some,
            (post.slots@[p]->0).0@ == k,
            (post.slots@[p]->0).1 == v,
            forall|x: int| 0 <= x < pre.buckets() && x != p ==> post.slots@[x] == pre.slots@[x],
        ensures
            post@.contains_key(k),
            post@[k] == (if pre@.contains_key(k) && pre.found_position(k) < dist(
                pre.home(k),
                p,
                pre.buckets() as int,
            ) {
                pre@[k]
            } else {
                v
            }),
            post@.remove(k) == pre@.remove(k),
    {
        let n = pre.buckets() as int;
        let h = pre.home(k);
        pre.lemma_home(k);
        assert(post.home(k) == h);
        if pre@.contains_key(k) {
            let t0 = choose|j: int| pre.visible(j) && pre.key_at(j) == k;
            pre.lemma_view_visible(t0);
            lemma_dist_slot(h, t0, n);
            lemma_dist_slot(h, p, n);
            if dist(h, p, n) < dist(h, t0, n) {
                assert forall|t: int| #[trigger] post.has_key(t, post.key_at(p)) implies dist(h, p, n)
                    <= dist(h, t, n) by {
                    if t != p {
                        assert(pre.has_key(t, k));
                    }
                }
                assert(post.visible(p));
                post.lemma_view_visible(p);
            } else {
                assert(t0 != p);
                assert(post.key_at(t0) == k);
                assert forall|t: int| #[trigger] post.has_key(t, post.key_at(t0)) implies dist(h, t0, n)
                    <= dist(h, t, n) by {
                    if t != p {
                        assert(pre.has_key(t, k));
                    }
                }
                assert(post.visible(t0));
                post.lemma_view_visible(t0);
            }
        }
        assert(post.has_key(p, k));
        post.lemma_visible_exists(p, k);
        let t = choose|t: int| post.visible(t) && post.key_at(t) == k;
        post.lemma_view_visible(t);
        if t != p {
            assert(pre.has_key(t, k));
            assert(pre.key_at(t) == post.key_at(t));
            assert forall|x: int| #[trigger] pre.has_key(x, k) implies post.has_key(x, k) by {
                assert(x != p);
            }
            assert(pre.visible(t));
            pre.lemma_view_visible(t);
        }
        Self::lemma_view_other_keys(pre, post, p, k);
    }

    /// Overwriting the value of the entry a lookup finds for `k` changes the
    /// view at `k` only.
    proof fn lemma_view_replace(pre: &Self, post: &Self, j: int, k: K::V, v: V)
        requires
            pre.wf(),
            post.wf(),
            post.bucket_mask == pre.bucket_mask,
            post.buckets() == pre.buckets(),
            pre.visible(j),
            pre.key_at(j) == k,
            post.slots@[j] is Some,
            (post.slots@[j]->0).0@ == k,
            (post.slots@[j]->0).1 == v,
            forall|x: int| 0 <= x < pre.buckets() && x != j ==> post.slots@[x] == pre.slots@[x],
        ensures
            post@ == pre@.insert(k, v),
    {
        assert forall|x: int, k2: K::V| #[trigger] post.has_key(x, k2) == pre.has_key(x, k2) by {}
        assert forall|x: int| #[trigger] post.visible(x) == pre.visible(x) by {
            if 0 <= x < pre.buckets() && pre.slots@[x] is Some {
                let kx = pre.key_at(x);
                assert(post.key_at(x) == kx);
                assert(post.home(kx) == pre.home(kx));
                assert forall|t: int| #[trigger] post.has_key(t, kx) == pre.has_key(t, kx) by {
                    if t == j {
                        assert(post.key_at(j) == pre.key_at(j));
                    }
                }
                if pre.visible(x) {
                    assert forall|t: int| #[trigger] post.has_key(t, post.key_at(x)) implies dist(
                        post.home(post.key_at(x)),
                        x,
                        post.buckets() as int,
                    ) <= dist(post.home(post.key_at(x)), t, post.buckets() as int) by {
                        assert(pre.has_key(t, kx));
                    }
                }
                if post.visible(x) {
                    assert forall|t: int| #[trigger] pre.has_key(t, pre.key_at(x)) implies dist(
                        pre.home(pre.key_at(x)),
                        x,
                        pre.buckets() as int,
                    ) <= dist(pre.home(pre.key_at(x)), t, pre.buckets() as int) by {
                        assert(post.has_key(t, kx));
                    }
                }
            } else if 0 <= x < pre.buckets() {
                assert(x != j);
            }
        }
        assert(post.visible(j));
        post.lemma_view_visible(j);
        assert forall|k2: K::V| k2 != k implies #[trigger] post@.contains_key(k2) == pre@.contains_key(k2) && (
        post@.contains_key(k2) ==> post@[k2] == pre@[k2]) by {
            if post@.contains_key(k2) {
                let a = choose|a: int| post.visible(a) && post.key_at(a) == k2;
                post.lemma_view_visible(a);
                pre.lemma_view_visible(a);
            }
            if pre@.contains_key(k2) {
                let a = choose|a: int| pre.visible(a) && pre.key_at(a) == k2;
                post.lemma_view_visible(a);
                pre.lemma_view_visible(a);
            }
        }
        assert forall|k2: K::V| #[trigger] post@.contains_key(k2) == pre@.insert(k, v).contains_key(k2) by {
            if k2 != k {
                assert(post@.contains_key(k2) == pre@.contains_key(k2));
            } else {
                pre.lemma_view_visible(j);
            }
        }
        assert forall|k2: K::V| #[trigger] post@.contains_key(k2) implies post@[k2] == pre@.insert(k, v)[k2] by {
            if k2 != k {
                assert(post@[k2] == pre@[k2]);
            }
        }
        assert(post@ =~= pre@.insert(k, v));
    }

    /// Of the first eight slots from `h`, one with control byte `c` gives a
    /// first one.
    proof fn lemma_first_in_group(&self, h: int, c: u8, i: int)
        requires
            0 <= i < 8,
            self.ctrl@[slot_at(h, i, self.buckets() as int)] == c,
        ensures
            self.group_has(h, c),
            0 <= self.first_in_group(h, c) < 8,
            self.ctrl@[slot_at(h, self.first_in_group(h, c), self.buckets() as int)] == c,
            forall|i2: int|
                0 <= i2 < self.first_in_group(h, c) ==> self.ctrl@[#[trigger] slot_at(
                    h,
                    i2,
                    self.buckets() as int,
                )] != c,
        decreases i,
    {
        let n = self.buckets() as int;
        if exists|i2: int| 0 <= i2 < i && self.ctrl@[#[trigger] slot_at(h, i2, n)] == c {
            let i2 = choose|i2: int| 0 <= i2 < i && self.ctrl@[#[trigger] slot_at(h, i2, n)] == c;
            self.lemma_first_in_group(h, c, i2);
        } else {
            assert(self.ctrl@[slot_at(h, i, n)] == c);
        }
    }

    /// A slot without an entry past the first eight gives a first one.
    proof fn lemma_first_free(&self, h: int, d: int)
        requires
            8 <= d < self.buckets(),
            self.slots@[slot_at(h, d, self.buckets() as int)] is None,
        ensures
            8 <= self.first_free_after_group(h) < self.buckets(),
            self.slots@[slot_at(h, self.first_free_after_group(h), self.buckets() as int)] is None,
            forall|d2: int|
                8 <= d2 < self.first_free_after_group(h) ==> (#[trigger] self.slots@[slot_at(
                    h,
                    d2,
                    self.buckets() as int,
                )]) is Some,
        decreases d,
    {
        let n = self.buckets() as int;
        if exists|d2: int| 8 <= d2 < d && (#[trigger] self.slots@[slot_at(h, d2, n)]) is None {
            let d2 = choose|d2: int| 8 <= d2 < d && (#[trigger] self.slots@[slot_at(h, d2, n)]) is None;
            self.lemma_first_free(h, d2);
        } else {
            assert(self.slots@[slot_at(h, d, n)] is None);
        }
    }

    /// The slot holding the entry for `key` that a lookup finds, if any.
    fn find(&self, key: &K) -> (r: Option<usize>)
        requires
            self.wf(),
        ensures
            match r {
                Some(j) => self.visible(j as int) && self.key_at(j as int) == key@,
                None => forall|j: int| 0 <= j < self.buckets() ==> !self.has_key(j, key@),
            },
    {
        if self.ctrl.len() == 0 {
            return None;
        }
        let ghost n = self.buckets() as int;
        let ghost k = key@;
        let hash = self.hash(key);
        assert(hash & 0x7F <= 0x7F) by (bit_vector);
        let tag = (hash & 0x7F) as u8;
        let mut probe_index = hash & self.bucket_mask;
        let ghost h = probe_index as int;
        let ghost mut s: int = 0;
        proof {
            self.lemma_home(k);
        }
        loop
            invariant
                self.wf(),
                n == self.buckets(),
                n >= 8,
                k == key@,
                h == self.home(k),
                0 <= h < n,
                tag == Self::key_tag(k),
                0 <= s < n,
                probe_index == slot_at(h, s, n),
                self.probed_clear(h, s, k),
            decreases n - s,
        {
            let group_bytes = self.get_group_bytes(probe_index);
            let match_mask = self.match_group(group_bytes, tag);
            if match_mask != 0 {
                let mut i: u8 = 0;
                while i < 8
                    invariant
                        self.wf(),
                        n == self.buckets(),
                        n >= 8,
                        k == key@,
                        h == self.home(k),
                        0 <= h < n,
                        tag == Self::key_tag(k),
                        0 <= s < n,
                        probe_index == slot_at(h, s, n),
                        i <= 8,
                        self.probed_clear(h, s, k),
                        forall|ii: u8|
                            ii < 8 ==> (#[trigger] mask_bit(match_mask, ii) <==> self.ctrl@[wrap_index(
                                probe_index + ii,
                                n,
                            )] == tag),
                        forall|ii: u8|
                            ii < i ==> !self.has_key(
                                #[trigger] wrap_index(probe_index + ii, n),
                                k,
                            ),
                    decreases 8 - i,
                {
                    proof {
                        lemma_window(h, s, i as int, n);
                        lemma_wrap_mask((probe_index + i as usize) as usize, n as usize);
                    }
                    let index = (probe_index + i as usize) & self.bucket_mask;
                    assert(index as int == wrap_index(probe_index + i, n));
                    assert(self.slot_ok(index as int));
                    if match_mask & (1u8 << (7 - i)) != 0 {
                        match &self.slots[index] {
                            Some(entry) => {
                                if entry.0.key_eq(key) {
                                    proof {
                                        self.lemma_found_visible(h, s, i, probe_index as int, k);
                                    }
                                    return Some(index);
                                }
                            },
                            None => {},
                        }
                    } else {
                        assert(!mask_bit(match_mask, i));
                    }
                    assert(!self.has_key(index as int, k));
                    i = i + 1;
                }
            } else {
                assert forall|ii: u8| ii < 8 implies !self.has_key(
                    #[trigger] wrap_index(probe_index + ii, n),
                    k,
                ) by {
                    lemma_zero_mask(ii);
                    lemma_window(h, s, ii as int, n);
                    assert(self.slot_ok(wrap_index(probe_index + ii, n)));
                }
            }
            let empty_mask = self.match_group(group_bytes, EMPTY);
            if empty_mask != 0 {
                proof {
                    lemma_nonzero_mask(empty_mask);
                    let i0 = choose|i0: u8| i0 < 8 && #[trigger] mask_bit(empty_mask, i0);
                    self.lemma_absent_past_empty(h, s, i0, probe_index as int, k);
                }
                return None;
            }
            proof {
                assert forall|ii: u8| ii < 8 implies self.ctrl@[#[trigger] wrap_index(
                    probe_index + ii,
                    n,
                )] != EMPTY by {
                    lemma_zero_mask(ii);
                    assert(!mask_bit(empty_mask, ii));
                }
                self.lemma_advance(h, s, probe_index as int, k);
            }
            proof {
                lemma_wrap_mask((probe_index + 1) as usize, n as usize);
            }
            probe_index = (probe_index + 1) & self.bucket_mask;
            proof {
                s = s + 1;
            }
        }
    }

    /// Every key of the view comes from an entry, and every entry's key is in
    /// the view; with no key in two entries, the view gives each entry's value.
    proof fn lemma_view_entries(&self)
        requires
            self.wf(),
        ensures
            forall|k: K::V| #[trigger]
                self@.contains_key(k) ==> self.entries().count((k, self@[k])) > 0,
            forall|k: K::V, v: V| #[trigger]
                self.entries().count((k, v)) > 0 ==> self@.contains_key(k),
            self.unique_keys() ==> forall|k: K::V, v: V| #[trigger]
                self.entries().count((k, v)) > 0 ==> self@[k] == v,
    {
        assert forall|k: K::V| #[trigger] self@.contains_key(k) implies self.entries().count(
            (k, self@[k]),
        ) > 0 by {
            let j = choose|j: int| self.visible(j) && self.key_at(j) == k;
            self.lemma_view_visible(j);
            lemma_entries_contains(self.slots@, k, self@[k]);
        }
        assert forall|k: K::V, v: V| #[trigger] self.entries().count((k, v)) > 0 implies self@.contains_key(k) && (
        self.unique_keys() ==> self@[k] == v) by {
            lemma_entries_contains(self.slots@, k, v);
            let j = choose|j: int|
                0 <= j < self.slots@.len() && #[trigger] self.slots@[j] is Some && (
                self.slots@[j]->0).0@ == k && (self.slots@[j]->0).1 == v;
            assert(self.has_key(j, k));
            self.lemma_visible_exists(j, k);
            let t = choose|t: int| self.visible(t) && self.key_at(t) == k;
            self.lemma_view_visible(t);
            lemma_entries_contains(self.slots@, k, self@[k]);
        }
    }

    /// Whether `other` agrees with `self` on the control bytes that are not
    /// empty: every slot that is not empty in `self` is not empty in `other`.
    spec fn fills(&self, other: &Self) -> bool {
        forall|x: int| 0 <= x < self.ctrl@.len() && #[trigger] self.ctrl@[x] != EMPTY ==> other.ctrl@[x] != EMPTY
    }

    /// Filling empty slots keeps every entry reachable.
    proof fn lemma_reachable_kept(&self, other: &Self, j: int, k: K::V)
        requires
            self.wf(),
            self.buckets() > 0,
            other.ctrl@.len() == self.ctrl@.len(),
            other.bucket_mask == self.bucket_mask,
            self.fills(other),
            0 <= j < self.buckets(),
            self.reachable(j, k),
        ensures
            other.reachable(j, k),
    {
        let n = self.buckets() as int;
        let h = self.home(k);
        self.lemma_home(k);
        lemma_dist_slot(h, j, n);
        if dist(h, j, n) >= 8 {
            assert forall|e: int| 0 <= e < dist(h, j, n) implies other.ctrl@[#[trigger] slot_at(h, e, n)]
                != EMPTY by {
                lemma_slot_dist(h, e, n);
                assert(self.ctrl@[slot_at(h, e, n)] != EMPTY);
            }
        }
    }

    /// Looks up `key`.
    pub fn get(&self, key: &K) -> (r: Option<&V>)
        requires
            self.wf(),
        ensures
            r is Some <==> self@.contains_key(key@),
            r matches Some(v) ==> *v == self@[key@],
    {
        match self.find(key) {
            Some(index) => {
                proof {
                    self.lemma_view_visible(index as int);
                }
                match &self.slots[index] {
                    Some(entry) => Some(&entry.1),
                    None => None,
                }
            },
            None => {
                proof {
                    self.lemma_view_absent(key@);
                }
                None
            },
        }
    }

    /// Removes the entry a lookup for `key` finds and returns its value.
    /// The slot is marked deleted; an entry for the same key further along
    /// the probe sequence, if any, becomes the one found.
    pub fn remove(&mut self, key: &K) -> (r: Option<V>)
        requires
            old(self).wf(),
        ensures
            final(self).wf(),
            final(self).buckets() == old(self).buckets(),
            r is Some <==> old(self)@.contains_key(key@),
            r matches Some(v) ==> v == old(self)@[key@] && final(self).entries() == old(
                self,
            ).entries().remove((key@, v)),
            r is None ==> final(self).entries() == old(self).entries() && final(self)@ == old(
                self,
            )@,
            final(self)@.remove(key@) == old(self)@.remove(key@),
            final(self).growth_left() == old(self).growth_left(),
            r is Some ==> final(self).control() == old(self).control().update(
                old(self).found_slot(key@),
                DELETED,
            ) && final(self).slot_entries() == old(self).slot_entries().update(
                old(self).found_slot(key@),
                None,
            ),
            r is None ==> final(self).control() == old(self).control() && final(self).slot_entries()
                == old(self).slot_entries(),
            final(self)@.contains_key(key@) ==> old(self).entries().count((key@, final(self)@[key@])) > 0,
            old(self).unique_keys() ==> final(self).unique_keys() && final(self)@ == old(
                self,
            )@.remove(key@),
    {
        proof {
            self.lemma_view_entries();
        }
        match self.find(key) {
            Some(index) => {
                proof {
                    self.lemma_view_visible(index as int);
                    assert(self.slot_ok(index as int));
                    Self::lemma_tag(self.key_at(index as int));
                    lemma_entries_update(self.slots@, index as int, None);
                    lemma_count_update(self.ctrl@, index as int, DELETED, EMPTY);
                }
                let ghost pre = *self;
                let taken = self.slots[index].take();
                self.ctrl.set(index, DELETED);
                self.items = self.items - 1;
                proof {
                    assert(pre.fills(self));
                    assert forall|j: int| 0 <= j < self.buckets() implies #[trigger] self.slot_ok(
                        j,
                    ) by {
                        assert(pre.slot_ok(j));
                        if j != index {
                            match self.slots@[j] {
                                Some(e) => pre.lemma_reachable_kept(self, j, e.0@),
                                None => {},
                            }
                        }
                    }
                    assert(self.slots@ == pre.slots@.update(index as int, None));
                    assert(self.ctrl@ == pre.ctrl@.update(index as int, DELETED));
                    assert(entries_of(self.slots@).add(entry_bag(pre.slots@[index as int])) =~= entries_of(pre.slots@));
                    assert(self.items == entries_of(self.slots@).len());
                    assert(count_byte(self.ctrl@, EMPTY) == count_byte(pre.ctrl@, EMPTY));
                    assert(self.wf());
                    assert(entries_of(self.slots@) =~= pre.entries().remove((key@, pre@[key@])));
                    Self::lemma_view_other_keys(&pre, self, index as int, key@);
                    let f = pre.found_slot(key@);
                    assert(pre.visible(f) && pre.key_at(f) == key@);
                    pre.lemma_visible_unique(index as int, f);
                    assert(self.slot_entries() =~= pre.slot_entries().update(index as int, None));
                    self.lemma_view_entries();
                    if self@.contains_key(key@) {
                        assert(self.entries().count((key@, self@[key@])) > 0);
                    }
                    if pre.unique_keys() {
                        law_get_after_remove(&pre, self, key@);
                    }
                }
                match taken {
                    Some(entry) => Some(entry.1),
                    None => None,
                }
            },
            None => {
                proof {
                    self.lemma_view_absent(key@);
                }
                None
            },
        }
    }

    /// Entries and empty slots together number at most the slots.
    proof fn lemma_items_bound(&self)
        requires
            self.wf(),
        ensures
            self.items + count_byte(self.ctrl@, EMPTY) <= self.buckets(),
    {
        assert forall|j: int| 0 <= j < self.slots@.len() && #[trigger] self.slots@[j] is Some implies self.ctrl@[j] != EMPTY by {
            assert(self.slot_ok(j));
            Self::lemma_tag(self.key_at(j));
        }
        lemma_entries_and_empties(self.slots@, self.ctrl@);
    }

    /// Stores a new entry in the free slot `index`.
    fn place(&mut self, index: usize, key: K, value: V, tag: u8)
        requires
            old(self).wf(),
            old(self).buckets() > 0,
            index < old(self).buckets(),
            old(self).slots@[index as int] is None,
            old(self).growth_left >= 2,
            tag == Self::key_tag(key@),
            old(self).reachable(index as int, key@),
        ensures
            final(self).wf(),
            final(self).bucket_mask == old(self).bucket_mask,
            final(self).buckets() == old(self).buckets(),
            final(self).slots@ == old(self).slots@.update(index as int, Some((key, value))),
            final(self).ctrl@ == old(self).ctrl@.update(index as int, tag),
            final(self).growth_left + final(self).items == old(self).growth_left + old(self).items,
            final(self).items == old(self).items + 1,
            final(self).entries() == old(self).entries().insert((key@, value)),
    {
        proof {
            self.lemma_items_bound();
            assert(self.slot_ok(index as int));
            Self::lemma_tag(key@);
            lemma_count_update(self.ctrl@, index as int, tag, EMPTY);
            lemma_entries_update(self.slots@, index as int, Some((key, value)));
        }
        let ghost pre = *self;
        self.ctrl.set(index, tag);
        self.slots.set(index, Some((key, value)));
        self.items = self.items + 1;
        self.growth_left = self.growth_left - 1;
        proof {
            assert(pre.fills(self));
            assert forall|j: int| 0 <= j < self.buckets() implies #[trigger] self.slot_ok(j) by {
                assert(pre.slot_ok(j));
                if j != index {
                    match self.slots@[j] {
                        Some(e) => pre.lemma_reachable_kept(self, j, e.0@),
                        None => {},
                    }
                } else {
                    pre.lemma_reachable_kept(self, j, key@);
                }
            }
            assert(entries_of(self.slots@) =~= pre.entries().insert((key@, value)));
        }
    }

    /// Inserts into a table that has room: the search from the key's home
    /// takes the first empty slot of the first group that has one, else the
    /// first deleted slot of that group, else overwrites the value of an entry
    /// for the key in a full group, else moves one slot on.
    fn insert_no_grow(&mut self, key: K, value: V)
        requires
            old(self).wf(),
            old(self).buckets() > 0,
            old(self).growth_left >= 2,
        ensures
            final(self).wf(),
            final(self).bucket_mask == old(self).bucket_mask,
            final(self).buckets() == old(self).buckets(),
            final(self).growth_left + final(self).items == old(self).growth_left + old(self).items,
            final(self).items <= old(self).items + 1,
            old(self).inserts_to(final(self), key@, value),
            old(self).replaces(key@) ==> old(self)@.contains_key(key@) && final(self).entries()
                == old(self).entries().remove((key@, old(self)@[key@])).insert((key@, value))
                && final(self)@ == old(self)@.insert(key@, value),
            !old(self).replaces(key@) ==> final(self).entries() == old(self).entries().insert(
                (key@, value),
            ),
            !old(self).replaces(key@) ==> final(self)@.contains_key(key@) && final(self)@.remove(
                key@,
            ) == old(self)@.remove(key@) && final(self)@[key@] == (if old(self)@.contains_key(key@)
                && old(self).found_position(key@) < old(self).insert_position(key@) {
                old(self)@[key@]
            } else {
                value
            }),
    {
        let ghost pre = *self;
        let ghost n = self.buckets() as int;
        let ghost k = key@;
        proof {
            if pre.replaces(k) {
                pre.lemma_replaces_contains(k);
            }
        }
        let hash = self.hash(&key);
        assert(hash & 0x7F <= 0x7F) by (bit_vector);
        let tag = (hash & 0x7F) as u8;
        let mut probe_index = hash & self.bucket_mask;
        let ghost h = probe_index as int;
        let ghost mut s: int = 0;
        proof {
            self.lemma_home(k);
        }
        loop
            invariant
                *self == pre,
                pre == *old(self),
                pre.wf(),
                n == pre.buckets(),
                n >= 8,
                pre.growth_left >= 2,
                k == key@,
                h == pre.home(k),
                0 <= h < n,
                tag == Self::key_tag(k),
                0 <= s < n,
                probe_index == slot_at(h, s, n),
                pre.probed_full(h, s, k),
            decreases n - s,
        {
            let group_bytes = self.get_group_bytes(probe_index);
            let empty_mask = self.match_group(group_bytes, EMPTY);
            if empty_mask != 0 {
                let mut i: u8 = 0;
                while i < 8
                    invariant
                        *self == pre,
                        pre == *old(self),
                        pre.wf(),
                        n == pre.buckets(),
                        n >= 8,
                        pre.growth_left >= 2,
                        k == key@,
                        h == pre.home(k),
                        0 <= h < n,
                        tag == Self::key_tag(k),
                        0 <= s < n,
                        probe_index == slot_at(h, s, n),
                        pre.probed_full(h, s, k),
                        i <= 8,
                        forall|ii: u8|
                            ii < 8 ==> (#[trigger] mask_bit(empty_mask, ii) <==> pre.ctrl@[wrap_index(
                                probe_index + ii,
                                n,
                            )] == EMPTY),
                        forall|ii: u8| ii < i ==> !#[trigger] mask_bit(empty_mask, ii),
                    decreases 8 - i,
                {
                    proof {
                        lemma_window(h, s, i as int, n);
                        lemma_wrap_mask((probe_index + i as usize) as usize, n as usize);
                    }
                    let index = (probe_index + i as usize) & self.bucket_mask;
                    assert(index as int == wrap_index(probe_index + i, n));
                    if empty_mask & (1u8 << (7 - i)) != 0 {
                        proof {
                            assert(mask_bit(empty_mask, i));
                            assert(pre.slot_ok(index as int));
                            Self::lemma_tag(pre.key_at(index as int));
                            pre.lemma_place_ok(h, s, i, probe_index as int, k);
                            assert forall|ii: u8| ii < i implies pre.ctrl@[#[trigger] wrap_index(
                                probe_index + ii,
                                n,
                            )] != EMPTY by {
                                assert(!mask_bit(empty_mask, ii));
                            }
                            pre.lemma_place_position(h, s, i, probe_index as int, k, EMPTY);
                            lemma_slot_dist(h, wrap_index(s + i, n), n);
                        }
                        self.place(index, key, value, tag);
                        proof {
                            Self::lemma_view_place(&pre, self, index as int, k, value);
                            assert(index as int == pre.insert_slot(k));
                            assert(self.slot_entries() =~= pre.slot_entries().update(
                                index as int,
                                Some((k, value)),
                            ));
                        }
                        return;
                    }
                    i = i + 1;
                }
                proof {
                    lemma_nonzero_mask(empty_mask);
                }
            }
            proof {
                assert forall|ii: u8| ii < 8 implies pre.ctrl@[#[trigger] wrap_index(
                    probe_index + ii,
                    n,
                )] != EMPTY by {
                    lemma_zero_mask(ii);
                    assert(!mask_bit(empty_mask, ii));
                }
            }
            let delete_mask = self.match_group(group_bytes, DELETED);
            if delete_mask != 0 {
                let mut i: u8 = 0;
                while i < 8
                    invariant
                        *self == pre,
                        pre == *old(self),
                        pre.wf(),
                        n == pre.buckets(),
                        n >= 8,
                        pre.growth_left >= 2,
                        k == key@,
                        h == pre.home(k),
                        0 <= h < n,
                        tag == Self::key_tag(k),
                        0 <= s < n,
                        probe_index == slot_at(h, s, n),
                        pre.probed_full(h, s, k),
                        i <= 8,
                        forall|ii: u8|
                            ii < 8 ==> (#[trigger] mask_bit(delete_mask, ii) <==> pre.ctrl@[wrap_index(
                                probe_index + ii,
                                n,
                            )] == DELETED),
                        forall|ii: u8| ii < i ==> !#[trigger] mask_bit(delete_mask, ii),
                        forall|ii: u8|
                            ii < 8 ==> pre.ctrl@[#[trigger] wrap_index(probe_index + ii, n)] != EMPTY,
                    decreases 8 - i,
                {
                    proof {
                        lemma_window(h, s, i as int, n);
                        lemma_wrap_mask((probe_index + i as usize) as usize, n as usize);
                    }
                    let index = (probe_index + i as usize) & self.bucket_mask;
                    assert(index as int == wrap_index(probe_index + i, n));
                    if delete_mask & (1u8 << (7 - i)) != 0 {
                        proof {
                            assert(mask_bit(delete_mask, i));
                            assert(pre.slot_ok(index as int));
                            Self::lemma_tag(pre.key_at(index as int));
                            pre.lemma_place_ok(h, s, i, probe_index as int, k);
                            assert forall|ii: u8| ii < i implies pre.ctrl@[#[trigger] wrap_index(
                                probe_index + ii,
                                n,
                            )] != DELETED by {
                                assert(!mask_bit(delete_mask, ii));
                            }
                            pre.lemma_place_position(h, s, i, probe_index as int, k, DELETED);
                            lemma_slot_dist(h, wrap_index(s + i, n), n);
                        }
                        self.place(index, key, value, tag);
                        proof {
                            Self::lemma_view_place(&pre, self, index as int, k, value);
                            assert(index as int == pre.insert_slot(k));
                            assert(self.slot_entries() =~= pre.slot_entries().update(
                                index as int,
                                Some((k, value)),
                            ));
                        }
                        return;
                    }
                    i = i + 1;
                }
                proof {
                    lemma_nonzero_mask(delete_mask);
                }
            }
            proof {
                assert forall|ii: u8| ii < 8 implies (#[trigger] pre.slots@[wrap_index(
                    probe_index + ii,
                    n,
                )]) is Some by {
                    lemma_zero_mask(ii);
                    assert(!mask_bit(empty_mask, ii));
                    assert(!mask_bit(delete_mask, ii));
                    lemma_window(h, s, ii as int, n);
                    assert(pre.slot_ok(wrap_index(probe_index + ii, n)));
                }
            }
            let match_mask = self.match_group(group_bytes, tag);
            if match_mask != 0 {
                let mut i: u8 = 0;
                while i < 8
                    invariant
                        *self == pre,
                        pre == *old(self),
                        pre.wf(),
                        n == pre.buckets(),
                        n >= 8,
                        pre.growth_left >= 2,
                        k == key@,
                        h == pre.home(k),
                        0 <= h < n,
                        tag == Self::key_tag(k),
                        0 <= s < n,
                        probe_index == slot_at(h, s, n),
                        pre.probed_full(h, s, k),
                        i <= 8,
                        forall|ii: u8|
                            ii < 8 ==> (#[trigger] mask_bit(match_mask, ii) <==> pre.ctrl@[wrap_index(
                                probe_index + ii,
                                n,
                            )] == tag),
                        forall|ii: u8|
                            ii < 8 ==> (#[trigger] pre.slots@[wrap_index(probe_index + ii, n)]) is Some,
                        forall|ii: u8|
                            ii < i ==> !pre.has_key(#[trigger] wrap_index(probe_index + ii, n), k),
                    decreases 8 - i,
                {
                    proof {
                        lemma_window(h, s, i as int, n);
                        lemma_wrap_mask((probe_index + i as usize) as usize, n as usize);
                    }
                    let index = (probe_index + i as usize) & self.bucket_mask;
                    assert(index as int == wrap_index(probe_index + i, n));
                    assert(pre.slot_ok(index as int));
                    if match_mask & (1u8 << (7 - i)) != 0 {
                        let found = match &self.slots[index] {
                            Some(entry) => entry.0.key_eq(&key),
                            None => false,
                        };
                        if found {
                            proof {
                                pre.lemma_replace_ok(h, s, i, probe_index as int, k);
                                pre.lemma_view_visible(index as int);
                                pre.lemma_view_entries();
                                lemma_entries_update(
                                    pre.slots@,
                                    index as int,
                                    Some(((pre.slots@[index as int]->0).0, value)),
                                );
                            }
                            let taken = self.slots[index].take();
                            match taken {
                                Some(entry) => {
                                    self.slots.set(index, Some((entry.0, value)));
                                },
                                None => {},
                            }
                            proof {
                                assert(self.slots@ == pre.slots@.update(
                                    index as int,
                                    Some(((pre.slots@[index as int]->0).0, value)),
                                ));
                                assert(self.ctrl@ == pre.ctrl@);
                                assert forall|j: int| 0 <= j < n implies #[trigger] self.slot_ok(
                                    j,
                                ) by {
                                    assert(pre.slot_ok(j));
                                    if pre.slots@[j] is Some {
                                        let kj = (pre.slots@[j]->0).0@;
                                        assert((self.slots@[j]->0).0@ == kj);
                                        assert(pre.reachable(j, kj));
                                        assert(self.home(kj) == pre.home(kj));
                                        assert(self.reachable(j, kj));
                                    }
                                }
                                let w = (pre.slots@[index as int]->0).1;
                                assert(w == pre@[k]);
                                assert(entry_bag(pre.slots@[index as int]) == Multiset::singleton(
                                    (k, w),
                                ));
                                assert(pre.entries().count((k, w)) > 0);
                                assert forall|e: (K::V, V)| #[trigger] entries_of(self.slots@).count(
                                    e,
                                ) == pre.entries().remove((k, w)).insert((k, value)).count(e) by {
                                    assert(entries_of(self.slots@).add(
                                        entry_bag(pre.slots@[index as int]),
                                    ).count(e) == pre.entries().add(
                                        entry_bag(Some(((pre.slots@[index as int]->0).0, value))),
                                    ).count(e));
                                }
                                assert(entries_of(self.slots@) =~= pre.entries().remove(
                                    (k, pre@[k]),
                                ).insert((k, value)));
                                assert(self.wf());
                                Self::lemma_view_replace(&pre, self, index as int, k, value);
                                let f = pre.found_slot(k);
                                assert(pre.visible(f) && pre.key_at(f) == k);
                                pre.lemma_visible_unique(index as int, f);
                                assert(self.slot_entries() =~= pre.slot_entries().update(
                                    index as int,
                                    Some((k, value)),
                                ));
                            }
                            return;
                        }
                    } else {
                        assert(!mask_bit(match_mask, i));
                    }
                    assert(!pre.has_key(index as int, k));
                    i = i + 1;
                }
            } else {
                assert forall|ii: u8| ii < 8 implies !pre.has_key(
                    #[trigger] wrap_index(probe_index + ii, n),
                    k,
                ) by {
                    lemma_zero_mask(ii);
                    lemma_window(h, s, ii as int, n);
                    assert(pre.slot_ok(wrap_index(probe_index + ii, n)));
                }
            }
            proof {
                pre.lemma_advance_full(h, s, probe_index as int, k);
                lemma_wrap_mask((probe_index + 1) as usize, n as usize);
            }
            probe_index = (probe_index + 1) & self.bucket_mask;
            proof {
                s = s + 1;
            }
        }
    }

    /// Two tables with the same entries and no key in two entries have the
    /// same view.
    proof fn lemma_same_entries_same_view(a: &Self, b: &Self)
        requires
            a.wf(),
            b.wf(),
            a.entries() == b.entries(),
            a.unique_keys(),
        ensures
            a@ == b@,
    {
        a.lemma_view_entries();
        b.lemma_view_entries();
        assert forall|k: K::V| #[trigger] a@.contains_key(k) == b@.contains_key(k) by {
            if a@.contains_key(k) {
                assert(a.entries().count((k, a@[k])) > 0);
            }
            if b@.contains_key(k) {
                assert(b.entries().count((k, b@[k])) > 0);
            }
        }
        assert forall|k: K::V| #[trigger] a@.contains_key(k) implies a@[k] == b@[k] by {
            assert(b.entries().count((k, b@[k])) > 0);
        }
        assert(a@ =~= b@);
    }

    /// Moves the entries into a table twice as large (eight slots when there
    /// was no table), re-inserting them slot by slot.
    fn resize(&mut self)
        requires
            old(self).wf(),
            old(self).buckets() * 4 <= usize::MAX + 1,
        ensures
            final(self).wf(),
            final(self).buckets() == (if old(self).buckets() == 0 {
                8
            } else {
                2 * old(self).buckets()
            }),
            !final(self).grows_on_insert(),
            forall|e: (K::V, V)| #[trigger] final(self).entries().count(e) <= old(self).entries().count(e),
            old(self).unique_keys() ==> final(self).entries() == old(self).entries(),
            forall|k: K::V, v: V| #[trigger]
                old(self).entries().count((k, v)) > 0 ==> exists|w: V|
                    final(self).entries().count((k, w)) > 0,
            exists|steps: Seq<Self>|
                old(self).rebuilds_through(steps) && steps[steps.len() - 1] == *final(self),
            final(self).growth_left + final(self).items == final(self).buckets(),
    {
        let ghost pre = *self;
        let ghost n = self.buckets() as int;
        let ghost old_slots = self.slots@;
        proof {
            self.lemma_items_bound();
            if n > 0 {
                lemma_double_pow2((self.bucket_mask + 1) as usize);
            }
        }
        let new_capacity = (self.bucket_mask + 1) * 2;
        let mut new_map: HashMap<K, V> = HashMap::with_capacity(new_capacity);
        let ghost big_b = new_map.buckets() as int;
        proof {
            if n == 0 {
                assert(big_b == 8);
            } else if big_b > 2 * n {
                lemma_pow2_gap(new_capacity, big_b as usize);
            }
            assert(old_slots.subrange(0, 0) =~= Seq::<Option<(K, V)>>::empty());
        }
        let ghost mut steps: Seq<Self> = seq![new_map];
        let mut i: usize = 0;
        while i < self.ctrl.len()
            invariant
                steps.len() == i + 1,
                steps[0].wf(),
                steps[0].fresh(),
                steps[0].buckets() == big_b,
                steps[i as int] == new_map,
                forall|x: int|
                    0 <= x < i ==> #[trigger] Self::rebuild_step(
                        steps[x],
                        steps[x + 1],
                        pre.slot_entries()[x],
                    ),
                pre == *old(self),
                pre.wf(),
                n == pre.buckets(),
                old_slots == pre.slots@,
                pre.items + count_byte(pre.ctrl@, EMPTY) <= n,
                self.ctrl@.len() == n,
                self.slots@.len() == n,
                0 <= i <= n,
                forall|x: int| i <= x < n ==> #[trigger] self.slots@[x] == old_slots[x],
                forall|x: int| i <= x < n ==> #[trigger] self.ctrl@[x] == pre.ctrl@[x],
                new_map.wf(),
                new_map.buckets() == big_b,
                big_b == (if n == 0 {
                    8
                } else {
                    2 * n
                }),
                new_map.growth_left + new_map.items == big_b,
                new_map.items <= entries_of(old_slots.subrange(0, i as int)).len(),
                forall|e: (K::V, V)| #[trigger]
                    new_map.entries().count(e) <= entries_of(old_slots.subrange(0, i as int)).count(e),
                pre.unique_keys() ==> new_map.entries() == entries_of(old_slots.subrange(0, i as int)),
                forall|k: K::V, v: V| #[trigger]
                    entries_of(old_slots.subrange(0, i as int)).count((k, v)) > 0 ==> exists|w: V|
                        new_map.entries().count((k, w)) > 0,
            decreases n - i,
        {
            proof {
                lemma_entries_step(old_slots, i as int);
                lemma_entries_prefix(old_slots, i as int + 1);
            }
            if self.ctrl[i] != EMPTY {
                let taken = self.slots[i].take();
                match taken {
                    Some(entry) => {
                        let ghost mid = new_map;
                        proof {
                            assert(pre.growth_left >= 1);
                            mid.lemma_view_entries();
                            lemma_entries_prefix(old_slots, i as int);
                            if pre.unique_keys() && mid.replaces(entry.0@) {
                                mid.lemma_replaces_contains(entry.0@);
                                let w = mid@[entry.0@];
                                assert(mid.entries().count((entry.0@, w)) > 0);
                                assert(entry_bag(old_slots[i as int]).count((entry.0@, entry.1)) > 0);
                                assert(pre.entries().count((entry.0@, w)) > 0);
                                assert(entries_of(old_slots.subrange(0, i as int + 1)).count(
                                    (entry.0@, entry.1),
                                ) > 0);
                                assert(pre.entries().count((entry.0@, entry.1)) > 0);
                                assert(w == entry.1);
                                assert(entries_of(old_slots.subrange(0, i as int + 1)).count(
                                    (entry.0@, w),
                                ) >= 2);
                                assert(false);
                            }
                        }
                        let ghost inserted = (entry.0@, entry.1);
                        new_map.insert_no_grow(entry.0, entry.1);
                        proof {
                            assert(pre.slot_entries()[i as int] == Some((entry.0@, entry.1)));
                            assert(new_map.entries().count(inserted) > 0);
                            assert forall|k: K::V, v: V| #[trigger]
                                entries_of(old_slots.subrange(0, i as int + 1)).count((k, v)) > 0 implies exists|w: V|
                                    new_map.entries().count((k, w)) > 0 by {
                                if k == inserted.0 {
                                    assert(new_map.entries().count(inserted) > 0);
                                } else {
                                    assert(entries_of(old_slots.subrange(0, i as int)).count((k, v)) > 0);
                                    let w = choose|w: V| mid.entries().count((k, w)) > 0;
                                    assert(new_map.entries().count((k, w)) > 0);
                                }
                            }
                            assert forall|e: (K::V, V)| #[trigger] new_map.entries().count(e)
                                <= entries_of(old_slots.subrange(0, i as int + 1)).count(e) by {
                                assert(mid.entries().count(e) <= entries_of(
                                    old_slots.subrange(0, i as int),
                                ).count(e));
                            }
                            if pre.unique_keys() {
                                assert(new_map.entries() =~= entries_of(
                                    old_slots.subrange(0, i as int + 1),
                                ));
                            }
                        }
                    },
                    None => {},
                }
                self.ctrl.set(i, EMPTY);
            } else {
                proof {
                    assert(pre.slot_ok(i as int));
                    Self::lemma_tag(pre.key_at(i as int));
                    assert(old_slots[i as int] is None);
                    assert(entries_of(old_slots.subrange(0, i as int + 1)) =~= entries_of(
                        old_slots.subrange(0, i as int),
                    ));
                }
            }
            proof {
                if old_slots[i as int] is None {
                    assert(pre.slot_entries()[i as int] == None::<(K::V, V)>);
                }
                let old_steps = steps;
                steps = steps.push(new_map);
                assert forall|x: int|
                    0 <= x < i + 1 implies #[trigger] Self::rebuild_step(
                    steps[x],
                    steps[x + 1],
                    pre.slot_entries()[x],
                ) by {
                    if x < i {
                        assert(steps[x] == old_steps[x] && steps[x + 1] == old_steps[x + 1]);
                    }
                }
            }
            i = i + 1;
        }
        proof {
            assert(old_slots.subrange(0, n) =~= old_slots);
        }
        proof {
            assert(pre.rebuilds_through(steps));
        }
        *self = new_map;
        assert(steps[steps.len() - 1] == *self);
    }

    /// Inserts `value` under `key`. When the table is three quarters full,
    /// or the next insertion would use up the room left, the entries first
    /// move to a table twice as large.
    ///
    /// The search from the key's home stores the entry in the first empty
    /// slot of the first group that has one, else in the first deleted slot
    /// of that group; only when it meets an entry for `key` in a full group
    /// before either does it overwrite that entry's value. An entry already
    /// held for `key` elsewhere stays, and a lookup finds whichever of the
    /// two comes first.
    pub fn insert(&mut self, key: K, value: V)
        requires
            old(self).wf(),
            old(self).grows_on_insert() ==> old(self).buckets() * 4 <= usize::MAX + 1,
        ensures
            final(self).wf(),
            final(self).buckets() == (if old(self).grows_on_insert() {
                if old(self).buckets() == 0 {
                    8
                } else {
                    2 * old(self).buckets()
                }
            } else {
                old(self).buckets()
            }),
            forall|k2: K::V| #[trigger]
                final(self)@.contains_key(k2) == (old(self)@.contains_key(k2) || k2 == key@),
            forall|k2: K::V| #[trigger]
                final(self)@.contains_key(k2) && k2 != key@ ==> old(self).entries().count(
                    (k2, final(self)@[k2]),
                ) > 0,
            !old(self)@.contains_key(key@) ==> final(self)@[key@] == value,
            old(self).grows_on_insert() ==> exists|steps: Seq<Self>|
                old(self).rebuilds_through(steps) && steps[steps.len() - 1].inserts_to(
                    final(self),
                    key@,
                    value,
                ),
            !old(self).grows_on_insert() ==> old(self).inserts_to(final(self), key@, value),
            final(self).growth_left() + final(self).entries().len() == (if old(
                self,
            ).grows_on_insert() {
                final(self).buckets()
            } else {
                old(self).growth_left() + old(self).entries().len()
            }),
            final(self).entries().count((key@, value)) > 0,
            forall|e: (K::V, V)| #[trigger]
                final(self).entries().count(e) <= old(self).entries().insert((key@, value)).count(e),
            !old(self).grows_on_insert() && old(self).replaces(key@) ==> final(self).entries()
                == old(self).entries().remove((key@, old(self)@[key@])).insert((key@, value))
                && final(self)@ == old(self)@.insert(key@, value),
            !old(self).grows_on_insert() && !old(self).replaces(key@) ==> final(self).entries()
                == old(self).entries().insert((key@, value)) && final(self)@.remove(key@) == old(
                self,
            )@.remove(key@) && final(self)@[key@] == (if old(self)@.contains_key(key@) && old(
                self,
            ).found_position(key@) < old(self).insert_position(key@) {
                old(self)@[key@]
            } else {
                value
            }),
            !old(self)@.contains_key(key@) && (old(self).unique_keys()
                || !old(self).grows_on_insert()) ==> final(self).entries() == old(
                self,
            ).entries().insert((key@, value)) && final(self)@ == old(self)@.insert(key@, value),
            old(self).unique_keys() && !old(self)@.contains_key(key@) ==> final(self).unique_keys(),
            old(self).unique_keys() || !old(self).grows_on_insert() ==> final(self)@.remove(key@)
                == old(self)@.remove(key@) && (final(self)@[key@] == value || old(self)@.contains_key(
                key@,
            ) && final(self)@[key@] == old(self)@[key@]),
    {
        let ghost pre = *self;
        let ghost k = key@;
        proof {
            pre.lemma_view_entries();
            pre.lemma_items_bound();
        }
        if (self.items as u128) * 8 >= (self.bucket_mask as u128 + 1) * 7 || self.items + 1
            >= self.growth_left {
            self.resize();
        }
        let ghost mid = *self;
        proof {
            mid.lemma_view_entries();
            if !pre@.contains_key(k) && mid@.contains_key(k) {
                assert(mid.entries().count((k, mid@[k])) > 0);
                assert(pre.entries().count((k, mid@[k])) > 0);
            }
            if mid.replaces(k) {
                mid.lemma_replaces_contains(k);
            }
            if pre.unique_keys() && !pre@.contains_key(k) {
                if pre.grows_on_insert() {
                    Self::lemma_same_entries_same_view(&pre, &mid);
                }
                if mid.replaces(k) {
                    mid.lemma_replaces_contains(k);
                    let w = mid@[k];
                    assert(mid.entries().count((k, w)) > 0);
                    assert(pre.entries().count((k, w)) > 0);
                }
            }
        }
        proof {
            if pre.unique_keys() && pre.grows_on_insert() {
                Self::lemma_same_entries_same_view(&pre, &mid);
            }
        }
        self.insert_no_grow(key, value);
        proof {
            if pre.unique_keys() || !pre.grows_on_insert() {
                assert(mid@ == pre@);
                if mid.replaces(k) {
                    assert(self@.remove(k) =~= mid@.remove(k));
                }
            }
            self.lemma_view_entries();
            assert(self.entries().count((k, value)) > 0);
            assert forall|k2: K::V| #[trigger]
                self@.contains_key(k2) == (pre@.contains_key(k2) || k2 == k) by {
                if k2 != k {
                    if pre@.contains_key(k2) {
                        assert(pre.entries().count((k2, pre@[k2])) > 0);
                        let w = choose|w: V| mid.entries().count((k2, w)) > 0;
                        assert(mid.entries().count((k2, w)) > 0);
                        assert(self.entries().count((k2, w)) > 0);
                    }
                    if self@.contains_key(k2) {
                        assert(self.entries().count((k2, self@[k2])) > 0);
                        assert(pre.entries().count((k2, self@[k2])) > 0);
                    }
                }
            }
            assert forall|k2: K::V| #[trigger] self@.contains_key(k2) && k2 != k implies pre.entries().count(
                (k2, self@[k2]),
            ) > 0 by {
                assert(self.entries().count((k2, self@[k2])) > 0);
            }
            if !pre@.contains_key(k) && (pre.unique_keys() || !pre.grows_on_insert()) {
                assert(mid@ == pre@ || !pre.grows_on_insert());
                assert(!mid@.contains_key(k));
                assert(!mid.replaces(k));
                assert forall|k2: K::V| #[trigger] self@.contains_key(k2) == pre@.insert(k, value).contains_key(k2) by {
                    if k2 != k {
                        assert(self@.remove(k).contains_key(k2) == mid@.remove(k).contains_key(k2));
                    }
                }
                assert forall|k2: K::V| #[trigger] self@.contains_key(k2) implies self@[k2] == pre@.insert(k, value)[k2] by {
                    if k2 != k {
                        assert(self@.remove(k)[k2] == mid@.remove(k)[k2]);
                    }
                }
                assert(self@ =~= pre@.insert(k, value));
                if pre.unique_keys() {
                    law_get_after_insert(&pre, self, k, value);
                }
            }
        }
    }

    /// The text shown for slot `i`, given the texts of its key and value.
    pub open spec fn slot_text(&self, i: int, key_text: Seq<char>, value_text: Seq<char>) -> Seq<char> {
        let c = self.control()[i];
        "group "@ + decimal_text(i as nat) + ": "@ + (if c == EMPTY {
            "empty"@
        } else if c == DELETED {
            "deleted"@
        } else {
            "occupied (tag: "@ + decimal_text(c as nat) + "): "@ + key_text + " => "@ + value_text
        }) + "\n"@
    }

    /// The text shown for the first `m` slots.
    pub open spec fn slots_text(&self, m: int, key_texts: Seq<String>, value_texts: Seq<String>) -> Seq<
        char,
    >
        decreases m,
    {
        if m <= 0 {
            Seq::empty()
        } else {
            self.slots_text(m - 1, key_texts, value_texts) + self.slot_text(
                m - 1,
                key_texts[m - 1]@,
                value_texts[m - 1]@,
            )
        }
    }

    /// Whether `key_texts` and `value_texts` hold, for each slot with an
    /// entry, the texts that the key's and the value's `Display` give.
    pub open spec fn shown_entries(&self, key_texts: Seq<String>, value_texts: Seq<String>) -> bool
        where K: std::fmt::Display, V: std::fmt::Display
    {
        &&& key_texts.len() == self.buckets()
        &&& value_texts.len() == self.buckets()
        &&& forall|i: int|
            0 <= i < self.buckets() && #[trigger] self.stored()[i] is Some ==> {
                &&& vstd::string::to_string_from_display_ensures::<K>(
                    &(self.stored()[i]->0).0,
                    key_texts[i],
                )
                &&& vstd::string::to_string_from_display_ensures::<V>(
                    &(self.stored()[i]->0).1,
                    value_texts[i],
                )
            }
    }

    /// A picture of the table, one line per slot: `group i: empty`,
    /// `group i: deleted`, or `group i: occupied (tag: t): key => value`,
    /// between a line `{` and a line `}`.
    #[verifier::rlimit(40)]
    pub fn to_string(&self) -> (text: String)
        where K: std::fmt::Display, V: std::fmt::Display
        requires
            self.wf(),
        ensures
            exists|key_texts: Seq<String>, value_texts: Seq<String>|
                #![trigger self.slots_text(self.buckets() as int, key_texts, value_texts)]
                self.shown_entries(key_texts, value_texts) && text@ == "{\n"@ + self.slots_text(
                    self.buckets() as int,
                    key_texts,
                    value_texts,
                ) + "}\n"@,
    {
        let mut text = String::from_str("{\n");
        let ghost mut key_texts: Seq<String> = Seq::empty();
        let ghost mut value_texts: Seq<String> = Seq::empty();
        let mut i: usize = 0;
        while i < self.ctrl.len()
            invariant
                self.wf(),
                i <= self.buckets(),
                key_texts.len() == i,
                value_texts.len() == i,
                forall|j: int|
                    0 <= j < i && #[trigger] self.slots@[j] is Some ==> {
                        &&& vstd::string::to_string_from_display_ensures::<K>(
                            &(self.slots@[j]->0).0,
                            key_texts[j],
                        )
                        &&& vstd::string::to_string_from_display_ensures::<V>(
                            &(self.slots@[j]->0).1,
                            value_texts[j],
                        )
                    },
                text@ == "{\n"@ + self.slots_text(i as int, key_texts, value_texts),
            decreases self.buckets() - i,
        {
            let ghost before = text@;
            text.append("group ");
            push_decimal(&mut text, i);
            text.append(": ");
            let c = self.ctrl[i];
            proof {
                assert(self.slot_ok(i as int));
                if self.slots@[i as int] is Some {
                    Self::lemma_tag(self.key_at(i as int));
                }
            }
            let ghost mut key_text: String = arbitrary();
            let ghost mut value_text: String = arbitrary();
            if c == EMPTY {
                text.append("empty");
            } else if c == DELETED {
                text.append("deleted");
            } else {
                proof {
                    assert(self.slot_ok(i as int));
                }
                match &self.slots[i] {
                    Some(entry) => {
                        let shown_key = entry.0.to_string();
                        let shown_value = entry.1.to_string();
                        proof {
                            key_text = shown_key;
                            value_text = shown_value;
                        }
                        text.append("occupied (tag: ");
                        push_decimal(&mut text, c as usize);
                        text.append("): ");
                        text.append(shown_key.as_str());
                        text.append(" => ");
                        text.append(shown_value.as_str());
                    },
                    None => {},
                }
            }
            text.append("\n");
            proof {
                let line = self.slot_text(i as int, key_text@, value_text@);
                assert(text@ =~= before + line);
                let kt = key_texts.push(key_text);
                let vt = value_texts.push(value_text);
                assert(kt[i as int] == key_text);
                assert(vt[i as int] == value_text);
                assert forall|m: int| 0 <= m <= i implies #[trigger] self.slots_text(m, kt, vt)
                    == self.slots_text(m, key_texts, value_texts) by {
                    self.lemma_slots_text_prefix(m, i as int, key_texts, value_texts, key_text, value_text);
                }
                assert(self.slots_text(i as int + 1, kt, vt) == self.slots_text(i as int, kt, vt)
                    + line);
                assert(text@ =~= "{\n"@ + self.slots_text(i as int + 1, kt, vt));
                key_texts = kt;
                value_texts = vt;
            }
            i = i + 1;
        }
        text.append("}\n");
        proof {
            assert(self.shown_entries(key_texts, value_texts));
        }
        text
    }

    /// The text of the first `m` slots depends only on their own texts.
    proof fn lemma_slots_text_prefix(
        &self,
        m: int,
        i: int,
        key_texts: Seq<String>,
        value_texts: Seq<String>,
        key_text: String,
        value_text: String,
    )
        requires
            0 <= m <= i,
            key_texts.len() == i,
            value_texts.len() == i,
        ensures
            self.slots_text(m, key_texts.push(key_text), value_texts.push(value_text))
                == self.slots_text(m, key_texts, value_texts),
        decreases m,
    {
        if m > 0 {
            self.lemma_slots_text_prefix(m - 1, i, key_texts, value_texts, key_text, value_text);
        }
    }

    /// The hash of `key`.
    fn hash(&self, key: &K) -> (h: usize)
        ensures
            h == Self::spec_hash(key@),
    {
        key.key_hash() as usize
    }

    /// The eight control bytes from slot `index` on, wrapping around the end
    /// of the table, packed most significant byte first.
    fn get_group_bytes(&self, index: usize) -> (group: u64)
        requires
            self.wf(),
            self.buckets() > 0,
            index < self.buckets(),
        ensures
            forall|i: u8|
                i < 8 ==> #[trigger] group_byte(group, i) == self.ctrl@[wrap_index(
                    index + i,
                    self.buckets() as int,
                )],
    {
        let ghost n = self.buckets() as int;
        let mut group_bytes: u64 = 0;
        let mut i: u8 = 0;
        proof {
            assert forall|j: u8| j < 8 implies #[trigger] group_byte(group_bytes, j) == 0 by {
                lemma_zero_group_byte(j, 0);
            }
        }
        while i < 8
            invariant
                self.wf(),
                n == self.buckets(),
                n > 0,
                index < n,
                i <= 8,
                forall|j: u8|
                    j < i ==> #[trigger] group_byte(group_bytes, j) == self.ctrl@[wrap_index(
                        index + j,
                        n,
                    )],
                forall|j: u8| i <= j < 8 ==> #[trigger] group_byte(group_bytes, j) == 0,
            decreases 8 - i,
        {
            let position = (index + i as usize) & self.bucket_mask;
            proof {
                lemma_wrap_mask((index + i as usize) as usize, (self.bucket_mask + 1) as usize);
            }
            let byte = self.ctrl[position];
            let shift: u64 = ((7 - i) * 8) as u64;
            let next = group_bytes | ((byte as u64) << shift);
            proof {
                assert forall|j: u8| j < 8 implies #[trigger] group_byte(next, j) == (if j == i {
                    byte
                } else {
                    group_byte(group_bytes, j)
                }) by {
                    lemma_or_group_byte(group_bytes, byte, i, j);
                    lemma_zero_group_byte(j, byte);
                }
            }
            group_bytes = next;
            i = i + 1;
        }
        group_bytes
    }

    /// A mask with bit `7 - i` set exactly when byte `i` of `group_bytes`
    /// equals `tag`.
    pub fn match_group(&self, group_bytes: u64, tag: u8) -> (mask: u8)
        ensures
            forall|i: u8| i < 8 ==> (#[trigger] mask_bit(mask, i) <==> group_byte(group_bytes, i) == tag),
    {
        let match_mask = group_bytes ^ (tag as u64 * 0x0101010101010101);
        assert(match_mask == group_bytes ^ repeat_byte(tag)) by {
            assert(tag as u64 * 0x0101010101010101u64 <= u64::MAX);
        }
        let mut result: u8 = 0;
        let mut i: u8 = 0;
        proof {
            assert forall|j: u8| j < 8 implies !#[trigger] mask_bit(result, j) by {
                lemma_zero_mask(j);
            }
        }
        while i < 8
            invariant
                i <= 8,
                match_mask == group_bytes ^ repeat_byte(tag),
                forall|j: u8|
                    j < i ==> (#[trigger] mask_bit(result, j) <==> group_byte(group_bytes, j) == tag),
                forall|j: u8| i <= j < 8 ==> !#[trigger] mask_bit(result, j),
            decreases 8 - i,
        {
            proof {
                lemma_match_byte(group_bytes, tag, i);
            }
            if (match_mask & (0xFFu64 << (((7 - i) * 8) as u64))) == 0 {
                let next = result | (1u8 << (7 - i));
                proof {
                    assert forall|j: u8| j < 8 implies #[trigger] mask_bit(next, j) == (mask_bit(
                        result,
                        j,
                    ) || i == j) by {
                        lemma_set_mask_bit(result, i, j);
                    }
                }
                result = next;
            }
            i = i + 1;
        }
        result
    }
}

/// Every entry the table holds is found by a lookup of its key, and what a
/// lookup finds is an entry the table holds; when no key is in two entries,
/// a lookup gives each entry's own value.
pub proof fn law_lookup_finds_entries<K: HashKey, V>(m: &HashMap<K, V>)
    requires
        m.wf(),
    ensures
        forall|k: K::V, v: V| #[trigger] m.entries().count((k, v)) > 0 ==> m@.contains_key(k),
        forall|k: K::V| #[trigger] m@.contains_key(k) ==> m.entries().count((k, m@[k])) > 0,
        m.unique_keys() ==> forall|k: K::V, v: V| #[trigger]
            m.entries().count((k, v)) > 0 ==> m@[k] == v,
{
    m.lemma_view_entries();
}

/// The line shown for slot `i` starts with `group `, then the decimal numeral
/// of `i` itself (digits that read back as `i`), then `:`; so the lines of a
/// table are labelled `0`, `1`, ... in slot order, each with its own label.
pub proof fn law_slot_line_label<K: HashKey, V>(
    m: &HashMap<K, V>,
    i: int,
    key_text: Seq<char>,
    value_text: Seq<char>,
)
    requires
        0 <= i,
    ensures
        ({
            let d = decimal_text(i as nat);
            let line = m.slot_text(i, key_text, value_text);
            &&& line.len() > 7 + d.len()
            &&& line.subrange(0, 6) == "group "@
            &&& line.subrange(6, 6 + d.len() as int) == d
            &&& forall|j: int| 6 <= j < 6 + d.len() ==> is_digit_char(#[trigger] line[j])
            &&& decimal_value(line.subrange(6, 6 + d.len() as int)) == i
            &&& line[6 + d.len() as int] as int == 58
            &&& line.last() as int == 10
        }),
{
    reveal_strlit("group ");
    reveal_strlit(": ");
    reveal_strlit("\n");
    law_decimal_text(i as nat);
    let d = decimal_text(i as nat);
    let c = m.control()[i];
    let body = if c == EMPTY {
        "empty"@
    } else if c == DELETED {
        "deleted"@
    } else {
        "occupied (tag: "@ + decimal_text(c as nat) + "): "@ + key_text + " => "@ + value_text
    };
    let line = m.slot_text(i, key_text, value_text);
    assert(line == "group "@ + d + ": "@ + body + "\n"@);
    assert(line.subrange(0, 6) =~= "group "@);
    assert(line.subrange(6, 6 + d.len() as int) =~= d);
    assert forall|j: int| 6 <= j < 6 + d.len() implies is_digit_char(#[trigger] line[j]) by {
        assert(line[j] == d[j - 6]);
    }
    assert(line[6 + d.len() as int] == ": "@[0]);
}

/// Slots with different indices get lines with different labels: the text
/// up to the label's end differs.
pub proof fn law_slot_lines_distinct<K: HashKey, V>(
    m: &HashMap<K, V>,
    i: int,
    j: int,
    key_text: Seq<char>,
    value_text: Seq<char>,
)
    requires
        0 <= i,
        0 <= j,
        i != j,
    ensures
        m.slot_text(i, key_text, value_text).subrange(0, 6 + decimal_text(i as nat).len() as int)
            != m.slot_text(j, key_text, value_text).subrange(
            0,
            6 + decimal_text(j as nat).len() as int,
        ),
{
    law_slot_line_label(m, i, key_text, value_text);
    law_slot_line_label(m, j, key_text, value_text);
    let a = m.slot_text(i, key_text, value_text).subrange(0, 6 + decimal_text(i as nat).len() as int);
    let b = m.slot_text(j, key_text, value_text).subrange(0, 6 + decimal_text(j as nat).len() as int);
    if a == b {
        assert(a.subrange(6, a.len() as int) =~= decimal_text(i as nat));
        assert(b.subrange(6, b.len() as int) =~= decimal_text(j as nat));
        crate::decimal::law_decimal_text_distinct(i as nat, j as nat);
    }
}

/// In the text of the first `n` slots, the line of slot `i` comes right after
/// the lines of the slots before it: the slots are shown in order, each once.
pub proof fn law_slot_line_position<K: HashKey, V>(
    m: &HashMap<K, V>,
    n: int,
    i: int,
    key_texts: Seq<String>,
    value_texts: Seq<String>,
)
    requires
        0 <= i < n,
    ensures
        ({
            let start = m.slots_text(i, key_texts, value_texts).len() as int;
            let line = m.slot_text(i, key_texts[i]@, value_texts[i]@);
            &&& start + line.len() <= m.slots_text(n, key_texts, value_texts).len()
            &&& m.slots_text(n, key_texts, value_texts).subrange(start, start + line.len() as int)
                == line
        }),
    decreases n,
{
    let whole = m.slots_text(n, key_texts, value_texts);
    let before = m.slots_text(n - 1, key_texts, value_texts);
    let last = m.slot_text(n - 1, key_texts[n - 1]@, value_texts[n - 1]@);
    assert(whole == before + last);
    if i == n - 1 {
        assert(whole.subrange(before.len() as int, (before.len() + last.len()) as int) =~= last);
    } else {
        law_slot_line_position(m, n - 1, i, key_texts, value_texts);
        let start = m.slots_text(i, key_texts, value_texts).len() as int;
        let line = m.slot_text(i, key_texts[i]@, value_texts[i]@);
        assert(whole.subrange(start, start + line.len() as int) =~= before.subrange(
            start,
            start + line.len() as int,
        ));
    }
}

/// How a table lays out its slots: one control byte and one slot per bucket,
/// each slot seen by its key's view in `slot_entries` and as stored in `stored`;
/// a key's home slot is its hash masked to the table, so it lies in the table;
/// its tag is the low seven bits of its hash, so it is
/// neither `EMPTY` nor `DELETED`; a slot holding an entry has its key's tag as
/// control byte, and a slot without one has `EMPTY` or `DELETED`.
pub proof fn law_table_layout<K: HashKey, V>(m: &HashMap<K, V>)
    requires
        m.wf(),
    ensures
        m.control().len() == m.buckets(),
        m.slot_entries().len() == m.buckets(),
        m.stored().len() == m.buckets(),
        forall|j: int|
            0 <= j < m.buckets() ==> #[trigger] m.slot_entries()[j] == entry_view(m.stored()[j]),
        m.buckets() > 0 ==> forall|k: K::V| 0 <= #[trigger] m.home_slot(k) < m.buckets(),
        m.buckets() > 0 ==> forall|k: K::V| #[trigger]
            m.home_slot(k) == (K::spec_hash(k) as usize & ((m.buckets() - 1) as usize)) as int,
        forall|k: K::V| #[trigger] m.tag_of(k) == (K::spec_hash(k) as usize & 0x7F) as u8,
        forall|k: K::V| #[trigger] m.tag_of(k) < 0x80,
        forall|k: K::V| #[trigger] m.tag_of(k) != EMPTY && m.tag_of(k) != DELETED,
        forall|j: int|
            0 <= j < m.buckets() && (#[trigger] m.slot_entries()[j]) is Some ==> m.control()[j]
                == m.tag_of((m.slot_entries()[j]->0).0),
        forall|j: int|
            0 <= j < m.buckets() && (#[trigger] m.slot_entries()[j]) is None ==> m.control()[j]
                == EMPTY || m.control()[j] == DELETED,
{
    if m.buckets() > 0 {
        assert forall|k: K::V| 0 <= #[trigger] m.home_slot(k) < m.buckets() by {
            m.lemma_home(k);
        }
    }
    assert forall|k: K::V| #[trigger] m.tag_of(k) < 0x80 && m.tag_of(k) != EMPTY && m.tag_of(k)
        != DELETED by {
        HashMap::<K, V>::lemma_tag(k);
    }
    assert forall|j: int| 0 <= j < m.buckets() implies #[trigger] m.slot_entries()[j] == entry_view(
        m.slots@[j],
    ) && m.slot_ok(j) by {}
}

/// When no key is in two entries, the entries decide every lookup: the view
/// holds exactly the entries' keys, each with its entry's value.
proof fn lemma_view_of_unique<K: HashKey, V>(m: &HashMap<K, V>, view: Map<K::V, V>)
    requires
        m.wf(),
        m.unique_keys(),
        forall|k: K::V, v: V| #[trigger] m.entries().count((k, v)) > 0 ==> view.contains_key(k) && view[k] == v,
        forall|k: K::V| #[trigger] view.contains_key(k) ==> m.entries().count((k, view[k])) > 0,
    ensures
        m@ == view,
{
    m.lemma_view_entries();
    assert forall|k: K::V| #[trigger] m@.contains_key(k) == view.contains_key(k) by {
        if m@.contains_key(k) {
            assert(m.entries().count((k, m@[k])) > 0);
        }
        if view.contains_key(k) {
            assert(m.entries().count((k, view[k])) > 0);
        }
    }
    assert forall|k: K::V| #[trigger] m@.contains_key(k) implies m@[k] == view[k] by {
        assert(m.entries().count((k, m@[k])) > 0);
    }
    assert(m@ =~= view);
}

/// Adding an entry for a key that was absent, to a table without repeated
/// keys, as `insert` does, keeps keys unique; a lookup of the key then gives
/// the new value and every other key looks up as before.
pub proof fn law_get_after_insert<K: HashKey, V>(
    before: &HashMap<K, V>,
    after: &HashMap<K, V>,
    key: K::V,
    value: V,
)
    requires
        before.wf(),
        before.unique_keys(),
        !before@.contains_key(key),
        after.wf(),
        after.entries() == before.entries().insert((key, value)),
    ensures
        after.unique_keys(),
        after@ == before@.insert(key, value),
{
    before.lemma_view_entries();
    assert forall|k: K::V, v1: V, v2: V|
        #![trigger after.entries().count((k, v1)), after.entries().count((k, v2))]
        after.entries().count((k, v1)) > 0 && after.entries().count((k, v2)) > 0 implies v1 == v2
            && after.entries().count((k, v1)) == 1 by {
        if k == key {
            assert(before.entries().count((key, v1)) == 0);
            assert(before.entries().count((key, v2)) == 0);
        }
    }
    let view = before@.insert(key, value);
    assert forall|k: K::V, v: V| #[trigger] after.entries().count((k, v)) > 0 implies view.contains_key(k)
        && view[k] == v by {
        if k == key {
            assert(before.entries().count((key, v)) == 0);
        } else {
            assert(before.entries().count((k, v)) > 0);
        }
    }
    assert forall|k: K::V| #[trigger] view.contains_key(k) implies after.entries().count((k, view[k])) > 0 by {
        if k != key {
            assert(before.entries().count((k, before@[k])) > 0);
        }
    }
    lemma_view_of_unique(after, view);
}

/// Taking out the entry a lookup finds for a key, from a table without
/// repeated keys, as `remove` does, keeps keys unique; the key is then absent
/// and every other key looks up as before.
pub proof fn law_get_after_remove<K: HashKey, V>(
    before: &HashMap<K, V>,
    after: &HashMap<K, V>,
    key: K::V,
)
    requires
        before.wf(),
        before.unique_keys(),
        before@.contains_key(key),
        after.wf(),
        after.entries() == before.entries().remove((key, before@[key])),
    ensures
        after.unique_keys(),
        after@ == before@.remove(key),
{
    before.lemma_view_entries();
    let w = before@[key];
    assert(before.entries().count((key, w)) == 1);
    assert forall|e: (K::V, V)| #[trigger] after.entries().count(e) <= before.entries().count(e) by {}
    let view = before@.remove(key);
    assert forall|k: K::V, v: V| #[trigger] after.entries().count((k, v)) > 0 implies view.contains_key(k)
        && view[k] == v by {
        assert(before.entries().count((k, v)) > 0);
        if k == key {
            assert(v == w);
        }
    }
    assert forall|k: K::V| #[trigger] view.contains_key(k) implies after.entries().count((k, view[k])) > 0 by {
        assert(before.entries().count((k, before@[k])) > 0);
    }
    lemma_view_of_unique(after, view);
}

/// Inserting a key that was absent and then removing it gives back the
/// entries and the lookups from before, whenever the insertion adds one entry
/// that a lookup then finds, as `insert` does unless it grows a table in which
/// some key is held twice; `remove` then takes out that entry.
pub proof fn law_insert_then_remove<K: HashKey, V>(
    before: &HashMap<K, V>,
    middle: &HashMap<K, V>,
    after: &HashMap<K, V>,
    key: K::V,
    value: V,
)
    requires
        before.wf(),
        !before@.contains_key(key),
        middle.wf(),
        middle.entries() == before.entries().insert((key, value)),
        middle@ == before@.insert(key, value),
        after.wf(),
        after.entries() == middle.entries().remove((key, middle@[key])),
        after@.remove(key) == middle@.remove(key),
    ensures
        after.entries() == before.entries(),
        after@ == before@,
{
    before.lemma_view_entries();
    after.lemma_view_entries();
    assert(after.entries() =~= before.entries());
    assert forall|v: V| after.entries().count((key, v)) == 0 by {
        if before.entries().count((key, v)) > 0 {
            assert(before@.contains_key(key));
        }
    }
    if after@.contains_key(key) {
        assert(after.entries().count((key, after@[key])) > 0);
    }
    assert(after@ =~= after@.remove(key));
    assert(before@.insert(key, value).remove(key) =~= before@);
}

/// Swapping the entry of a present key for one with a new value, in a table
/// without repeated keys, keeps keys unique.
proof fn lemma_overwrite_keeps_unique<K: HashKey, V>(
    before: &HashMap<K, V>,
    after: &HashMap<K, V>,
    key: K::V,
    value: V,
)
    requires
        before.wf(),
        before.unique_keys(),
        before@.contains_key(key),
        after.entries() == before.entries().remove((key, before@[key])).insert((key, value)),
    ensures
        after.unique_keys(),
{
    before.lemma_view_entries();
    let w = before@[key];
    assert(before.entries().count((key, w)) == 1);
    assert forall|k: K::V, v1: V, v2: V|
        #![trigger after.entries().count((k, v1)), after.entries().count((k, v2))]
        after.entries().count((k, v1)) > 0 && after.entries().count((k, v2)) > 0 implies v1 == v2
            && after.entries().count((k, v1)) == 1 by {
        if k == key {
            if v1 != value {
                assert(before.entries().count((key, v1)) > 0);
                assert(v1 == w);
            }
            if v2 != value {
                assert(before.entries().count((key, v2)) > 0);
                assert(v2 == w);
            }
        } else {
            assert(before.entries().count((k, v1)) > 0);
            assert(before.entries().count((k, v2)) > 0);
        }
    }
}

/// The map a history of calls gives, starting from no entries: `(k, Some(v))`
/// inserts `v` under `k`, `(k, None)` removes `k`.
pub open spec fn replay_map<KV, V>(ops: Seq<(KV, Option<V>)>) -> Map<KV, V>
    decreases ops.len(),
{
    if ops.len() == 0 {
        Map::empty()
    } else {
        let before = replay_map(ops.drop_last());
        match ops.last().1 {
            Some(v) => before.insert(ops.last().0, v),
            None => before.remove(ops.last().0),
        }
    }
}

/// Whether one call takes table `before` to table `after`, as the contracts
/// of `insert` and `remove` say: `(k, Some(v))` is `insert(k, v)`,
/// `(k, None)` is `remove(&k)` returning `result`.
pub open spec fn map_step<K: HashKey, V>(
    before: HashMap<K, V>,
    after: HashMap<K, V>,
    op: (K::V, Option<V>),
    result: Option<V>,
) -> bool {
    let k = op.0;
    &&& after.wf()
    &&& match op.1 {
        Some(v) => {
            &&& !before@.contains_key(k) && before.unique_keys() ==> after.entries()
                == before.entries().insert((k, v)) && after@ == before@.insert(k, v)
            &&& !before.grows_on_insert() && before.replaces(k) ==> after.entries()
                == before.entries().remove((k, before@[k])).insert((k, v)) && after@
                == before@.insert(k, v)
        },
        None => {
            &&& result is Some <==> before@.contains_key(k)
            &&& result matches Some(w) ==> w == before@[k] && after.entries()
                == before.entries().remove((k, w))
            &&& result is None ==> after.entries() == before.entries() && after@ == before@
        },
    }
}

/// Whether a call in a history stores a key only where a lookup then finds
/// it alone: an insertion of a key that is absent, or one that overwrites the
/// entry of a present key without growing the table. Any removal qualifies.
pub open spec fn keeps_one_entry_per_key<K: HashKey, V>(
    before: HashMap<K, V>,
    op: (K::V, Option<V>),
) -> bool {
    op.1 is Some ==> !before@.contains_key(op.0) || (!before.grows_on_insert() && before.replaces(
        op.0,
    ))
}

/// A table built from an empty one by `insert` and `remove` calls looks up
/// every key as the history replays it, as long as no insertion leaves a
/// second entry for a key behind (an insertion of a present key that does
/// not overwrite would): `states[i]` is the table before call `i`, `ops[i]`
/// and `results[i]` what that call did and returned.
pub proof fn law_get_over_history<K: HashKey, V>(
    states: Seq<HashMap<K, V>>,
    ops: Seq<(K::V, Option<V>)>,
    results: Seq<Option<V>>,
)
    requires
        states.len() == ops.len() + 1,
        results.len() == ops.len(),
        states[0].wf(),
        states[0].entries() == Multiset::<(K::V, V)>::empty(),
        forall|i: int|
            0 <= i < ops.len() ==> #[trigger] map_step(states[i], states[i + 1], ops[i], results[i]),
        forall|i: int| 0 <= i < ops.len() ==> #[trigger] keeps_one_entry_per_key(states[i], ops[i]),
    ensures
        states.last().unique_keys(),
        states.last()@ == replay_map(ops),
    decreases ops.len(),
{
    if ops.len() == 0 {
        let m = states[0];
        m.lemma_view_entries();
        assert(m@ =~= Map::<K::V, V>::empty());
    } else {
        let n = ops.len() - 1;
        let pre_states = states.drop_last();
        let pre_ops = ops.drop_last();
        let pre_results = results.drop_last();
        assert forall|i: int| 0 <= i < pre_ops.len() implies #[trigger] map_step(
            pre_states[i],
            pre_states[i + 1],
            pre_ops[i],
            pre_results[i],
        ) by {
            assert(map_step(states[i], states[i + 1], ops[i], results[i]));
        }
        assert forall|i: int| 0 <= i < pre_ops.len() implies #[trigger] keeps_one_entry_per_key(
            pre_states[i],
            pre_ops[i],
        ) by {
            assert(keeps_one_entry_per_key(states[i], ops[i]));
        }
        law_get_over_history(pre_states, pre_ops, pre_results);
        let before = states[n];
        let after = states[n + 1];
        assert(pre_states.last() == before);
        assert(map_step(before, after, ops[n], results[n]));
        assert(keeps_one_entry_per_key(before, ops[n]));
        if n > 0 {
            let j = n - 1;
            assert(map_step(states[j], states[j + 1], ops[j], results[j]));
            assert(j + 1 == n);
        }
        let k = ops[n].0;
        match ops[n].1 {
            Some(v) => {
                if !before@.contains_key(k) {
                    law_get_after_insert(&before, &after, k, v);
                } else {
                    lemma_overwrite_keeps_unique(&before, &after, k, v);
                }
            },
            None => {
                if before@.contains_key(k) {
                    law_get_after_remove(&before, &after, k);
                } else {
                    assert(after.entries() == before.entries());
                    assert(replay_map(pre_ops).remove(k) =~= replay_map(pre_ops));
                }
            },
        }
    }
}

/// A lookup of `k` finds an entry exactly when some slot holds an entry for
/// `k`; it finds the first of them along the probe sequence from `k`'s home
/// slot, so when a key is held twice the later entry stays hidden until the
/// earlier one is removed.
pub proof fn law_lookup_finds_first_on_probe_path<K: HashKey, V>(m: &HashMap<K, V>, k: K::V)
    requires
        m.wf(),
    ensures
        m.found_position(k) == dist(m.home_slot(k), m.found_slot(k), m.buckets() as int),
        m@.contains_key(k) <==> exists|j: int|
            0 <= j < m.buckets() && #[trigger] m.slot_entries()[j] is Some && (
            m.slot_entries()[j]->0).0 == k,
        m@.contains_key(k) ==> {
            &&& 0 <= m.found_slot(k) < m.buckets()
            &&& m.slot_entries()[m.found_slot(k)] == Some((k, m@[k]))
            &&& forall|j: int|
                0 <= j < m.buckets() && #[trigger] m.slot_entries()[j] is Some && (
                m.slot_entries()[j]->0).0 == k ==> dist(
                    m.home_slot(k),
                    m.found_slot(k),
                    m.buckets() as int,
                ) <= dist(m.home_slot(k), j, m.buckets() as int)
        },
{
    assert forall|j: int| 0 <= j < m.buckets() implies #[trigger] m.slot_entries()[j] == entry_view(
        m.slots@[j],
    ) by {}
    if m@.contains_key(k) {
        let f = m.found_slot(k);
        assert(m.visible(f) && m.key_at(f) == k);
        m.lemma_view_visible(f);
        assert forall|j: int|
            0 <= j < m.buckets() && #[trigger] m.slot_entries()[j] is Some && (
            m.slot_entries()[j]->0).0 == k implies dist(m.home_slot(k), f, m.buckets() as int)
            <= dist(m.home_slot(k), j, m.buckets() as int) by {
            assert(m.has_key(j, k));
        }
        assert(m.slot_entries()[f] is Some);
    }
    if exists|j: int|
        0 <= j < m.buckets() && #[trigger] m.slot_entries()[j] is Some && (m.slot_entries()[j]->0).0
            == k {
        let j = choose|j: int|
            0 <= j < m.buckets() && #[trigger] m.slot_entries()[j] is Some && (
            m.slot_entries()[j]->0).0 == k;
        assert(m.has_key(j, k));
        m.lemma_visible_exists(j, k);
        let t = choose|t: int| m.visible(t) && m.key_at(t) == k;
        m.lemma_view_visible(t);
    }
}

/// A table whose room left and entries add up to its slots, as they do in a
/// table filled only by insertions of new keys, grows on the next insertion
/// exactly when its entries reach half its slots: a table of `b` slots takes
/// `(b - 1) / 2` new keys before it grows.
pub proof fn law_growth_schedule<K: HashKey, V>(m: &HashMap<K, V>)
    requires
        m.wf(),
        m.buckets() > 0,
        m.growth_left() + m.entries().len() == m.buckets(),
    ensures
        m.grows_on_insert() <==> 2 * m.entries().len() + 1 >= m.buckets(),
{
}

/// An insertion of `k` overwrites exactly when a lookup finds `k` and every
/// slot from `k`'s home slot up to that entry, and through the first eight
/// slots, holds an entry.
pub proof fn law_when_insert_overwrites<K: HashKey, V>(m: &HashMap<K, V>, k: K::V)
    requires
        m.wf(),
    ensures
        m.replaces(k) <==> m@.contains_key(k) && forall|d: int|
            0 <= d < m.buckets() && (d < 8 || d <= dist(
                m.home_slot(k),
                m.found_slot(k),
                m.buckets() as int,
            )) ==> (#[trigger] m.slot_entries()[slot_at(m.home_slot(k), d, m.buckets() as int)]) is Some,
{
    let n = m.buckets() as int;
    let h = m.home_slot(k);
    if m.buckets() > 0 {
        m.lemma_home(k);
    }
    if m.replaces(k) {
        m.lemma_replaces_contains(k);
        let j = choose|j: int|
            #![trigger m.visible(j)]
            m.visible(j) && m.key_at(j) == k && forall|d: int|
                0 <= d < n && (d < 8 || d <= dist(h, j, n)) ==> (#[trigger] m.slots@[slot_at(
                    h,
                    d,
                    n,
                )]) is Some;
        let f = m.found_slot(k);
        assert(m.visible(f) && m.key_at(f) == k);
        m.lemma_visible_unique(j, f);
        assert forall|d: int|
            0 <= d < n && (d < 8 || d <= dist(h, f, n)) implies (#[trigger] m.slot_entries()[slot_at(
            h,
            d,
            n,
        )]) is Some by {
            lemma_slot_dist(h, d, n);
            assert(m.slots@[slot_at(h, d, n)] is Some);
        }
    }
    if m@.contains_key(k) && forall|d: int|
        0 <= d < n && (d < 8 || d <= dist(h, m.found_slot(k), n)) ==> (#[trigger] m.slot_entries()[slot_at(
            h,
            d,
            n,
        )]) is Some {
        let f = m.found_slot(k);
        assert(m.visible(f) && m.key_at(f) == k);
        assert forall|d: int| 0 <= d < n && (d < 8 || d <= dist(h, f, n)) implies (
        #[trigger] m.slots@[slot_at(h, d, n)]) is Some by {
            lemma_slot_dist(h, d, n);
            assert(m.slot_entries()[slot_at(h, d, n)] is Some);
        }
        assert(m.replaces(k));
    }
}

/// Where an insertion of `k` that overwrites nothing stores its entry: the
/// first empty slot among the first eight from `k`'s home slot, else the first
/// deleted one among them, else the first slot without an entry after them.
pub proof fn law_insert_position<K: HashKey, V>(m: &HashMap<K, V>, k: K::V)
    requires
        m.wf(),
        m.buckets() > 0,
    ensures
        ({
            let n = m.buckets() as int;
            let h = m.home_slot(k);
            let p = m.insert_position(k);
            &&& m.insert_slot(k) == slot_at(h, p, n)
            &&& (exists|i: int| 0 <= i < 8 && #[trigger] m.control()[slot_at(h, i, n)] == EMPTY) ==> {
                &&& 0 <= p < 8
                &&& m.control()[slot_at(h, p, n)] == EMPTY
                &&& forall|i: int| 0 <= i < p ==> m.control()[#[trigger] slot_at(h, i, n)] != EMPTY
            }
            &&& (!exists|i: int| 0 <= i < 8 && #[trigger] m.control()[slot_at(h, i, n)] == EMPTY)
                && (exists|i: int| 0 <= i < 8 && #[trigger] m.control()[slot_at(h, i, n)] == DELETED)
                ==> {
                &&& 0 <= p < 8
                &&& m.control()[slot_at(h, p, n)] == DELETED
                &&& forall|i: int| 0 <= i < p ==> m.control()[#[trigger] slot_at(h, i, n)] != DELETED
            }
            &&& (!exists|i: int| 0 <= i < 8 && #[trigger] m.control()[slot_at(h, i, n)] == EMPTY)
                && (!exists|i: int| 0 <= i < 8 && #[trigger] m.control()[slot_at(h, i, n)] == DELETED)
                ==> {
                &&& 8 <= p < n
                &&& m.slot_entries()[slot_at(h, p, n)] is None
                &&& forall|d: int| 8 <= d < p ==> (#[trigger] m.slot_entries()[slot_at(h, d, n)]) is Some
            }
        }),
{
    let n = m.buckets() as int;
    let h = m.home_slot(k);
    m.lemma_home(k);
    assert forall|j: int| 0 <= j < n implies #[trigger] m.slot_entries()[j] == entry_view(m.slots@[j]) by {}
    if exists|i: int| 0 <= i < 8 && #[trigger] m.control()[slot_at(h, i, n)] == EMPTY {
        let i = choose|i: int| 0 <= i < 8 && #[trigger] m.control()[slot_at(h, i, n)] == EMPTY;
        m.lemma_first_in_group(h, EMPTY, i);
    } else if exists|i: int| 0 <= i < 8 && #[trigger] m.control()[slot_at(h, i, n)] == DELETED {
        let i = choose|i: int| 0 <= i < 8 && #[trigger] m.control()[slot_at(h, i, n)] == DELETED;
        m.lemma_first_in_group(h, DELETED, i);
        assert forall|i2: int| 0 <= i2 < 8 implies m.ctrl@[#[trigger] slot_at(h, i2, n)] != EMPTY by {
            assert(m.control()[slot_at(h, i2, n)] != EMPTY);
        }
        assert(!m.group_has(h, EMPTY));
    } else {
        assert forall|i: int| 0 <= i < 8 implies m.ctrl@[#[trigger] slot_at(h, i, n)] != EMPTY
            && m.ctrl@[slot_at(h, i, n)] != DELETED by {
            assert(m.control()[slot_at(h, i, n)] != EMPTY);
            assert(m.control()[slot_at(h, i, n)] != DELETED);
        }
        assert(!m.group_has(h, EMPTY));
        assert(!m.group_has(h, DELETED));
        lemma_count_exists(m.ctrl@, EMPTY);
        let e = choose|e: int| 0 <= e < m.ctrl@.len() && m.ctrl@[e] == EMPTY;
        lemma_dist_slot(h, e, n);
        let de = dist(h, e, n);
        if de < 8 {
            assert(m.control()[slot_at(h, de, n)] == EMPTY);
        }
        assert(m.slot_ok(e));
        if m.slots@[e] is Some {
            HashMap::<K, V>::lemma_tag(m.key_at(e));
        }
        m.lemma_first_free(h, de);
        let p = m.first_free_after_group(h);
        lemma_slot_dist(h, p, n);
        assert forall|d: int| 8 <= d < p implies (#[trigger] m.slot_entries()[slot_at(h, d, n)]) is Some by {
            lemma_slot_dist(h, d, n);
            assert(m.slots@[slot_at(h, d, n)] is Some);
        }
    }
}

} // verus!
