//! The offset map: the latest consumed offset of each topic partition.

use vstd::prelude::*;

verus! {

/// One record of the map: a topic, a partition of it, and an offset.
#[derive(Debug)]
pub struct OffsetEntry {
    pub topic: String,
    pub partition: i32,
    pub offset: i64,
}

/// The key under which an entry is stored.
pub open spec fn key_of(e: OffsetEntry) -> (Seq<char>, i32) {
    (e.topic@, e.partition)
}

/// No key occurs at two positions.
pub open spec fn distinct_keys(s: Seq<OffsetEntry>) -> bool {
    forall|i: int, j: int| 0 <= i < j < s.len() ==> key_of(#[trigger] s[i]) != key_of(#[trigger] s[j])
}

/// Some position of `s` holds key `k`.
pub open spec fn has_key(s: Seq<OffsetEntry>, k: (Seq<char>, i32)) -> bool {
    exists|i: int| 0 <= i < s.len() && key_of(#[trigger] s[i]) == k
}

/// A position of `s` that holds key `k`.
pub open spec fn position_of(s: Seq<OffsetEntry>, k: (Seq<char>, i32)) -> int {
    choose|i: int| 0 <= i < s.len() && key_of(#[trigger] s[i]) == k
}

/// The mapping that a sequence of entries stands for.
pub open spec fn entries_map(s: Seq<OffsetEntry>) -> Map<(Seq<char>, i32), i64> {
    Map::new(|k: (Seq<char>, i32)| has_key(s, k), |k: (Seq<char>, i32)| s[position_of(s, k)].offset)
}

/// With distinct keys, the entry at position `i` is the one the mapping
/// reports for its key.
pub proof fn lemma_entry_in_map(s: Seq<OffsetEntry>, i: int)
    requires
        distinct_keys(s),
        0 <= i < s.len(),
    ensures
        entries_map(s).dom().contains(key_of(s[i])),
        entries_map(s)[key_of(s[i])] == s[i].offset,
{
    let k = key_of(s[i]);
    assert(has_key(s, k));
    let p = position_of(s, k);
    assert(0 <= p < s.len() && key_of(s[p]) == k);
    if p < i {
        assert(key_of(s[p]) != key_of(s[i]));
    } else if i < p {
        assert(key_of(s[i]) != key_of(s[p]));
    }
}

/// Appending an entry under a fresh key inserts it into the mapping.
pub proof fn lemma_push_fresh(s: Seq<OffsetEntry>, e: OffsetEntry)
    requires
        distinct_keys(s),
        !has_key(s, key_of(e)),
    ensures
        distinct_keys(s.push(e)),
        entries_map(s.push(e)) == entries_map(s).insert(key_of(e), e.offset),
{
    let t = s.push(e);
    assert forall|i: int, j: int| 0 <= i < j < t.len() implies key_of(#[trigger] t[i]) != key_of(
        #[trigger] t[j],
    ) by {
        if j == s.len() {
            assert(t[i] == s[i]);
            assert(key_of(s[i]) != key_of(e));
        } else {
            assert(t[i] == s[i] && t[j] == s[j]);
        }
    }
    let m = entries_map(s).insert(key_of(e), e.offset);
    assert forall|k: (Seq<char>, i32)| entries_map(t).dom().contains(k) <==> m.dom().contains(
        k,
    ) by {
        if has_key(t, k) {
            let p = position_of(t, k);
            if p < s.len() {
                assert(key_of(s[p]) == k);
            }
        }
        if has_key(s, k) {
            let p = position_of(s, k);
            assert(key_of(t[p]) == k);
        }
        if k == key_of(e) {
            assert(key_of(t[s.len() as int]) == k);
        }
    }
    assert forall|k: (Seq<char>, i32)| entries_map(t).dom().contains(k) implies entries_map(t)[k]
        == m[k] by {
        let p = position_of(t, k);
        lemma_entry_in_map(t, p);
        if p < s.len() {
            assert(t[p] == s[p]);
            lemma_entry_in_map(s, p);
        }
    }
    assert(entries_map(t) =~= m);
}

/// Replacing the offset at position `i` overwrites the value of that key
/// and of no other.
pub proof fn lemma_overwrite(s: Seq<OffsetEntry>, i: int, e: OffsetEntry)
    requires
        distinct_keys(s),
        0 <= i < s.len(),
        key_of(e) == key_of(s[i]),
    ensures
        distinct_keys(s.update(i, e)),
        entries_map(s.update(i, e)) == entries_map(s).insert(key_of(e), e.offset),
{
    let t = s.update(i, e);
    assert forall|a: int| 0 <= a < s.len() implies key_of(#[trigger] t[a]) == key_of(s[a]) by {}
    assert forall|a: int, b: int| 0 <= a < b < t.len() implies key_of(#[trigger] t[a]) != key_of(
        #[trigger] t[b],
    ) by {
        assert(key_of(s[a]) != key_of(s[b]));
    }
    let m = entries_map(s).insert(key_of(e), e.offset);
    assert forall|k: (Seq<char>, i32)| entries_map(t).dom().contains(k) <==> m.dom().contains(
        k,
    ) by {
        if has_key(t, k) {
            let p = position_of(t, k);
            assert(key_of(s[p]) == k);
        }
        if has_key(s, k) {
            let p = position_of(s, k);
            assert(key_of(t[p]) == k);
        }
        if k == key_of(e) {
            assert(key_of(t[i]) == k);
        }
    }
    assert forall|k: (Seq<char>, i32)| entries_map(t).dom().contains(k) implies entries_map(t)[k]
        == m[k] by {
        let p = position_of(t, k);
        lemma_entry_in_map(t, p);
        if p != i {
            assert(t[p] == s[p]);
            lemma_entry_in_map(s, p);
        }
    }
    assert(entries_map(t) =~= m);
}

/// With distinct keys, the mapping has as many keys as there are entries.
pub proof fn lemma_map_len(s: Seq<OffsetEntry>)
    requires
        distinct_keys(s),
    ensures
        entries_map(s).dom().finite(),
        entries_map(s).dom().len() == s.len(),
    decreases s.len(),
{
    if s.len() == 0 {
        assert(entries_map(s).dom() =~= Set::<(Seq<char>, i32)>::empty());
    } else {
        let r = s.drop_last();
        let e = s.last();
        assert forall|i: int, j: int| 0 <= i < j < r.len() implies key_of(#[trigger] r[i]) != key_of(
            #[trigger] r[j],
        ) by {
            assert(r[i] == s[i] && r[j] == s[j]);
        }
        if has_key(r, key_of(e)) {
            let a = choose|a: int| 0 <= a < r.len() && key_of(#[trigger] r[a]) == key_of(e);
            assert(r[a] == s[a]);
            assert(key_of(s[a]) != key_of(s[s.len() - 1]));
        }
        lemma_map_len(r);
        lemma_push_fresh(r, e);
        assert(r.push(e) =~= s);
        assert(entries_map(s).dom() =~= entries_map(r).dom().insert(key_of(e)));
    }
}

/// Registering a key twice leaves only the second offset: the outcome is
/// that of the second registration alone.
pub proof fn lemma_reregistration(
    m: Map<(Seq<char>, i32), i64>,
    topic: Seq<char>,
    partition: i32,
    o1: i64,
    o2: i64,
)
    ensures
        m.insert((topic, partition), o1).insert((topic, partition), o2) == m.insert(
            (topic, partition),
            o2,
        ),
        m.insert((topic, partition), o1).insert((topic, partition), o2)[(topic, partition)] == o2,
{
    assert(m.insert((topic, partition), o1).insert((topic, partition), o2) =~= m.insert(
        (topic, partition),
        o2,
    ));
}

/// A mapping from (topic, partition) to the offset last registered for it.
#[derive(Debug)]
pub struct OffsetMap {
    entries: Vec<OffsetEntry>,
}

impl View for OffsetMap {
    type V = Map<(Seq<char>, i32), i64>;

    closed spec fn view(&self) -> Map<(Seq<char>, i32), i64> {
        entries_map(self.entries@)
    }
}

impl OffsetMap {
    /// The entries in storage order.
    pub closed spec fn entries(&self) -> Seq<OffsetEntry> {
        self.entries@
    }

    /// Validity, which every value of the type has: each key is stored once.
    #[verifier::type_invariant]
    pub closed spec fn wf(&self) -> bool {
        distinct_keys(self.entries@)
    }

    /// What `wf` and the view mean in terms of the stored entries.
    pub proof fn lemma_view_of_entries(&self)
        ensures
            self.wf() == distinct_keys(self.entries()),
            self@ == entries_map(self.entries()),
    {
    }

    /// The empty map.
    pub fn new() -> (m: OffsetMap)
        ensures
            m@ == Map::<(Seq<char>, i32), i64>::empty(),
            m.entries().len() == 0,
    {
        let m = OffsetMap { entries: Vec::new() };
        assert(m@ =~= Map::<(Seq<char>, i32), i64>::empty());
        m
    }

    /// Position of the entry stored under (topic, partition), if any.
    fn find(&self, topic: &String, partition: i32) -> (r: Option<usize>)
        ensures
            match r {
                Some(i) => i < self.entries@.len() && key_of(self.entries@[i as int]) == (
                    topic@,
                    partition,
                ),
                None => !has_key(self.entries@, (topic@, partition)),
            },
    {
        let mut i: usize = 0;
        while i < self.entries.len()
            invariant
                i <= self.entries@.len(),
                forall|j: int| 0 <= j < i ==> key_of(#[trigger] self.entries@[j]) != (topic@, partition),
            decreases self.entries@.len() - i,
        {
            if self.entries[i].partition == partition && self.entries[i].topic == *topic {
                return Some(i);
            }
            i += 1;
        }
        None
    }

    /// Number of keys held.
    pub fn len(&self) -> (n: usize)
        ensures
            n == self.entries().len(),
            self@.dom().finite(),
            n == self@.dom().len(),
    {
        proof {
            use_type_invariant(self);
            lemma_map_len(self.entries@);
        }
        self.entries.len()
    }

    /// Whether the map holds no key.
    pub fn is_empty(&self) -> (b: bool)
        ensures
            b == (self@ == Map::<(Seq<char>, i32), i64>::empty()),
    {
        proof {
            use_type_invariant(self);
            lemma_map_len(self.entries@);
            if self.entries@.len() == 0 {
                assert(self@ =~= Map::<(Seq<char>, i32), i64>::empty());
            }
        }
        self.entries.len() == 0
    }

    /// Whether every key of this map is in `other` with the same offset.
    fn included_in(&self, other: &OffsetMap) -> (r: bool)
        ensures
            r == self@.submap_of(other@),
    {
        proof {
            use_type_invariant(self);
            use_type_invariant(other);
        }
        let mut i: usize = 0;
        while i < self.entries.len()
            invariant
                i <= self.entries@.len(),
                distinct_keys(self.entries@),
                distinct_keys(other.entries@),
                forall|j: int|
                    0 <= j < i ==> other@.dom().contains(key_of(#[trigger] self.entries@[j]))
                        && other@[key_of(self.entries@[j])] == self.entries@[j].offset,
            decreases self.entries@.len() - i,
        {
            proof {
                lemma_entry_in_map(self.entries@, i as int);
            }
            match other.find(&self.entries[i].topic, self.entries[i].partition) {
                Some(k) => {
                    proof {
                        lemma_entry_in_map(other.entries@, k as int);
                    }
                    if other.entries[k].offset != self.entries[i].offset {
                        assert(self@.dom().contains(key_of(self.entries@[i as int])));
                        assert(other@.dom().contains(key_of(self.entries@[i as int])));
                        return false;
                    }
                },
                None => {
                    assert(self@.dom().contains(key_of(self.entries@[i as int])));
                    assert(!other@.dom().contains(key_of(self.entries@[i as int])));
                    return false;
                },
            }
            i += 1;
        }
        proof {
            assert forall|k: (Seq<char>, i32)| #[trigger] self@.dom().contains(k) implies other@.dom().contains(k)
                && self@[k] == other@[k] by {
                let j = position_of(self.entries@, k);
                assert(key_of(self.entries@[j]) == k);
            }
        }
        true
    }

    /// Whether two maps hold the same keys with the same offsets, in
    /// whatever order either stores them.
    pub fn same_mapping(&self, other: &OffsetMap) -> (r: bool)
        ensures
            r == (self@ == other@),
    {
        let r = self.included_in(other) && other.included_in(self);
        proof {
            if r {
                assert forall|k: (Seq<char>, i32)|
                    self@.dom().contains(k) <==> other@.dom().contains(k) by {}
                assert forall|k: (Seq<char>, i32)| self@.dom().contains(k) implies self@[k]
                    == other@[k] by {
                    assert(other@.dom().contains(k));
                }
                assert(self@ =~= other@);
            }
        }
        r
    }

    /// The offset stored under (topic, partition).
    pub fn get(&self, topic: &str, partition: i32) -> (r: Option<i64>)
        ensures
            r == (if self@.dom().contains((topic@, partition)) {
                Some(self@[(topic@, partition)])
            } else {
                None
            }),
    {
        let t = topic.to_owned();
        match self.find(&t, partition) {
            Some(i) => {
                proof {
                    use_type_invariant(self);
                    lemma_entry_in_map(self.entries@, i as int);
                }
                Some(self.entries[i].offset)
            },
            None => None,
        }
    }

    /// Stores `offset` under (topic, partition). An offset already stored
    /// under that key is overwritten, whether it is larger or not.
    pub fn insert(&mut self, topic: String, partition: i32, offset: i64)
        ensures
            final(self)@ == old(self)@.insert((topic@, partition), offset),
    {
        proof {
            use_type_invariant(&*self);
        }
        let e = OffsetEntry { topic, partition, offset };
        let found = self.find(&e.topic, partition);
        let mut entries: Vec<OffsetEntry> = Vec::new();
        std::mem::swap(&mut self.entries, &mut entries);
        match found {
            Some(i) => {
                proof {
                    lemma_overwrite(entries@, i as int, e);
                }
                entries.set(i, e);
            },
            None => {
                proof {
                    lemma_push_fresh(entries@, e);
                }
                entries.push(e);
            },
        }
        self.entries = entries;
    }

    /// The entry at position `i` of the storage order.
    pub fn entry(&self, i: usize) -> (e: &OffsetEntry)
        requires
            i < self.entries().len(),
        ensures
            *e == self.entries()[i as int],
    {
        &self.entries[i]
    }

    /// An independent copy holding the same mapping.
    pub fn snapshot(&self) -> (m: OffsetMap)
        ensures
            m@ == self@,
            m.entries() == self.entries(),
    {
        proof {
            use_type_invariant(self);
        }
        let mut entries: Vec<OffsetEntry> = Vec::new();
        let mut i: usize = 0;
        while i < self.entries.len()
            invariant
                i <= self.entries@.len(),
                entries@ == self.entries@.subrange(0, i as int),
            decreases self.entries@.len() - i,
        {
            let e = &self.entries[i];
            let c = OffsetEntry { topic: e.topic.clone(), partition: e.partition, offset: e.offset };
            assert(c == *e);
            entries.push(c);
            assert(entries@ =~= self.entries@.subrange(0, i + 1));
            i += 1;
        }
        assert(entries@ =~= self.entries@);
        OffsetMap { entries }
    }
}

impl PartialEq for OffsetMap {
    /// Equality of the mappings, whatever the storage order.
    fn eq(&self, other: &OffsetMap) -> (r: bool) {
        self.same_mapping(other)
    }
}

impl vstd::std_specs::cmp::PartialEqSpecImpl for OffsetMap {
    open spec fn obeys_eq_spec() -> bool {
        true
    }

    open spec fn eq_spec(&self, other: &OffsetMap) -> bool {
        self@ == other@
    }
}

} // verus!
