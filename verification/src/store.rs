//! The partition-offset store handed to a commit, and the translation of an
//! offset map into it.

use crate::offsets::{distinct_keys, entries_map, has_key, key_of, lemma_push_fresh, OffsetEntry, OffsetMap};
use vstd::prelude::*;

verus! {

/// The partitions of one topic, each with the offset to commit.
#[derive(Debug)]
pub struct TopicGroup {
    pub topic: String,
    pub partitions: Vec<(i32, i64)>,
}

/// No topic occurs at two positions.
pub open spec fn distinct_topics(s: Seq<TopicGroup>) -> bool {
    forall|i: int, j: int| 0 <= i < j < s.len() ==> (#[trigger] s[i]).topic@ != (#[trigger] s[j]).topic@
}

/// Some position of `s` holds topic `t`.
pub open spec fn has_topic(s: Seq<TopicGroup>, t: Seq<char>) -> bool {
    exists|i: int| 0 <= i < s.len() && (#[trigger] s[i]).topic@ == t
}

/// A position of `s` that holds topic `t`.
pub open spec fn topic_position(s: Seq<TopicGroup>, t: Seq<char>) -> int {
    choose|i: int| 0 <= i < s.len() && (#[trigger] s[i]).topic@ == t
}

/// What a sequence of groups stands for: under each topic, the set of its
/// (partition, offset) pairs. Neither topics nor partitions are ordered.
pub open spec fn groups_map(s: Seq<TopicGroup>) -> Map<Seq<char>, Set<(i32, i64)>> {
    Map::new(
        |t: Seq<char>| has_topic(s, t),
        |t: Seq<char>| s[topic_position(s, t)].partitions@.to_set(),
    )
}

/// The pairs stored under topic `t`; none where the topic is absent.
pub open spec fn partitions_of(m: Map<Seq<char>, Set<(i32, i64)>>, t: Seq<char>) -> Set<(i32, i64)> {
    if m.dom().contains(t) {
        m[t]
    } else {
        Set::empty()
    }
}

/// An offset map grouped by topic.
pub open spec fn grouped(m: Map<(Seq<char>, i32), i64>) -> Map<Seq<char>, Set<(i32, i64)>> {
    Map::new(
        |t: Seq<char>| exists|p: i32| #[trigger] m.dom().contains((t, p)),
        |t: Seq<char>| Set::new(|po: (i32, i64)| m.dom().contains((t, po.0)) && m[(t, po.0)] == po.1),
    )
}

/// The (topic, partition, offset) triples of an offset map.
pub open spec fn map_triples(m: Map<(Seq<char>, i32), i64>) -> Set<(Seq<char>, i32, i64)> {
    Set::new(|x: (Seq<char>, i32, i64)| m.dom().contains((x.0, x.1)) && m[(x.0, x.1)] == x.2)
}

/// The (topic, partition, offset) triples of a store: the store flattened.
pub open spec fn store_triples(m: Map<Seq<char>, Set<(i32, i64)>>) -> Set<(Seq<char>, i32, i64)> {
    Set::new(|x: (Seq<char>, i32, i64)| m.dom().contains(x.0) && m[x.0].contains((x.1, x.2)))
}

/// An entry as a (topic, partition, offset) triple.
pub open spec fn triple_of(e: OffsetEntry) -> (Seq<char>, i32, i64) {
    (e.topic@, e.partition, e.offset)
}

/// The triples of a sequence of entries.
pub open spec fn entry_triples(s: Seq<OffsetEntry>) -> Set<(Seq<char>, i32, i64)> {
    s.map_values(|e: OffsetEntry| triple_of(e)).to_set()
}

/// The triples that the pairs `ps` make under topic `t`.
pub open spec fn pairs_under(t: Seq<char>, ps: Set<(i32, i64)>) -> Set<(Seq<char>, i32, i64)> {
    Set::new(|x: (Seq<char>, i32, i64)| x.0 == t && ps.contains((x.1, x.2)))
}

/// A store gains, with a new topic, exactly the triples of that topic's
/// pairs.
pub proof fn lemma_store_triples_insert(
    m: Map<Seq<char>, Set<(i32, i64)>>,
    t: Seq<char>,
    ps: Set<(i32, i64)>,
)
    requires
        !m.dom().contains(t),
    ensures
        store_triples(m.insert(t, ps)) == store_triples(m).union(pairs_under(t, ps)),
{
    assert(store_triples(m.insert(t, ps)) =~= store_triples(m).union(pairs_under(t, ps)));
}

/// With distinct topics, the group at position `i` is the one the mapping
/// reports for its topic.
pub proof fn lemma_group_in_map(s: Seq<TopicGroup>, i: int)
    requires
        distinct_topics(s),
        0 <= i < s.len(),
    ensures
        groups_map(s).dom().contains(s[i].topic@),
        groups_map(s)[s[i].topic@] == s[i].partitions@.to_set(),
{
    let t = s[i].topic@;
    assert(has_topic(s, t));
    let p = topic_position(s, t);
    assert(0 <= p < s.len() && s[p].topic@ == t);
    if p < i {
        assert(s[p].topic@ != s[i].topic@);
    } else if i < p {
        assert(s[i].topic@ != s[p].topic@);
    }
}

/// Appending a group under a fresh topic inserts it into the mapping.
pub proof fn lemma_push_fresh_group(s: Seq<TopicGroup>, g: TopicGroup)
    requires
        distinct_topics(s),
        !has_topic(s, g.topic@),
    ensures
        distinct_topics(s.push(g)),
        groups_map(s.push(g)) == groups_map(s).insert(g.topic@, g.partitions@.to_set()),
{
    let t = s.push(g);
    assert forall|i: int, j: int| 0 <= i < j < t.len() implies (#[trigger] t[i]).topic@ != (
        #[trigger] t[j]).topic@ by {
        if j == s.len() {
            assert(t[i] == s[i]);
            assert(s[i].topic@ != g.topic@);
        } else {
            assert(t[i] == s[i] && t[j] == s[j]);
        }
    }
    let m = groups_map(s).insert(g.topic@, g.partitions@.to_set());
    assert forall|k: Seq<char>| groups_map(t).dom().contains(k) <==> m.dom().contains(k) by {
        if has_topic(t, k) {
            let p = topic_position(t, k);
            if p < s.len() {
                assert(s[p].topic@ == k);
            }
        }
        if has_topic(s, k) {
            let p = topic_position(s, k);
            assert(t[p].topic@ == k);
        }
        if k == g.topic@ {
            assert(t[s.len() as int].topic@ == k);
        }
    }
    assert forall|k: Seq<char>| groups_map(t).dom().contains(k) implies groups_map(t)[k]
        == m[k] by {
        let p = topic_position(t, k);
        lemma_group_in_map(t, p);
        if p < s.len() {
            assert(t[p] == s[p]);
            lemma_group_in_map(s, p);
        }
    }
    assert(groups_map(t) =~= m);
}

/// Replacing the group at position `i` by one of the same topic overwrites
/// that topic's pairs and those of no other.
pub proof fn lemma_replace_group(s: Seq<TopicGroup>, i: int, g: TopicGroup)
    requires
        distinct_topics(s),
        0 <= i < s.len(),
        g.topic@ == s[i].topic@,
    ensures
        distinct_topics(s.update(i, g)),
        groups_map(s.update(i, g)) == groups_map(s).insert(g.topic@, g.partitions@.to_set()),
{
    let t = s.update(i, g);
    assert forall|a: int| 0 <= a < s.len() implies (#[trigger] t[a]).topic@ == s[a].topic@ by {}
    assert forall|a: int, b: int| 0 <= a < b < t.len() implies (#[trigger] t[a]).topic@ != (
        #[trigger] t[b]).topic@ by {
        assert(s[a].topic@ != s[b].topic@);
    }
    let m = groups_map(s).insert(g.topic@, g.partitions@.to_set());
    assert forall|k: Seq<char>| groups_map(t).dom().contains(k) <==> m.dom().contains(k) by {
        if has_topic(t, k) {
            let p = topic_position(t, k);
            assert(s[p].topic@ == k);
        }
        if has_topic(s, k) {
            let p = topic_position(s, k);
            assert(t[p].topic@ == k);
        }
        if k == g.topic@ {
            assert(t[i].topic@ == k);
        }
    }
    assert forall|k: Seq<char>| groups_map(t).dom().contains(k) implies groups_map(t)[k]
        == m[k] by {
        let p = topic_position(t, k);
        lemma_group_in_map(t, p);
        if p != i {
            assert(t[p] == s[p]);
            lemma_group_in_map(s, p);
        }
    }
    assert(groups_map(t) =~= m);
}

/// Adding one entry under a fresh key to an offset map adds its pair to
/// the group of its topic.
pub proof fn lemma_grouped_insert(m: Map<(Seq<char>, i32), i64>, t: Seq<char>, p: i32, o: i64)
    requires
        !m.dom().contains((t, p)),
    ensures
        grouped(m.insert((t, p), o)) == grouped(m).insert(
            t,
            partitions_of(grouped(m), t).insert((p, o)),
        ),
{
    let m2 = m.insert((t, p), o);
    let g = grouped(m);
    let r = g.insert(t, partitions_of(g, t).insert((p, o)));
    assert forall|k: Seq<char>| grouped(m2).dom().contains(k) <==> r.dom().contains(k) by {
        if grouped(m2).dom().contains(k) {
            let q = choose|q: i32| #[trigger] m2.dom().contains((k, q));
            if k != t {
                assert(m.dom().contains((k, q)));
            }
        }
        if g.dom().contains(k) {
            let q = choose|q: i32| #[trigger] m.dom().contains((k, q));
            assert(m2.dom().contains((k, q)));
        }
        if k == t {
            assert(m2.dom().contains((k, p)));
        }
    }
    assert forall|k: Seq<char>| grouped(m2).dom().contains(k) implies grouped(m2)[k] =~= r[k] by {
        if k == t {
            assert forall|po: (i32, i64)| grouped(m2)[k].contains(po) <==> r[k].contains(po) by {
                if po.0 != p && m.dom().contains((t, po.0)) {
                    assert(g.dom().contains(t));
                }
            }
        } else {
            assert(g.dom().contains(k));
        }
    }
    assert(grouped(m2) =~= r);
}

/// Grouping an offset map by topic and flattening the groups again gives
/// back exactly the map's (topic, partition, offset) triples.
pub proof fn lemma_translation_round_trip(m: Map<(Seq<char>, i32), i64>)
    ensures
        store_triples(grouped(m)) == map_triples(m),
{
    assert forall|x: (Seq<char>, i32, i64)| store_triples(grouped(m)).contains(x)
        <==> map_triples(m).contains(x) by {
        if map_triples(m).contains(x) {
            assert(m.dom().contains((x.0, x.1)));
            assert(grouped(m).dom().contains(x.0));
            assert(grouped(m)[x.0].contains((x.1, x.2)));
        }
    }
    assert(store_triples(grouped(m)) =~= map_triples(m));
}

/// The translation does not depend on the order in which entries are held:
/// two sequences of entries that stand for the same mapping group to the
/// same store, whose triples are those of the mapping.
pub proof fn lemma_translation_order_free(a: Seq<OffsetEntry>, b: Seq<OffsetEntry>)
    requires
        entries_map(a) == entries_map(b),
    ensures
        grouped(entries_map(a)) == grouped(entries_map(b)),
        store_triples(grouped(entries_map(a))) == map_triples(entries_map(b)),
{
    lemma_translation_round_trip(entries_map(a));
}

/// A multi-topic list of partitions with offsets: what a commit is given.
#[derive(Debug)]
pub struct TopicPartitionList {
    groups: Vec<TopicGroup>,
}

impl View for TopicPartitionList {
    type V = Map<Seq<char>, Set<(i32, i64)>>;

    closed spec fn view(&self) -> Map<Seq<char>, Set<(i32, i64)>> {
        groups_map(self.groups@)
    }
}

/// A copy of a list of (partition, offset) pairs.
fn copy_pairs(v: &Vec<(i32, i64)>) -> (r: Vec<(i32, i64)>)
    ensures
        r@ == v@,
{
    let mut r: Vec<(i32, i64)> = Vec::new();
    let mut i: usize = 0;
    while i < v.len()
        invariant
            i <= v@.len(),
            r@ == v@.subrange(0, i as int),
        decreases v@.len() - i,
    {
        r.push(v[i]);
        assert(r@ =~= v@.subrange(0, i + 1));
        i += 1;
    }
    assert(r@ =~= v@);
    r
}

/// Whether the pair (partition, offset) occurs in `v`.
fn pairs_contain(v: &Vec<(i32, i64)>, partition: i32, offset: i64) -> (b: bool)
    ensures
        b == v@.to_set().contains((partition, offset)),
{
    let mut i: usize = 0;
    while i < v.len()
        invariant
            i <= v@.len(),
            forall|j: int| 0 <= j < i ==> v@[j] != (partition, offset),
        decreases v@.len() - i,
    {
        if v[i].0 == partition && v[i].1 == offset {
            assert(v@.contains((partition, offset)));
            return true;
        }
        i += 1;
    }
    false
}

/// Whether every pair of `a` occurs in `b`.
fn pairs_subset(a: &Vec<(i32, i64)>, b: &Vec<(i32, i64)>) -> (r: bool)
    ensures
        r == a@.to_set().subset_of(b@.to_set()),
{
    let mut i: usize = 0;
    while i < a.len()
        invariant
            i <= a@.len(),
            forall|j: int| 0 <= j < i ==> b@.to_set().contains(#[trigger] a@[j]),
        decreases a@.len() - i,
    {
        if !pairs_contain(b, a[i].0, a[i].1) {
            assert(a@.to_set().contains(a@[i as int]));
            return false;
        }
        i += 1;
    }
    true
}

/// Every topic of `a` is a topic of `b`, with no pair that `b` lacks.
pub open spec fn covered(a: Map<Seq<char>, Set<(i32, i64)>>, b: Map<Seq<char>, Set<(i32, i64)>>) -> bool {
    forall|t: Seq<char>| #[trigger]
        a.dom().contains(t) ==> b.dom().contains(t) && a[t].subset_of(b[t])
}

/// Two stores that cover each other are the same store.
pub proof fn lemma_covered_both_ways(
    a: Map<Seq<char>, Set<(i32, i64)>>,
    b: Map<Seq<char>, Set<(i32, i64)>>,
)
    ensures
        (covered(a, b) && covered(b, a)) <==> a == b,
{
    if covered(a, b) && covered(b, a) {
        assert forall|t: Seq<char>| a.dom().contains(t) implies a[t] == b[t] by {
            assert(b.dom().contains(t));
            assert(a[t] =~= b[t]);
        }
        assert(a =~= b);
    }
}

impl TopicPartitionList {
    /// Validity, which every value of the type has: each topic is stored
    /// once.
    #[verifier::type_invariant]
    pub closed spec fn wf(&self) -> bool {
        distinct_topics(self.groups@)
    }

    /// The empty list: a legal commit that changes nothing.
    pub fn new() -> (l: TopicPartitionList)
        ensures
            l@ == Map::<Seq<char>, Set<(i32, i64)>>::empty(),
    {
        let l = TopicPartitionList { groups: Vec::new() };
        assert(l@ =~= Map::<Seq<char>, Set<(i32, i64)>>::empty());
        l
    }

    /// Position of the group of `topic`, if any.
    fn find_topic(&self, topic: &String) -> (r: Option<usize>)
        ensures
            match r {
                Some(i) => i < self.groups@.len() && self.groups@[i as int].topic@ == topic@,
                None => !has_topic(self.groups@, topic@),
            },
    {
        let mut i: usize = 0;
        while i < self.groups.len()
            invariant
                i <= self.groups@.len(),
                forall|j: int| 0 <= j < i ==> (#[trigger] self.groups@[j]).topic@ != topic@,
            decreases self.groups@.len() - i,
        {
            if self.groups[i].topic == *topic {
                return Some(i);
            }
            i += 1;
        }
        None
    }

    /// Adds one (partition, offset) pair to the pairs of `topic`.
    pub fn add_partition_offset(&mut self, topic: &str, partition: i32, offset: i64)
        ensures
            final(self)@ == old(self)@.insert(
                topic@,
                partitions_of(old(self)@, topic@).insert((partition, offset)),
            ),
    {
        proof {
            use_type_invariant(&*self);
        }
        let t = topic.to_owned();
        let found = self.find_topic(&t);
        let mut groups: Vec<TopicGroup> = Vec::new();
        std::mem::swap(&mut self.groups, &mut groups);
        match found {
            Some(i) => {
                let mut pairs = copy_pairs(&groups[i].partitions);
                pairs.push((partition, offset));
                let g = TopicGroup { topic: t, partitions: pairs };
                proof {
                    lemma_group_in_map(groups@, i as int);
                    lemma_replace_group(groups@, i as int, g);
                    groups@[i as int].partitions@.lemma_push_to_set_commute((partition, offset));
                }
                groups.set(i, g);
            },
            None => {
                let mut pairs: Vec<(i32, i64)> = Vec::new();
                pairs.push((partition, offset));
                let g = TopicGroup { topic: t, partitions: pairs };
                proof {
                    lemma_push_fresh_group(groups@, g);
                    Seq::<(i32, i64)>::empty().lemma_push_to_set_commute((partition, offset));
                    assert(Seq::<(i32, i64)>::empty().to_set() =~= Set::<(i32, i64)>::empty());
                }
                groups.push(g);
            },
        }
        self.groups = groups;
    }

    /// The list flattened: one entry for every (topic, partition, offset)
    /// that it holds.
    pub fn flatten(&self) -> (r: Vec<OffsetEntry>)
        ensures
            entry_triples(r@) == store_triples(self@),
    {
        proof {
            use_type_invariant(self);
        }
        let mut r: Vec<OffsetEntry> = Vec::new();
        let mut i: usize = 0;
        proof {
            assert(entry_triples(r@) =~= store_triples(groups_map(self.groups@.subrange(0, 0))));
        }
        while i < self.groups.len()
            invariant
                i <= self.groups@.len(),
                distinct_topics(self.groups@),
                entry_triples(r@) == store_triples(groups_map(self.groups@.subrange(0, i as int))),
            decreases self.groups@.len() - i,
        {
            let g = &self.groups[i];
            let ghost base = entry_triples(r@);
            let mut j: usize = 0;
            proof {
                assert(g.partitions@.subrange(0, 0).to_set() =~= Set::<(i32, i64)>::empty());
                assert(entry_triples(r@) =~= base.union(
                    pairs_under(g.topic@, g.partitions@.subrange(0, 0).to_set()),
                ));
            }
            while j < g.partitions.len()
                invariant
                    j <= g.partitions@.len(),
                    entry_triples(r@) == base.union(
                        pairs_under(g.topic@, g.partitions@.subrange(0, j as int).to_set()),
                    ),
                decreases g.partitions@.len() - j,
            {
                let pair = g.partitions[j];
                let e = OffsetEntry { topic: g.topic.clone(), partition: pair.0, offset: pair.1 };
                proof {
                    let f = |e: OffsetEntry| triple_of(e);
                    let before = g.partitions@.subrange(0, j as int);
                    assert(g.partitions@.subrange(0, j + 1) =~= before.push(pair));
                    before.lemma_push_to_set_commute(pair);
                    assert(r@.push(e).map_values(f) =~= r@.map_values(f).push(triple_of(e)));
                    r@.map_values(f).lemma_push_to_set_commute(triple_of(e));
                    assert(pairs_under(g.topic@, before.to_set().insert(pair)) =~= pairs_under(
                        g.topic@,
                        before.to_set(),
                    ).insert(triple_of(e)));
                    assert(entry_triples(r@.push(e)) =~= base.union(
                        pairs_under(g.topic@, before.push(pair).to_set()),
                    ));
                }
                r.push(e);
                j += 1;
            }
            proof {
                let all = self.groups@;
                let pre = all.subrange(0, i as int);
                assert(all.subrange(0, i + 1) =~= pre.push(*g));
                assert(g.partitions@.subrange(0, g.partitions@.len() as int) =~= g.partitions@);
                assert forall|a: int, b: int| 0 <= a < b < pre.len() implies (#[trigger] pre[a]).topic@
                    != (#[trigger] pre[b]).topic@ by {
                    assert(pre[a] == all[a] && pre[b] == all[b]);
                }
                if has_topic(pre, g.topic@) {
                    let a = choose|a: int| 0 <= a < pre.len() && (#[trigger] pre[a]).topic@ == g.topic@;
                    assert(pre[a] == all[a]);
                    assert(all[a].topic@ != all[i as int].topic@);
                }
                lemma_push_fresh_group(pre, *g);
                lemma_store_triples_insert(groups_map(pre), g.topic@, g.partitions@.to_set());
            }
            i += 1;
        }
        proof {
            assert(self.groups@.subrange(0, self.groups@.len() as int) =~= self.groups@);
        }
        r
    }

    /// Whether every topic of this list is in `other` with no pair that
    /// `other` lacks.
    fn covered_by(&self, other: &TopicPartitionList) -> (r: bool)
        ensures
            r == covered(self@, other@),
    {
        proof {
            use_type_invariant(self);
            use_type_invariant(other);
        }
        let mut i: usize = 0;
        while i < self.groups.len()
            invariant
                i <= self.groups@.len(),
                distinct_topics(self.groups@),
                distinct_topics(other.groups@),
                forall|j: int|
                    0 <= j < i ==> other@.dom().contains((#[trigger] self.groups@[j]).topic@)
                        && self.groups@[j].partitions@.to_set().subset_of(
                        other@[self.groups@[j].topic@],
                    ),
            decreases self.groups@.len() - i,
        {
            proof {
                lemma_group_in_map(self.groups@, i as int);
            }
            match other.find_topic(&self.groups[i].topic) {
                Some(k) => {
                    proof {
                        lemma_group_in_map(other.groups@, k as int);
                    }
                    if !pairs_subset(&self.groups[i].partitions, &other.groups[k].partitions) {
                        assert(self@.dom().contains(self.groups@[i as int].topic@));
                        return false;
                    }
                },
                None => {
                    assert(self@.dom().contains(self.groups@[i as int].topic@));
                    return false;
                },
            }
            i += 1;
        }
        proof {
            assert forall|t: Seq<char>| #[trigger] self@.dom().contains(t) implies other@.dom().contains(t)
                && self@[t].subset_of(other@[t]) by {
                let j = topic_position(self.groups@, t);
                assert(self.groups@[j].topic@ == t);
            }
        }
        true
    }

    /// Whether two lists hold the same topics with the same pairs, in
    /// whatever order either stores them.
    pub fn equivalent(&self, other: &TopicPartitionList) -> (r: bool)
        ensures
            r == (self@ == other@),
    {
        proof {
            lemma_covered_both_ways(self@, other@);
        }
        self.covered_by(other) && other.covered_by(self)
    }

    /// Stores `partitions` as the pairs of `topic`, in place of any pairs
    /// the topic had.
    pub fn add_topic_with_partitions_and_offsets(&mut self, topic: &str, partitions: &Vec<(i32, i64)>)
        ensures
            final(self)@ == old(self)@.insert(topic@, partitions@.to_set()),
    {
        proof {
            use_type_invariant(&*self);
        }
        let g = TopicGroup { topic: topic.to_owned(), partitions: copy_pairs(partitions) };
        let found = self.find_topic(&g.topic);
        let mut groups: Vec<TopicGroup> = Vec::new();
        std::mem::swap(&mut self.groups, &mut groups);
        match found {
            Some(i) => {
                proof {
                    lemma_replace_group(groups@, i as int, g);
                }
                groups.set(i, g);
            },
            None => {
                proof {
                    lemma_push_fresh_group(groups@, g);
                }
                groups.push(g);
            },
        }
        self.groups = groups;
    }
}

impl PartialEq for TopicPartitionList {
    /// Equality of what two lists hold, whatever their storage order.
    fn eq(&self, other: &TopicPartitionList) -> (r: bool) {
        self.equivalent(other)
    }
}

impl vstd::std_specs::cmp::PartialEqSpecImpl for TopicPartitionList {
    open spec fn obeys_eq_spec() -> bool {
        true
    }

    open spec fn eq_spec(&self, other: &TopicPartitionList) -> bool {
        self@ == other@
    }
}

/// Translates an offset map into the store that a commit takes: every
/// topic of the map with all its (partition, offset) pairs, and nothing
/// else.
pub fn offset_map_to_tpl(map: &OffsetMap) -> (tpl: TopicPartitionList)
    ensures
        tpl@ == grouped(map@),
        store_triples(tpl@) == map_triples(map@),
{
    let mut tpl = TopicPartitionList::new();
    let n = map.len();
    let mut i: usize = 0;
    proof {
        use_type_invariant(map);
        map.lemma_view_of_entries();
        assert(entries_map(map.entries().subrange(0, 0)) =~= Map::<(Seq<char>, i32), i64>::empty());
        assert(grouped(Map::<(Seq<char>, i32), i64>::empty()) =~= tpl@);
    }
    while i < n
        invariant
            i <= n,
            n == map.entries().len(),
            distinct_keys(map.entries()),
            tpl@ == grouped(entries_map(map.entries().subrange(0, i as int))),
        decreases n - i,
    {
        let e = map.entry(i);
        proof {
            let all = map.entries();
            let s = all.subrange(0, i as int);
            assert(all.subrange(0, i + 1) =~= s.push(*e));
            assert(distinct_keys(s)) by {
                assert forall|a: int, b: int| 0 <= a < b < s.len() implies key_of(#[trigger] s[a])
                    != key_of(#[trigger] s[b]) by {
                    assert(s[a] == all[a] && s[b] == all[b]);
                }
            }
            assert(!has_key(s, key_of(*e))) by {
                if has_key(s, key_of(*e)) {
                    let a = choose|a: int| 0 <= a < s.len() && key_of(#[trigger] s[a]) == key_of(*e);
                    assert(s[a] == all[a]);
                    assert(key_of(all[a]) != key_of(all[i as int]));
                }
            }
            lemma_push_fresh(s, *e);
            lemma_grouped_insert(entries_map(s), e.topic@, e.partition, e.offset);
        }
        tpl.add_partition_offset(e.topic.as_str(), e.partition, e.offset);
        i += 1;
    }
    proof {
        assert(map.entries().subrange(0, n as int) =~= map.entries());
        lemma_translation_round_trip(map@);
    }
    tpl
}

} // verus!
