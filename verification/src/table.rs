//! Small verified lookup tables used by the deduplication and orphan phases:
//! an id-to-id table, a set of ids, and a table keyed by byte strings.
//!
//! All three are association vectors with insert-wins-last semantics, so their
//! mathematical views follow directly from the entry sequences.

use vstd::prelude::*;

verus! {

/// The map described by an entry sequence; a later entry for the same key
/// overrides an earlier one.
pub open spec fn map_of(s: Seq<(u32, u32)>) -> Map<nat, nat>
    decreases s.len(),
{
    if s.len() == 0 {
        Map::empty()
    } else {
        map_of(s.drop_last()).insert(s.last().0 as nat, s.last().1 as nat)
    }
}

/// Every key of the map occurs in the entry sequence.
pub proof fn lemma_map_of_dom(s: Seq<(u32, u32)>, k: nat)
    requires
        map_of(s).dom().contains(k),
    ensures
        exists|i: int| 0 <= i < s.len() && (#[trigger] s[i]).0 as nat == k,
    decreases s.len(),
{
    if s.len() > 0 {
        if s.last().0 as nat == k {
            assert(s[s.len() - 1].0 as nat == k);
        } else {
            lemma_map_of_dom(s.drop_last(), k);
            let i = choose|i: int|
                0 <= i < s.drop_last().len() && (#[trigger] s.drop_last()[i]).0 as nat == k;
            assert(s[i].0 as nat == k);
        }
    }
}

/// A key that no entry at or after `i` carries takes its value from the
/// entries before `i`.
pub proof fn lemma_map_of_prefix(s: Seq<(u32, u32)>, i: int, k: nat)
    requires
        0 <= i <= s.len(),
        forall|j: int| i <= j < s.len() ==> (#[trigger] s[j]).0 as nat != k,
    ensures
        map_of(s).dom().contains(k) == map_of(s.subrange(0, i)).dom().contains(k),
        map_of(s).dom().contains(k) ==> map_of(s)[k] == map_of(s.subrange(0, i))[k],
    decreases s.len() - i,
{
    if i == s.len() {
        assert(s.subrange(0, i) =~= s);
    } else {
        let t = s.subrange(0, s.len() - 1);
        assert(s.drop_last() =~= t);
        assert(forall|j: int| i <= j < t.len() ==> (#[trigger] t[j]).0 as nat != k);
        lemma_map_of_prefix(t, i, k);
        assert(t.subrange(0, i) =~= s.subrange(0, i));
    }
}

/// An id-to-id remap table.
pub struct IdMap {
    entries: Vec<(u32, u32)>,
}

impl View for IdMap {
    type V = Map<nat, nat>;

    closed spec fn view(&self) -> Map<nat, nat> {
        map_of(self.entries@)
    }
}

impl IdMap {
    pub fn new() -> (r: IdMap)
        ensures
            r@ == Map::<nat, nat>::empty(),
    {
        IdMap { entries: Vec::new() }
    }

    pub fn insert(&mut self, k: u32, v: u32)
        ensures
            final(self)@ == old(self)@.insert(k as nat, v as nat),
    {
        self.entries.push((k, v));
        proof {
            assert(self.entries@.drop_last() =~= old(self).entries@);
        }
    }

    pub fn get(&self, k: u32) -> (r: Option<u32>)
        ensures
            self@.dom().contains(k as nat) ==> (r matches Some(v) && v as nat == self@[k as nat]),
            !self@.dom().contains(k as nat) ==> r is None,
    {
        let ghost s = self.entries@;
        let mut i: usize = self.entries.len();
        #[verifier::loop_isolation(false)]
        while i > 0
            invariant
                i <= s.len(),
                forall|j: int| i <= j < s.len() ==> (#[trigger] s[j]).0 as nat != k as nat,
            decreases i,
        {
            if self.entries[i - 1].0 == k {
                proof {
                    lemma_map_of_prefix(s, i as int, k as nat);
                    assert(s.subrange(0, i as int).drop_last() =~= s.subrange(0, i - 1));
                    assert(s.subrange(0, i as int).last() == s[i - 1]);
                }
                return Some(self.entries[i - 1].1);
            }
            i = i - 1;
        }
        proof {
            if self@.dom().contains(k as nat) {
                lemma_map_of_dom(s, k as nat);
            }
        }
        None
    }

    pub fn contains_key(&self, k: u32) -> (r: bool)
        ensures
            r == self@.dom().contains(k as nat),
    {
        let g = self.get(k);
        g.is_some()
    }

    pub proof fn lemma_dom_finite(&self)
        ensures
            self@.dom().finite(),
    {
        lemma_map_of_finite(self.entries@);
    }
}

/// The map described by an entry sequence has a finite domain.
pub proof fn lemma_map_of_finite(s: Seq<(u32, u32)>)
    ensures
        map_of(s).dom().finite(),
    decreases s.len(),
{
    if s.len() > 0 {
        lemma_map_of_finite(s.drop_last());
    }
}

/// A set of entity ids.
pub struct IdSet {
    items: Vec<u32>,
}

impl View for IdSet {
    type V = Set<nat>;

    closed spec fn view(&self) -> Set<nat> {
        self.items@.map_values(|x: u32| x as nat).to_set()
    }
}

impl IdSet {
    /// The item vector never repeats a value.
    pub closed spec fn wf(&self) -> bool {
        self.items@.no_duplicates()
    }

    pub fn new() -> (r: IdSet)
        ensures
            r@ == Set::<nat>::empty(),
            r.wf(),
    {
        let r = IdSet { items: Vec::new() };
        proof {
            assert(r.items@.map_values(|x: u32| x as nat) =~= Seq::<nat>::empty());
            assert(r@ =~= Set::<nat>::empty());
        }
        r
    }

    pub fn contains(&self, v: u32) -> (r: bool)
        ensures
            r == self@.contains(v as nat),
    {
        let ghost m = self.items@.map_values(|x: u32| x as nat);
        let mut i: usize = 0;
        #[verifier::loop_isolation(false)]
        while i < self.items.len()
            invariant
                i <= self.items@.len(),
                forall|j: int| 0 <= j < i ==> self.items@[j] != v,
            decreases self.items@.len() - i,
        {
            if self.items[i] == v {
                assert(m[i as int] == v as nat);
                assert(m.contains(v as nat));
                return true;
            }
            i = i + 1;
        }
        proof {
            if self@.contains(v as nat) {
                let j = choose|j: int| 0 <= j < m.len() && m[j] == v as nat;
                assert(self.items@[j] == v);
            }
        }
        false
    }

    pub fn insert(&mut self, v: u32)
        requires
            old(self).wf(),
            !old(self)@.contains(v as nat),
        ensures
            final(self).wf(),
            final(self)@ == old(self)@.insert(v as nat),
    {
        proof {
            let m = self.items@.map_values(|x: u32| x as nat);
            if self.items@.contains(v) {
                let j = choose|j: int| 0 <= j < self.items@.len() && self.items@[j] == v;
                assert(m[j] == v as nat);
                assert(m.contains(v as nat));
            }
        }
        self.items.push(v);
        proof {
            let m0 = old(self).items@.map_values(|x: u32| x as nat);
            let m1 = self.items@.map_values(|x: u32| x as nat);
            assert(m1 =~= m0.push(v as nat));
            assert forall|x: nat| m1.to_set().contains(x) implies m0.to_set().insert(
                v as nat,
            ).contains(x) by {
                let j = choose|j: int| 0 <= j < m1.len() && m1[j] == x;
                if j < m0.len() {
                    assert(m0[j] == x);
                }
            }
            assert forall|x: nat| m0.to_set().insert(v as nat).contains(x) implies m1.to_set()
                .contains(x) by {
                if x == v as nat {
                    assert(m1[m1.len() - 1] == x);
                } else {
                    let j = choose|j: int| 0 <= j < m0.len() && m0[j] == x;
                    assert(m1[j] == x);
                }
            }
            assert(m1.to_set() =~= m0.to_set().insert(v as nat));
        }
    }

    /// Number of ids in the set.
    pub fn len(&self) -> (r: usize)
        requires
            self.wf(),
        ensures
            r == self@.len(),
    {
        proof {
            let m = self.items@.map_values(|x: u32| x as nat);
            assert forall|i: int, j: int| 0 <= i < j < m.len() implies m[i] != m[j] by {
                assert(self.items@[i] != self.items@[j]);
            }
            m.unique_seq_to_set();
        }
        self.items.len()
    }

    pub proof fn lemma_finite(&self)
        ensures
            self@.finite(),
    {
        let m = self.items@.map_values(|x: u32| x as nat);
        m.lemma_cardinality_of_set();
    }

    /// The raw item vector, for iteration.
    pub fn as_vec(&self) -> (r: &Vec<u32>)
        ensures
            r@.map_values(|x: u32| x as nat).to_set() == self@,
            forall|i: int| 0 <= i < r@.len() ==> self@.contains(#[trigger] r@[i] as nat),
    {
        proof {
            let m = self.items@.map_values(|x: u32| x as nat);
            assert forall|i: int| 0 <= i < self.items@.len() implies m.to_set().contains(
                #[trigger] self.items@[i] as nat,
            ) by {
                assert(m[i] == self.items@[i] as nat);
            }
        }
        &self.items
    }
}

/// The map described by a byte-string-keyed entry sequence.
pub open spec fn key_map_of(s: Seq<(Vec<u8>, u32)>) -> Map<Seq<u8>, nat>
    decreases s.len(),
{
    if s.len() == 0 {
        Map::empty()
    } else {
        key_map_of(s.drop_last()).insert(s.last().0@, s.last().1 as nat)
    }
}

/// Length of the longest key in the entry sequence.
pub open spec fn max_key_len(s: Seq<(Vec<u8>, u32)>) -> nat
    decreases s.len(),
{
    if s.len() == 0 {
        0
    } else if s.last().0@.len() > max_key_len(s.drop_last()) {
        s.last().0@.len()
    } else {
        max_key_len(s.drop_last())
    }
}

/// Every key of the map is at most the longest entry key.
pub proof fn lemma_key_map_len(s: Seq<(Vec<u8>, u32)>, k: Seq<u8>)
    requires
        key_map_of(s).dom().contains(k),
    ensures
        k.len() <= max_key_len(s),
    decreases s.len(),
{
    if s.len() > 0 && s.last().0@ != k {
        lemma_key_map_len(s.drop_last(), k);
    }
}

/// A table keyed by canonical content, as used during one dedup pass.
pub struct KeyMap {
    entries: Vec<(Vec<u8>, u32)>,
}

impl View for KeyMap {
    type V = Map<Seq<u8>, nat>;

    closed spec fn view(&self) -> Map<Seq<u8>, nat> {
        key_map_of(self.entries@)
    }
}

impl KeyMap {
    /// Length of the longest key held so far.
    pub closed spec fn spec_max_key_len(&self) -> nat {
        max_key_len(self.entries@)
    }

    pub proof fn lemma_contains_len(&self, k: Seq<u8>)
        requires
            self@.dom().contains(k),
        ensures
            k.len() <= self.spec_max_key_len(),
    {
        lemma_key_map_len(self.entries@, k);
    }

    pub fn new() -> (r: KeyMap)
        ensures
            r@ == Map::<Seq<u8>, nat>::empty(),
    {
        KeyMap { entries: Vec::new() }
    }

    pub fn insert(&mut self, k: Vec<u8>, v: u32)
        ensures
            final(self)@ == old(self)@.insert(k@, v as nat),
    {
        self.entries.push((k, v));
        proof {
            assert(self.entries@.drop_last() =~= old(self).entries@);
        }
    }

    pub fn get(&self, k: &Vec<u8>) -> (r: Option<u32>)
        ensures
            self@.dom().contains(k@) ==> (r matches Some(v) && v as nat == self@[k@]),
            !self@.dom().contains(k@) ==> r is None,
    {
        let ghost s = self.entries@;
        let mut i: usize = self.entries.len();
        #[verifier::loop_isolation(false)]
        while i > 0
            invariant
                i <= s.len(),
                forall|j: int| i <= j < s.len() ==> (#[trigger] s[j]).0@ != k@,
            decreases i,
        {
            if crate::bytes::vec_eq(&self.entries[i - 1].0, k) {
                proof {
                    lemma_key_map_of_prefix(s, i as int, k@);
                    assert(s.subrange(0, i as int).drop_last() =~= s.subrange(0, i - 1));
                    assert(s.subrange(0, i as int).last() == s[i - 1]);
                }
                return Some(self.entries[i - 1].1);
            }
            i = i - 1;
        }
        proof {
            if self@.dom().contains(k@) {
                lemma_key_map_of_dom(s, k@);
            }
        }
        None
    }

    pub fn contains_key(&self, k: &Vec<u8>) -> (r: bool)
        ensures
            r == self@.dom().contains(k@),
    {
        let g = self.get(k);
        g.is_some()
    }
}

/// Every key of the map occurs in the entry sequence.
pub proof fn lemma_key_map_of_dom(s: Seq<(Vec<u8>, u32)>, k: Seq<u8>)
    requires
        key_map_of(s).dom().contains(k),
    ensures
        exists|i: int| 0 <= i < s.len() && (#[trigger] s[i]).0@ == k,
    decreases s.len(),
{
    if s.len() > 0 {
        if s.last().0@ == k {
            assert(s[s.len() - 1].0@ == k);
        } else {
            lemma_key_map_of_dom(s.drop_last(), k);
            let i = choose|i: int|
                0 <= i < s.drop_last().len() && (#[trigger] s.drop_last()[i]).0@ == k;
            assert(s[i].0@ == k);
        }
    }
}

/// A key that no entry at or after `i` carries takes its value from the
/// entries before `i`.
pub proof fn lemma_key_map_of_prefix(s: Seq<(Vec<u8>, u32)>, i: int, k: Seq<u8>)
    requires
        0 <= i <= s.len(),
        forall|j: int| i <= j < s.len() ==> (#[trigger] s[j]).0@ != k,
    ensures
        key_map_of(s).dom().contains(k) == key_map_of(s.subrange(0, i)).dom().contains(k),
        key_map_of(s).dom().contains(k) ==> key_map_of(s)[k] == key_map_of(s.subrange(0, i))[k],
    decreases s.len() - i,
{
    if i == s.len() {
        assert(s.subrange(0, i) =~= s);
    } else {
        let t = s.subrange(0, s.len() - 1);
        assert(s.drop_last() =~= t);
        assert(forall|j: int| i <= j < t.len() ==> (#[trigger] t[j]).0@ != k);
        lemma_key_map_of_prefix(t, i, k);
        assert(t.subrange(0, i) =~= s.subrange(0, i));
    }
}

} // verus!
