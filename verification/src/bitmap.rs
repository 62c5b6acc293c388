//! The membership index: one mask word per entity slot, one bit per
//! registered component type. It answers, for a set of component types, which
//! slots carry all of them, in ascending slot order.

use vstd::prelude::*;

use crate::errors::BbEcsError;

verus! {

/// Width of a mask word: the most distinct component types one store can hold.
pub const MAX_COMPONENT_TYPES: usize = 64;

/// Per-slot membership masks plus the name-to-bit assignment.
///
/// Bit `b` of slot `i`'s word is set exactly when the entity in slot `i`
/// carries the component type that was registered `b`-th.
#[derive(Debug)]
pub struct BitMap {
    component_type_lookup: Vec<String>,
    entity_map: Vec<u64>,
}

impl BitMap {
    /// The registered names, in registration order; the name at position `b`
    /// owns mask bit `b`.
    pub closed spec fn names(self) -> Seq<Seq<char>> {
        self.component_type_lookup@.map_values(|s: String| s@)
    }

    /// The mask words, one per entity slot.
    pub closed spec fn slots(self) -> Seq<u64> {
        self.entity_map@
    }

    pub open spec fn is_registered(self, name: Seq<char>) -> bool {
        self.names().contains(name)
    }

    /// The bit position assigned to a registered name.
    pub open spec fn bit_index(self, name: Seq<char>) -> int {
        self.names().index_of(name)
    }

    /// The one-bit mask word of a registered name.
    pub open spec fn mask_of(self, name: Seq<char>) -> u64 {
        1u64 << (self.bit_index(name) as u64)
    }

    /// Well-formed: names are distinct and no more than the mask word holds.
    pub open spec fn wf(self) -> bool {
        &&& forall|i: int, j: int|
            0 <= i < j < self.names().len() ==> self.names()[i] != self.names()[j]
        &&& self.names().len() <= MAX_COMPONENT_TYPES
    }

    /// The combined mask of the first `k` requested names.
    pub open spec fn request_mask_prefix(self, names: Seq<Seq<char>>, k: int) -> u64
        decreases k,
    {
        if k <= 0 {
            0u64
        } else {
            self.request_mask_prefix(names, k - 1) | self.mask_of(names[k - 1])
        }
    }

    /// The combined mask of a whole list of requested names.
    pub open spec fn request_mask(self, names: Seq<Seq<char>>) -> u64 {
        self.request_mask_prefix(names, names.len() as int)
    }

    /// Whether mask word `word` carries every bit of `mask`.
    pub open spec fn word_matches(word: u64, mask: u64) -> bool {
        word & mask == mask
    }

    /// The slots among the first `n` whose words carry every bit of `mask`,
    /// in ascending order.
    pub open spec fn matching_upto(slots: Seq<u64>, mask: u64, n: int) -> Seq<usize>
        decreases n,
    {
        if n <= 0 {
            Seq::empty()
        } else if BitMap::word_matches(slots[n - 1], mask) {
            BitMap::matching_upto(slots, mask, n - 1).push((n - 1) as usize)
        } else {
            BitMap::matching_upto(slots, mask, n - 1)
        }
    }

    pub fn new() -> (r: Self)
        ensures
            r.names() =~= Seq::<Seq<char>>::empty(),
            r.slots() =~= Seq::<u64>::empty(),
            r.wf(),
    {
        Self { component_type_lookup: Vec::new(), entity_map: Vec::new() }
    }

    pub fn max_component_types() -> (r: usize)
        ensures
            r == MAX_COMPONENT_TYPES,
    {
        MAX_COMPONENT_TYPES
    }

    /// The bit position of `name`, if it was registered.
    fn lookup_bit(&self, name: &str) -> (r: Option<usize>)
        requires
            self.wf(),
        ensures
            match r {
                Some(i) => self.is_registered(name@) && i == self.bit_index(name@) && i
                    < self.names().len(),
                None => !self.is_registered(name@),
            },
    {
        let owned: String = name.to_owned();
        let n = self.component_type_lookup.len();
        let mut i: usize = 0;
        while i < n
            invariant
                self.wf(),
                n == self.names().len(),
                i <= n,
                owned@ == name@,
                forall|j: int| 0 <= j < i ==> self.names()[j] != name@,
            decreases n - i,
        {
            if self.component_type_lookup[i] == owned {
                proof {
                    assert(self.names()[i as int] == name@);
                    assert(self.is_registered(name@));
                    let c = self.bit_index(name@);
                    assert(0 <= c < self.names().len() && self.names()[c] == name@);
                    if c < i {
                        assert(self.names()[c] != self.names()[i as int]);
                    } else if i < c {
                        assert(self.names()[i as int] != self.names()[c]);
                    }
                    assert(c == i);
                }
                return Some(i);
            }
            i += 1;
        }
        None
    }

    /// Assign the next free bit to `name`. Registering a name again is a
    /// harmless no-op; registering a 65th distinct name fails and changes
    /// nothing.
    pub fn register(&mut self, name: String) -> (r: Result<(), BbEcsError>)
        requires
            old(self).wf(),
        ensures
            final(self).wf(),
            final(self).slots() == old(self).slots(),
            old(self).is_registered(name@) ==> *final(self) == *old(self) && r is Ok,
            !old(self).is_registered(name@) && old(self).names().len() < MAX_COMPONENT_TYPES
                ==> final(self).names() == old(self).names().push(name@) && r is Ok,
            !old(self).is_registered(name@) && old(self).names().len() >= MAX_COMPONENT_TYPES
                ==> *final(self) == *old(self) && r == Err::<(), BbEcsError>(
                    BbEcsError::TooManyComponentTypes(name),
                ),
    {
        let ghost pre = *self;
        if self.lookup_bit(name.as_str()).is_none() {
            if self.component_type_lookup.len() >= MAX_COMPONENT_TYPES {
                return Err(BbEcsError::TooManyComponentTypes(name));
            }
            let ghost nv = name@;
            self.component_type_lookup.push(name);
            proof {
                assert(self.names() =~= pre.names().push(nv));
                assert forall|i: int, j: int|
                    0 <= i < j < self.names().len() implies self.names()[i]
                    != self.names()[j] by {
                    if j == self.names().len() - 1 {
                        assert(!pre.names().contains(nv));
                        assert(pre.names()[i] != nv);
                    }
                }
            }
        }
        Ok(())
    }

    /// Give a newly touched slot a zero mask word. Touching any other index
    /// changes nothing; the call is idempotent.
    pub fn spawn_entity(&mut self, index: usize) -> (r: Result<(), BbEcsError>)
        ensures
            final(self).names() == old(self).names(),
            index == old(self).slots().len() ==> final(self).slots() == old(self).slots().push(
                0u64,
            ),
            index != old(self).slots().len() ==> *final(self) == *old(self),
            r is Ok,
    {
        if index == self.entity_map.len() {
            self.entity_map.push(0);
        }
        Ok(())
    }

    /// Set the bit of component type `name` in slot `index`'s mask word.
    pub fn insert(&mut self, index: usize, name: &str) -> (r: Result<(), BbEcsError>)
        requires
            old(self).wf(),
            index < old(self).slots().len(),
        ensures
            final(self).wf(),
            final(self).names() == old(self).names(),
            final(self).slots().len() == old(self).slots().len(),
            old(self).is_registered(name@) ==> {
                &&& r is Ok
                &&& final(self).slots() == old(self).slots().update(
                    index as int,
                    old(self).slots()[index as int] | old(self).mask_of(name@),
                )
            },
            !old(self).is_registered(name@) ==> *final(self) == *old(self) && r == Err::<
                (),
                BbEcsError,
            >(BbEcsError::BitMapInsertBeforeRegister),
    {
        match self.lookup_bit(name) {
            Some(bit) => {
                let word = self.entity_map[index];
                self.entity_map.set(index, word | (1u64 << (bit as u64)));
                Ok(())
            },
            None => Err(BbEcsError::BitMapInsertBeforeRegister),
        }
    }

    /// Set the bit of component type `name` in every listed slot's mask word.
    pub fn insert_for_many(&mut self, ids: &[usize], name: &str) -> (r: Result<(), BbEcsError>)
        requires
            old(self).wf(),
            forall|k: int| 0 <= k < ids@.len() ==> ids@[k] < old(self).slots().len(),
        ensures
            final(self).wf(),
            final(self).names() == old(self).names(),
            final(self).slots().len() == old(self).slots().len(),
            old(self).is_registered(name@) ==> {
                &&& r is Ok
                &&& forall|i: usize|
                    i < old(self).slots().len() ==> final(self).slots()[i as int] == if ids@
                        .contains(i) {
                        old(self).slots()[i as int] | old(self).mask_of(name@)
                    } else {
                        old(self).slots()[i as int]
                    }
            },
            !old(self).is_registered(name@) ==> *final(self) == *old(self) && r == Err::<
                (),
                BbEcsError,
            >(BbEcsError::BitMapInsertBeforeRegister),
    {
        match self.lookup_bit(name) {
            Some(bit) => {
                let mask: u64 = 1u64 << (bit as u64);
                let ghost orig = *self;
                let mut k: usize = 0;
                while k < ids.len()
                    invariant
                        forall|j: int| 0 <= j < ids@.len() ==> ids@[j] < orig.slots().len(),
                        k <= ids@.len(),
                        mask == orig.mask_of(name@),
                        self.names() == orig.names(),
                        self.slots().len() == orig.slots().len(),
                        forall|i: usize|
                            i < orig.slots().len() ==> self.slots()[i as int] == if ids@.subrange(
                                0,
                                k as int,
                            ).contains(i) {
                                orig.slots()[i as int] | mask
                            } else {
                                orig.slots()[i as int]
                            },
                    decreases ids@.len() - k,
                {
                    let id = ids[k];
                    let word = self.entity_map[id];
                    self.entity_map.set(id, word | mask);
                    proof {
                        assert forall|i: usize| i < orig.slots().len() implies self.slots()[i as int]
                            == if ids@.subrange(0, k + 1).contains(i) {
                            orig.slots()[i as int] | mask
                        } else {
                            orig.slots()[i as int]
                        } by {
                            assert(ids@.subrange(0, k + 1) == ids@.subrange(0, k as int).push(
                                ids@[k as int],
                            ));
                            if i == id {
                                assert(ids@.subrange(0, k + 1)[k as int] == id);
                                assert(ids@.subrange(0, k + 1).contains(i));
                                let s: u64 = orig.slots()[i as int];
                                assert((s | mask) | mask == s | mask) by (bit_vector);
                            } else {
                                let pre = ids@.subrange(0, k as int);
                                let ext = ids@.subrange(0, k + 1);
                                if ext.contains(i) {
                                    let j = choose|j: int| 0 <= j < ext.len() && ext[j] == i;
                                    assert(ext[k as int] == id);
                                    assert(j != k);
                                    assert(pre[j] == i);
                                    assert(pre.contains(i));
                                }
                                if pre.contains(i) {
                                    let j = choose|j: int| 0 <= j < pre.len() && pre[j] == i;
                                    assert(ext[j] == i);
                                    assert(ext.contains(i));
                                }
                            }
                        }
                    }
                    k += 1;
                }
                proof {
                    assert(ids@.subrange(0, ids@.len() as int) == ids@);
                }
                Ok(())
            },
            None => Err(BbEcsError::BitMapInsertBeforeRegister),
        }
    }

    /// The slots that carry every requested component type, ascending.
    /// Requesting an unregistered name is an error; requesting no names at
    /// all matches every slot.
    pub fn query(&self, names: Vec<&str>) -> (r: Result<Vec<usize>, BbEcsError>)
        requires
            self.wf(),
        ensures
            match r {
                Ok(ids) => {
                    &&& forall|k: int| 0 <= k < names@.len() ==> self.is_registered(names@[k]@)
                    &&& ids@ == BitMap::matching_upto(
                        self.slots(),
                        self.request_mask(names@.map_values(|s: &str| s@)),
                        self.slots().len() as int,
                    )
                },
                Err(e) => {
                    &&& exists|k: int|
                        0 <= k < names@.len() && !self.is_registered(names@[k]@) && (forall|j: int|
                            0 <= j < k ==> self.is_registered(names@[j]@)) && (e matches
                        BbEcsError::ComponentNotFound(s) && s@ == names@[k]@)
                },
            },
    {
        let ghost name_views = names@.map_values(|s: &str| s@);
        let mut bitfield_match: u64 = 0;
        let n = names.len();
        let mut k: usize = 0;
        while k < n
            invariant
                self.wf(),
                n == names@.len(),
                k <= n,
                name_views == names@.map_values(|s: &str| s@),
                forall|j: int| 0 <= j < k ==> self.is_registered(names@[j]@),
                bitfield_match == self.request_mask_prefix(name_views, k as int),
            decreases n - k,
        {
            match self.lookup_bit(names[k]) {
                Some(bit) => {
                    bitfield_match = bitfield_match | (1u64 << (bit as u64));
                },
                None => {
                    return Err(BbEcsError::ComponentNotFound(names[k].to_owned()));
                },
            }
            k += 1;
        }

        let mut ret_ids: Vec<usize> = Vec::new();
        let m = self.entity_map.len();
        let mut i: usize = 0;
        while i < m
            invariant
                m == self.slots().len(),
                i <= m,
                bitfield_match == self.request_mask(name_views),
                ret_ids@ == BitMap::matching_upto(self.slots(), bitfield_match, i as int),
            decreases m - i,
        {
            if self.entity_map[i] & bitfield_match == bitfield_match {
                ret_ids.push(i);
            }
            i += 1;
        }
        Ok(ret_ids)
    }

    /// How many component types are registered.
    pub fn num_registered(&self) -> (r: usize)
        ensures
            r == self.names().len(),
    {
        self.component_type_lookup.len()
    }

    /// Whether `name` was registered.
    pub fn contains_name(&self, name: &str) -> (r: bool)
        requires
            self.wf(),
        ensures
            r == self.is_registered(name@),
    {
        self.lookup_bit(name).is_some()
    }

    /// How many entity slots have been touched.
    pub fn num_slots(&self) -> (r: usize)
        ensures
            r == self.slots().len(),
    {
        self.entity_map.len()
    }

    /// The mask word of one slot.
    pub fn mask_word(&self, index: usize) -> (r: u64)
        requires
            index < self.slots().len(),
        ensures
            r == self.slots()[index as int],
    {
        self.entity_map[index]
    }

    /// The one-bit mask of a name, if it was registered.
    pub fn name_mask(&self, name: &str) -> (r: Option<u64>)
        requires
            self.wf(),
        ensures
            match r {
                Some(m) => self.is_registered(name@) && m == self.mask_of(name@),
                None => !self.is_registered(name@),
            },
    {
        match self.lookup_bit(name) {
            Some(bit) => Some(1u64 << (bit as u64)),
            None => None,
        }
    }

    /// Zero the mask word of every listed slot; all other slots keep theirs.
    pub fn delete_entities_by_index(&mut self, entity_indexes: &[usize]) -> (r: Result<
        (),
        BbEcsError,
    >)
        requires
            forall|k: int|
                0 <= k < entity_indexes@.len() ==> entity_indexes@[k] < old(self).slots().len(),
        ensures
            final(self).names() == old(self).names(),
            final(self).slots().len() == old(self).slots().len(),
            forall|i: usize|
                i < old(self).slots().len() ==> final(self).slots()[i as int] == if entity_indexes@
                    .contains(i) {
                    0u64
                } else {
                    old(self).slots()[i as int]
                },
            r is Ok,
    {
        let ghost orig = *self;
        let mut k: usize = 0;
        while k < entity_indexes.len()
            invariant
                forall|j: int|
                    0 <= j < entity_indexes@.len() ==> entity_indexes@[j] < orig.slots().len(),
                k <= entity_indexes@.len(),
                self.names() == orig.names(),
                self.slots().len() == orig.slots().len(),
                forall|i: usize|
                    i < orig.slots().len() ==> self.slots()[i as int] == if entity_indexes@
                        .subrange(0, k as int).contains(i) {
                        0u64
                    } else {
                        orig.slots()[i as int]
                    },
            decreases entity_indexes@.len() - k,
        {
            let index = entity_indexes[k];
            self.entity_map.set(index, 0);
            proof {
                assert(entity_indexes@.subrange(0, k + 1) == entity_indexes@.subrange(
                    0,
                    k as int,
                ).push(entity_indexes@[k as int]));
                assert forall|i: usize| i < orig.slots().len() implies self.slots()[i as int]
                    == if entity_indexes@.subrange(0, k + 1).contains(i) {
                    0u64
                } else {
                    orig.slots()[i as int]
                } by {
                    if i == index {
                        assert(entity_indexes@.subrange(0, k + 1)[k as int] == index);
                        assert(entity_indexes@.subrange(0, k + 1).contains(index));
                    } else {
                        let pre = entity_indexes@.subrange(0, k as int);
                        let ext = entity_indexes@.subrange(0, k + 1);
                        if ext.contains(i) {
                            let j = choose|j: int| 0 <= j < ext.len() && ext[j] == i;
                            assert(ext[k as int] == index);
                            assert(j != k);
                            assert(pre[j] == i);
                            assert(pre.contains(i));
                        }
                        if pre.contains(i) {
                            let j = choose|j: int| 0 <= j < pre.len() && pre[j] == i;
                            assert(ext[j] == i);
                            assert(ext.contains(i));
                        }
                    }
                }
            }
            k += 1;
        }
        proof {
            assert(entity_indexes@.subrange(0, entity_indexes@.len() as int) == entity_indexes@);
        }
        Ok(())
    }
}

/// Every registered name's bit is its registration position, so distinct
/// names always hold distinct bits of the mask word.
pub proof fn lemma_bits_are_registration_order(m: BitMap)
    requires
        m.wf(),
    ensures
        forall|i: int| 0 <= i < m.names().len() ==> m.bit_index(#[trigger] m.names()[i]) == i,
        forall|i: int, j: int|
            0 <= i < m.names().len() && 0 <= j < m.names().len() && i != j ==> m.bit_index(
                m.names()[i],
            ) != m.bit_index(m.names()[j]),
{
    assert forall|i: int| 0 <= i < m.names().len() implies m.bit_index(#[trigger] m.names()[i])
        == i by {
        assert(m.names().contains(m.names()[i]));
        let c = m.bit_index(m.names()[i]);
        assert(0 <= c < m.names().len() && m.names()[c] == m.names()[i]);
        if c < i {
            assert(m.names()[c] != m.names()[i]);
        } else if i < c {
            assert(m.names()[i] != m.names()[c]);
        }
    }
}

/// What the slot list of one match mask holds: exactly the slots below `n`
/// whose words carry the whole mask, each once, in ascending order.
pub proof fn lemma_matching_upto_props(slots: Seq<u64>, mask: u64, n: int)
    requires
        0 <= n <= slots.len(),
        n <= usize::MAX,
    ensures
        forall|k: int|
            0 <= k < BitMap::matching_upto(slots, mask, n).len() ==> (#[trigger] BitMap::matching_upto(
                slots,
                mask,
                n,
            )[k]) < n && BitMap::word_matches(
                slots[BitMap::matching_upto(slots, mask, n)[k] as int],
                mask,
            ),
        forall|a: int, b: int|
            0 <= a < b < BitMap::matching_upto(slots, mask, n).len() ==> BitMap::matching_upto(
                slots,
                mask,
                n,
            )[a] < BitMap::matching_upto(slots, mask, n)[b],
        forall|i: usize|
            i < n && BitMap::word_matches(slots[i as int], mask) ==> BitMap::matching_upto(
                slots,
                mask,
                n,
            ).contains(i),
        forall|i: usize|
            BitMap::matching_upto(slots, mask, n).contains(i) ==> i < n && BitMap::word_matches(
                slots[i as int],
                mask,
            ),
    decreases n,
{
    if n > 0 {
        lemma_matching_upto_props(slots, mask, n - 1);
        let prev = BitMap::matching_upto(slots, mask, n - 1);
        let cur = BitMap::matching_upto(slots, mask, n);
        assert forall|i: usize|
            i < n && BitMap::word_matches(slots[i as int], mask) implies cur.contains(i) by {
            if i < n - 1 {
                assert(prev.contains(i));
                let k = choose|k: int| 0 <= k < prev.len() && prev[k] == i;
                assert(cur[k] == i);
            } else {
                assert(cur[cur.len() - 1] == i);
            }
        }
        assert forall|i: usize| cur.contains(i) implies i < n && BitMap::word_matches(
            slots[i as int],
            mask,
        ) by {
            let k = choose|k: int| 0 <= k < cur.len() && cur[k] == i;
            if k < prev.len() {
                assert(prev[k] == i);
                assert(prev.contains(i));
            }
        }
    }
}

/// Setting bits outside the match mask in one slot's word never changes
/// which slots match.
pub proof fn lemma_matching_upto_or_disjoint(slots: Seq<u64>, id: usize, d: u64, m: u64, n: int)
    requires
        d & m == 0,
        id < slots.len(),
        0 <= n <= slots.len(),
    ensures
        BitMap::matching_upto(slots.update(id as int, slots[id as int] | d), m, n)
            == BitMap::matching_upto(slots, m, n),
    decreases n,
{
    let s2 = slots.update(id as int, slots[id as int] | d);
    if n > 0 {
        lemma_matching_upto_or_disjoint(slots, id, d, m, n - 1);
        let w: u64 = slots[n - 1];
        assert(((w | d) & m == m) == (w & m == m)) by (bit_vector)
            requires
                d & m == 0,
        ;
        assert(BitMap::word_matches(s2[n - 1], m) == BitMap::word_matches(slots[n - 1], m));
    }
}

/// A request for names that all keep clear of one reserved bit builds a
/// match mask with that bit clear.
pub proof fn lemma_request_mask_avoids(m: BitMap, names: Seq<Seq<char>>, other: Seq<char>, k: int)
    requires
        m.wf(),
        m.is_registered(other),
        0 <= k <= names.len(),
        forall|j: int| 0 <= j < names.len() ==> m.is_registered(#[trigger] names[j]) && names[j]
            != other,
    ensures
        m.mask_of(other) & m.request_mask_prefix(names, k) == 0,
    decreases k,
{
    lemma_bits_are_registration_order(m);
    let bo = m.bit_index(other);
    assert(0 <= bo < m.names().len() && m.names()[bo] == other);
    if k == 0 {
        let mo = m.mask_of(other);
        assert(mo & 0u64 == 0) by (bit_vector);
    } else {
        lemma_request_mask_avoids(m, names, other, k - 1);
        let nm = names[k - 1];
        let bj = m.bit_index(nm);
        assert(0 <= bj < m.names().len() && m.names()[bj] == nm);
        assert(bj != bo);
        let a: u64 = bo as u64;
        let b: u64 = bj as u64;
        assert((1u64 << a) & (1u64 << b) == 0) by (bit_vector)
            requires
                a < 64,
                b < 64,
                a != b,
        ;
        let mo = m.mask_of(other);
        let acc = m.request_mask_prefix(names, k - 1);
        let mj = m.mask_of(nm);
        assert(mo & (acc | mj) == 0) by (bit_vector)
            requires
                mo & acc == 0,
                mo & mj == 0,
        ;
    }
}

/// The match mask of a request depends only on the registered names, not on
/// the slots.
pub proof fn lemma_request_mask_same_names(m1: BitMap, m2: BitMap, names: Seq<Seq<char>>, k: int)
    requires
        m1.names() == m2.names(),
        0 <= k <= names.len(),
    ensures
        m1.request_mask_prefix(names, k) == m2.request_mask_prefix(names, k),
    decreases k,
{
    if k > 0 {
        lemma_request_mask_same_names(m1, m2, names, k - 1);
    }
}

/// A request for at least one registered name builds a nonzero match mask.
pub proof fn lemma_request_mask_nonzero(m: BitMap, names: Seq<Seq<char>>)
    requires
        m.wf(),
        names.len() > 0,
        forall|j: int| 0 <= j < names.len() ==> m.is_registered(#[trigger] names[j]),
    ensures
        m.request_mask(names) != 0,
{
    lemma_bits_are_registration_order(m);
    let last = names[names.len() - 1];
    let bj = m.bit_index(last);
    assert(0 <= bj < m.names().len() && m.names()[bj] == last);
    let b: u64 = bj as u64;
    assert(1u64 << b != 0) by (bit_vector)
        requires
            b < 64,
    ;
    let acc = m.request_mask_prefix(names, names.len() - 1);
    let mj = m.mask_of(last);
    assert(acc | mj != 0) by (bit_vector)
        requires
            mj != 0,
    ;
}

} // verus!
