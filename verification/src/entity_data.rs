//! The column store: one dense array of tagged values per registered
//! component type, all of one shared capacity, addressed by entity slot.
//! Unused positions hold the `Blank` sentinel.

use vstd::prelude::*;

use crate::components::ComponentData;
use crate::errors::BbEcsError;

verus! {

/// How many slots every column gains when the store grows.
pub const CAPACITY_STEP: usize = 256;

struct Column {
    name: String,
    data: Vec<ComponentData>,
}

/// Per-type value columns of one shared, block-grown capacity.
pub struct EntityData {
    components: Vec<Column>,
    entity_capacity: usize,
}

/// A column of `n` unused slots.
pub open spec fn blank_column(n: nat) -> Seq<ComponentData> {
    Seq::new(n, |i: int| ComponentData::Blank)
}

impl EntityData {
    /// The registered column names, in registration order.
    pub closed spec fn names(self) -> Seq<Seq<char>> {
        self.components@.map_values(|c: Column| c.name@)
    }

    /// The column contents, in the same order as `names()`.
    pub closed spec fn cols(self) -> Seq<Seq<ComponentData>> {
        self.components@.map_values(|c: Column| c.data@)
    }

    /// The store-wide slot capacity every column has.
    pub closed spec fn capacity(self) -> nat {
        self.entity_capacity as nat
    }

    pub open spec fn is_registered(self, name: Seq<char>) -> bool {
        self.names().contains(name)
    }

    /// The position of a registered name's column.
    pub open spec fn col_index(self, name: Seq<char>) -> int {
        self.names().index_of(name)
    }

    /// The contents of a registered name's column.
    pub open spec fn col_of(self, name: Seq<char>) -> Seq<ComponentData> {
        self.cols()[self.col_index(name)]
    }

    /// Well-formed: column names are distinct and every column has exactly
    /// the shared capacity.
    pub open spec fn wf(self) -> bool {
        &&& forall|i: int, j: int|
            0 <= i < j < self.names().len() ==> self.names()[i] != self.names()[j]
        &&& self.cols().len() == self.names().len()
        &&& forall|c: int| 0 <= c < self.cols().len() ==> (#[trigger] self.cols()[c]).len()
            == self.capacity()
        &&& self.capacity() >= CAPACITY_STEP
    }

    pub fn new() -> (r: Self)
        ensures
            r.names() =~= Seq::<Seq<char>>::empty(),
            r.capacity() == CAPACITY_STEP,
            r.wf(),
    {
        Self { components: Vec::new(), entity_capacity: CAPACITY_STEP }
    }

    /// The store-wide slot capacity every column currently has.
    pub fn current_capacity(&self) -> (r: usize)
        ensures
            r == self.capacity(),
    {
        self.entity_capacity
    }

    /// The position of `name`'s column, if one was registered.
    fn lookup_col(&self, name: &str) -> (r: Option<usize>)
        requires
            self.wf(),
        ensures
            match r {
                Some(i) => self.is_registered(name@) && i == self.col_index(name@) && i
                    < self.names().len(),
                None => !self.is_registered(name@),
            },
    {
        let owned: String = name.to_owned();
        let n = self.components.len();
        let mut i: usize = 0;
        while i < n
            invariant
                self.wf(),
                n == self.names().len(),
                i <= n,
                owned@ == name@,
                forall|j: int| 0 <= j < i ==> self.names()[j] != name@,
            decreases n - i,
        {
            if self.components[i].name == owned {
                proof {
                    assert(self.names()[i as int] == name@);
                    assert(self.is_registered(name@));
                    let c = self.col_index(name@);
                    assert(0 <= c < self.names().len() && self.names()[c] == name@);
                    if c < i {
                        assert(self.names()[c] != self.names()[i as int]);
                    } else if i < c {
                        assert(self.names()[i as int] != self.names()[c]);
                    }
                }
                return Some(i);
            }
            i += 1;
        }
        None
    }

    /// Create the column of a new component type, filled with the unused
    /// sentinel. Registering a name twice is an error and changes nothing.
    pub fn register(&mut self, name: String) -> (r: Result<(), BbEcsError>)
        requires
            old(self).wf(),
        ensures
            final(self).wf(),
            final(self).capacity() == old(self).capacity(),
            old(self).is_registered(name@) ==> *final(self) == *old(self) && r == Err::<
                (),
                BbEcsError,
            >(BbEcsError::ComponentAlreadyRegistered(name)),
            !old(self).is_registered(name@) ==> {
                &&& r is Ok
                &&& final(self).names() == old(self).names().push(name@)
                &&& final(self).cols() == old(self).cols().push(
                    blank_column(old(self).capacity()),
                )
            },
    {
        if self.lookup_col(name.as_str()).is_some() {
            return Err(BbEcsError::ComponentAlreadyRegistered(name));
        }
        let mut data: Vec<ComponentData> = Vec::new();
        let cap = self.entity_capacity;
        let mut i: usize = 0;
        while i < cap
            invariant
                i <= cap,
                data@.len() == i,
                forall|j: int| 0 <= j < i ==> data@[j] == ComponentData::Blank,
            decreases cap - i,
        {
            data.push(ComponentData::Blank);
            i += 1;
        }
        let ghost pre = *self;
        let ghost nv = name@;
        let ghost dv = data@;
        self.components.push(Column { name, data });
        proof {
            assert(dv =~= blank_column(pre.capacity()));
            assert(self.names() =~= pre.names().push(nv));
            assert(self.cols() =~= pre.cols().push(dv));
            assert forall|i: int, j: int|
                0 <= i < j < self.names().len() implies self.names()[i] != self.names()[j] by {
                if j == self.names().len() - 1 {
                    assert(!pre.names().contains(nv));
                    assert(pre.names()[i] != nv);
                }
            }
        }
        Ok(())
    }

    /// Grow the store by one capacity block once `index` reaches the current
    /// capacity, padding every column with the unused sentinel; any other
    /// index leaves the store unchanged. Values already stored keep their
    /// slots.
    pub fn spawn_entity(&mut self, index: usize) -> (r: Result<(), BbEcsError>)
        requires
            old(self).wf(),
            old(self).capacity() + CAPACITY_STEP <= usize::MAX,
        ensures
            final(self).wf(),
            final(self).names() == old(self).names(),
            index == old(self).capacity() ==> {
                &&& final(self).capacity() == old(self).capacity() + CAPACITY_STEP
                &&& forall|c: int|
                    0 <= c < old(self).cols().len() ==> #[trigger] final(self).cols()[c]
                        == old(self).cols()[c] + blank_column(CAPACITY_STEP as nat)
            },
            index != old(self).capacity() ==> *final(self) == *old(self),
            r is Ok,
    {
        if index == self.entity_capacity {
            let ghost orig = *self;
            self.entity_capacity += CAPACITY_STEP;
            let n = self.components.len();
            let mut c: usize = 0;
            while c < n
                invariant
                    orig.wf(),
                    n == orig.cols().len(),
                    c <= n,
                    self.entity_capacity == orig.entity_capacity + CAPACITY_STEP,
                    self.names() == orig.names(),
                    self.cols().len() == orig.cols().len(),
                    forall|k: int| c <= k < n ==> #[trigger] self.cols()[k] == orig.cols()[k],
                    forall|k: int|
                        0 <= k < c ==> #[trigger] self.cols()[k] == orig.cols()[k] + blank_column(
                            CAPACITY_STEP as nat,
                        ),
                decreases n - c,
            {
                let ghost snapshot = *self;
                let column = &mut self.components[c];
                let ghost col0 = *column;
                proof {
                    assert(col0.data@ == snapshot.cols()[c as int]);
                    assert(snapshot.cols()[c as int] == orig.cols()[c as int]);
                }
                let mut i: usize = 0;
                while i < CAPACITY_STEP
                    invariant
                        i <= CAPACITY_STEP,
                        column.name == col0.name,
                        column.data@ == col0.data@ + blank_column(i as nat),
                    decreases CAPACITY_STEP - i,
                {
                    column.data.push(ComponentData::Blank);
                    proof {
                        assert(column.data@ =~= col0.data@ + blank_column((i + 1) as nat));
                    }
                    i += 1;
                }
                proof {
                    assert(self.components@ =~= snapshot.components@.update(
                        c as int,
                        self.components@[c as int],
                    ));
                    assert forall|k: int| 0 <= k < n && k != c implies #[trigger] self.cols()[k]
                        == snapshot.cols()[k] by {}
                    assert(self.cols()[c as int] =~= orig.cols()[c as int] + blank_column(
                        CAPACITY_STEP as nat,
                    ));
                }
                c += 1;
            }
        }
        Ok(())
    }

    /// Overwrite slot `index` of component type `name`'s column.
    pub fn insert(&mut self, name: &str, index: usize, data: ComponentData) -> (r: Result<
        (),
        BbEcsError,
    >)
        requires
            old(self).wf(),
            index < old(self).capacity(),
        ensures
            final(self).wf(),
            final(self).names() == old(self).names(),
            final(self).capacity() == old(self).capacity(),
            old(self).is_registered(name@) ==> {
                &&& r is Ok
                &&& final(self).cols() == old(self).cols().update(
                    old(self).col_index(name@),
                    old(self).col_of(name@).update(index as int, data),
                )
            },
            !old(self).is_registered(name@) ==> *final(self) == *old(self) && r == Err::<
                (),
                BbEcsError,
            >(BbEcsError::NeedToRegister),
    {
        match self.lookup_col(name) {
            Some(c) => {
                let ghost pre = *self;
                proof {
                    assert(pre.cols()[c as int].len() == pre.capacity());
                }
                let column = &mut self.components[c];
                proof {
                    assert(column.data@ == pre.cols()[c as int]);
                }
                column.data.set(index, data);
                proof {
                    assert(self.components@ =~= pre.components@.update(
                        c as int,
                        self.components@[c as int],
                    ));
                    assert(self.names() =~= pre.names());
                    assert(self.cols() =~= pre.cols().update(
                        pre.col_index(name@),
                        pre.col_of(name@).update(index as int, data),
                    ));
                }
                Ok(())
            },
            None => Err(BbEcsError::NeedToRegister),
        }
    }

    /// The per-type views of the listed slots: for each requested name, in
    /// request order, the values of that name's column at exactly the listed
    /// slots, in the order the slots are listed.
    pub fn query<'a>(&'a self, names: Vec<&str>, bitmap: &[usize]) -> (r: Result<
        Vec<(String, Vec<&'a ComponentData>)>,
        BbEcsError,
    >)
        requires
            self.wf(),
            forall|k: int| 0 <= k < bitmap@.len() ==> bitmap@[k] < self.capacity(),
        ensures
            match r {
                Ok(res) => {
                    &&& forall|j: int| 0 <= j < names@.len() ==> self.is_registered(names@[j]@)
                    &&& res@.len() == names@.len()
                    &&& forall|j: int| 0 <= j < names@.len() ==> (#[trigger] res@[j]).0@
                        == names@[j]@
                    &&& forall|j: int| 0 <= j < names@.len() ==> (#[trigger] res@[j]).1@.len()
                        == bitmap@.len()
                    &&& forall|j: int, k: int|
                        0 <= j < names@.len() && 0 <= k < bitmap@.len()
                            ==> (#[trigger] res@[j].1@[k]) == self.col_of(names@[j]@)[bitmap@[k] as int]
                },
                Err(e) => {
                    &&& exists|j: int|
                        0 <= j < names@.len() && !self.is_registered(names@[j]@) && (forall|i: int|
                            0 <= i < j ==> self.is_registered(names@[i]@)) && (e matches
                        BbEcsError::ComponentNotFound(s) && s@ == names@[j]@)
                },
            },
    {
        let mut results: Vec<(String, Vec<&ComponentData>)> = Vec::new();
        let n = names.len();
        let mut j: usize = 0;
        while j < n
            invariant
                self.wf(),
                forall|k: int| 0 <= k < bitmap@.len() ==> bitmap@[k] < self.capacity(),
                n == names@.len(),
                j <= n,
                results@.len() == j,
                forall|t: int| 0 <= t < j ==> self.is_registered(names@[t]@),
                forall|t: int| 0 <= t < j ==> (#[trigger] results@[t]).0@ == names@[t]@,
                forall|t: int| 0 <= t < j ==> (#[trigger] results@[t]).1@.len() == bitmap@.len(),
                forall|t: int, k: int|
                    0 <= t < j && 0 <= k < bitmap@.len() ==> (#[trigger] results@[t].1@[k])
                        == self.col_of(names@[t]@)[bitmap@[k] as int],
            decreases n - j,
        {
            let name = names[j];
            match self.lookup_col(name) {
                Some(c) => {
                    let mut c_vec: Vec<&ComponentData> = Vec::new();
                    let m = bitmap.len();
                    let mut k: usize = 0;
                    while k < m
                        invariant
                            self.wf(),
                            forall|t: int| 0 <= t < bitmap@.len() ==> bitmap@[t] < self.capacity(),
                            m == bitmap@.len(),
                            k <= m,
                            c < self.names().len(),
                            c == self.col_index(name@),
                            self.is_registered(name@),
                            c_vec@.len() == k,
                            forall|t: int|
                                0 <= t < k ==> (#[trigger] c_vec@[t]) == self.col_of(
                                    name@,
                                )[bitmap@[t] as int],
                        decreases m - k,
                    {
                        let index = bitmap[k];
                        proof {
                            assert(self.cols()[c as int].len() == self.capacity());
                            assert(self.components@[c as int].data@ == self.cols()[c as int]);
                        }
                        c_vec.push(&self.components[c].data[index]);
                        k += 1;
                    }
                    results.push((name.to_owned(), c_vec));
                },
                None => {
                    return Err(BbEcsError::ComponentNotFound(name.to_owned()));
                },
            }
            j += 1;
        }
        Ok(results)
    }

    /// Restore the unused sentinel at each listed slot of every column; the
    /// capacity and all other slots stay as they are.
    pub fn delete_entities_by_index(&mut self, indexes_to_delete: &[usize]) -> (r: Result<
        (),
        BbEcsError,
    >)
        requires
            old(self).wf(),
            forall|k: int| 0 <= k < indexes_to_delete@.len() ==> indexes_to_delete@[k] < old(
                self,
            ).capacity(),
        ensures
            final(self).wf(),
            final(self).names() == old(self).names(),
            final(self).capacity() == old(self).capacity(),
            final(self).cols().len() == old(self).cols().len(),
            forall|c: int, i: usize|
                0 <= c < old(self).cols().len() && i < old(self).capacity()
                    ==> (#[trigger] final(self).cols()[c][i as int]) == if indexes_to_delete@
                    .contains(i) {
                    ComponentData::Blank
                } else {
                    old(self).cols()[c][i as int]
                },
            r is Ok,
    {
        let ghost orig = *self;
        let n = self.components.len();
        let mut c: usize = 0;
        while c < n
            invariant
                orig.wf(),
                forall|k: int|
                    0 <= k < indexes_to_delete@.len() ==> indexes_to_delete@[k] < orig.capacity(),
                n == orig.cols().len(),
                c <= n,
                self.entity_capacity == orig.entity_capacity,
                self.names() == orig.names(),
                self.cols().len() == orig.cols().len(),
                forall|t: int| c <= t < n ==> #[trigger] self.cols()[t] == orig.cols()[t],
                forall|t: int|
                    0 <= t < c ==> (#[trigger] self.cols()[t]).len() == orig.capacity(),
                forall|t: int, i: usize|
                    0 <= t < c && i < orig.capacity() ==> (#[trigger] self.cols()[t][i as int])
                        == if indexes_to_delete@.contains(i) {
                        ComponentData::Blank
                    } else {
                        orig.cols()[t][i as int]
                    },
            decreases n - c,
        {
            let ghost snapshot = *self;
            let column = &mut self.components[c];
            let ghost col0 = *column;
            proof {
                assert(col0.data@ == snapshot.cols()[c as int]);
                assert(snapshot.cols()[c as int] == orig.cols()[c as int]);
                assert(orig.cols()[c as int].len() == orig.capacity());
            }
            let m = indexes_to_delete.len();
            let mut k: usize = 0;
            while k < m
                invariant
                    m == indexes_to_delete@.len(),
                    k <= m,
                    column.name == col0.name,
                    column.data@.len() == col0.data@.len(),
                    forall|t: int| 0 <= t < m ==> indexes_to_delete@[t] < col0.data@.len(),
                    forall|i: usize|
                        i < col0.data@.len() ==> (#[trigger] column.data@[i as int])
                            == if indexes_to_delete@.subrange(0, k as int).contains(i) {
                            ComponentData::Blank
                        } else {
                            col0.data@[i as int]
                        },
                decreases m - k,
            {
                let index = indexes_to_delete[k];
                column.data.set(index, ComponentData::Blank);
                proof {
                    assert(indexes_to_delete@.subrange(0, k + 1) == indexes_to_delete@.subrange(
                        0,
                        k as int,
                    ).push(indexes_to_delete@[k as int]));
                    assert forall|i: usize| i < col0.data@.len() implies (
                    #[trigger] column.data@[i as int]) == if indexes_to_delete@.subrange(
                        0,
                        k + 1,
                    ).contains(i) {
                        ComponentData::Blank
                    } else {
                        col0.data@[i as int]
                    } by {
                        let pre = indexes_to_delete@.subrange(0, k as int);
                        let ext = indexes_to_delete@.subrange(0, k + 1);
                        if i == index {
                            assert(ext[k as int] == index);
                            assert(ext.contains(index));
                        } else {
                            if ext.contains(i) {
                                let j = choose|j: int| 0 <= j < ext.len() && ext[j] == i;
                                assert(ext[k as int] == index);
                                assert(j != k);
                                assert(pre[j] == i);
                                assert(pre.contains(i));
                            }
                            if pre.contains(i) {
                                let j = choose|j: int| 0 <= j < pre.len() && pre[j] == i;
                                assert(ext[j] == i);
                                assert(ext.contains(i));
                            }
                        }
                    }
                }
                k += 1;
            }
            proof {
                assert(indexes_to_delete@.subrange(0, indexes_to_delete@.len() as int)
                    == indexes_to_delete@);
                assert(self.components@ =~= snapshot.components@.update(
                    c as int,
                    self.components@[c as int],
                ));
                assert forall|t: int| 0 <= t < n && t != c implies #[trigger] self.cols()[t]
                    == snapshot.cols()[t] by {}
                assert(col0.data@ == orig.cols()[c as int]);
            }
            c += 1;
        }
        Ok(())
    }
}

} // verus!
