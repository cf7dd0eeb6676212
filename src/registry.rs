//! The transaction registry: an arena that owns every open transaction and
//! addresses each one by an id that is never handed out twice.
use vstd::prelude::*;
use crate::error::Error;

verus! {

/// One arena entry.
pub struct Slot<T> {
    pub id: u128,
    pub item: T,
}

/// Map from id to item of a slot list; a later slot wins over an earlier one
/// of the same id.
pub open spec fn map_of<T>(s: Seq<Slot<T>>) -> Map<u128, T>
    decreases s.len(),
{
    if s.len() == 0 {
        Map::empty()
    } else {
        map_of(s.drop_last()).insert(s.last().id, s.last().item)
    }
}

/// No two slots share an id.
pub open spec fn unique_ids<T>(s: Seq<Slot<T>>) -> bool {
    forall|i: int, j: int| 0 <= i < s.len() && 0 <= j < s.len() && i != j ==> s[i].id != s[j].id
}

proof fn lemma_map_of_dom<T>(s: Seq<Slot<T>>, k: u128)
    ensures
        map_of(s).contains_key(k) <==> exists|i: int| 0 <= i < s.len() && s[i].id == k,
    decreases s.len(),
{
    if s.len() > 0 {
        lemma_map_of_dom(s.drop_last(), k);
        if map_of(s.drop_last()).contains_key(k) {
            let i = choose|i: int| 0 <= i < s.drop_last().len() && s.drop_last()[i].id == k;
            assert(s[i].id == k);
        }
        if exists|i: int| 0 <= i < s.len() && s[i].id == k {
            let i = choose|i: int| 0 <= i < s.len() && s[i].id == k;
            if i < s.len() - 1 {
                assert(s.drop_last()[i].id == k);
            }
        }
    }
}

proof fn lemma_map_of_at<T>(s: Seq<Slot<T>>, i: int)
    requires
        unique_ids(s),
        0 <= i < s.len(),
    ensures
        map_of(s).contains_key(s[i].id),
        map_of(s)[s[i].id] == s[i].item,
    decreases s.len(),
{
    if i < s.len() - 1 {
        assert(unique_ids(s.drop_last()));
        lemma_map_of_at(s.drop_last(), i);
        assert(s.drop_last()[i] == s[i]);
        assert(s[s.len() - 1].id != s[i].id);
    }
}

proof fn lemma_map_of_remove<T>(s: Seq<Slot<T>>, i: int)
    requires
        unique_ids(s),
        0 <= i < s.len(),
    ensures
        map_of(s.remove(i)) == map_of(s).remove(s[i].id),
    decreases s.len(),
{
    let k = s[i].id;
    let d = s.drop_last();
    assert(unique_ids(d));
    if i == s.len() - 1 {
        assert(s.remove(i) =~= d);
        lemma_map_of_dom(d, k);
        assert(!map_of(d).contains_key(k)) by {
            if exists|j: int| 0 <= j < d.len() && d[j].id == k {
                let j = choose|j: int| 0 <= j < d.len() && d[j].id == k;
                assert(s[j].id == k);
            }
        }
        assert(map_of(s).remove(k) =~= map_of(d));
    } else {
        lemma_map_of_remove(d, i);
        assert(s.remove(i).drop_last() =~= d.remove(i));
        assert(s.remove(i).last() == s.last());
        assert(s.last().id != k);
        assert(map_of(s.remove(i)) =~= map_of(s).remove(k));
    }
}

proof fn lemma_map_of_update<T>(s: Seq<Slot<T>>, i: int, t: T)
    requires
        unique_ids(s),
        0 <= i < s.len(),
    ensures
        map_of(s.update(i, Slot { id: s[i].id, item: t })) == map_of(s).insert(s[i].id, t),
    decreases s.len(),
{
    let k = s[i].id;
    let d = s.drop_last();
    let u = s.update(i, Slot { id: k, item: t });
    if i == s.len() - 1 {
        assert(u.drop_last() =~= d);
        assert(map_of(u) =~= map_of(s).insert(k, t));
    } else {
        assert(unique_ids(d));
        lemma_map_of_update(d, i, t);
        assert(u.drop_last() =~= d.update(i, Slot { id: k, item: t }));
        assert(s.last().id != k);
        assert(map_of(u) =~= map_of(s).insert(k, t));
    }
}

/// Open transactions keyed by id, and every id ever handed out.
pub struct Registry<T> {
    slots: Vec<Slot<T>>,
    issued: Vec<u128>,
}

impl<T> View for Registry<T> {
    type V = Map<u128, T>;

    closed spec fn view(&self) -> Map<u128, T> {
        map_of(self.slots@)
    }
}

impl<T> Registry<T> {
    /// Every id that this registry ever accepted.
    pub closed spec fn issued(&self) -> Set<u128> {
        Set::new(|x: u128| self.issued@.contains(x))
    }

    /// Ids are unique and each open one was issued.
    pub closed spec fn wf(&self) -> bool {
        &&& unique_ids(self.slots@)
        &&& forall|i: int| 0 <= i < self.slots@.len() ==> self.issued@.contains(self.slots@[i].id)
    }

    pub fn new() -> (r: Self)
        ensures
            r.wf(),
            r@ == Map::<u128, T>::empty(),
            r.issued() == Set::<u128>::empty(),
    {
        let r = Registry { slots: Vec::new(), issued: Vec::new() };
        assert(r.issued() =~= Set::<u128>::empty());
        r
    }

    /// Every open id was issued.
    pub proof fn lemma_wf_dom(&self)
        requires
            self.wf(),
        ensures
            self@.dom().subset_of(self.issued()),
    {
        assert forall|k: u128| self@.contains_key(k) implies self.issued().contains(k) by {
            lemma_map_of_dom(self.slots@, k);
        }
    }

    /// Index of the slot holding `id`.
    fn find(&self, id: u128) -> (r: Option<usize>)
        requires
            self.wf(),
        ensures
            match r {
                Some(i) => i < self.slots@.len() && self.slots@[i as int].id == id,
                None => !self@.contains_key(id),
            },
    {
        let n = self.slots.len();
        let mut i: usize = 0;
        while i < n
            invariant
                n == self.slots@.len(),
                i <= n,
                forall|j: int| 0 <= j < i ==> self.slots@[j].id != id,
            decreases n - i,
        {
            if self.slots[i].id == id {
                return Some(i);
            }
            i = i + 1;
        }
        proof {
            lemma_map_of_dom(self.slots@, id);
        }
        None
    }

    /// Whether `id` was ever accepted.
    fn was_issued(&self, id: u128) -> (r: bool)
        requires
            self.wf(),
        ensures
            r == self.issued().contains(id),
    {
        let n = self.issued.len();
        let mut i: usize = 0;
        while i < n
            invariant
                n == self.issued@.len(),
                i <= n,
                forall|j: int| 0 <= j < i ==> self.issued@[j] != id,
            decreases n - i,
        {
            if self.issued[i] == id {
                return true;
            }
            i = i + 1;
        }
        false
    }

    pub fn contains(&self, id: u128) -> (r: bool)
        requires
            self.wf(),
        ensures
            r == self@.contains_key(id),
    {
        match self.find(id) {
            Some(i) => {
                proof {
                    lemma_map_of_at(self.slots@, i as int);
                }
                true
            },
            None => false,
        }
    }

    pub fn len(&self) -> (r: usize)
        requires
            self.wf(),
        ensures
            r == self@.len(),
            r == 0 <==> self@ == Map::<u128, T>::empty(),
    {
        proof {
            self.lemma_len();
        }
        self.slots.len()
    }

    proof fn lemma_len(&self)
        requires
            self.wf(),
        ensures
            self@.len() == self.slots@.len(),
            self.slots@.len() == 0 <==> self@ == Map::<u128, T>::empty(),
    {
        lemma_map_of_len(self.slots@);
        if self.slots@.len() > 0 {
            lemma_map_of_at(self.slots@, 0);
        }
    }

    /// Accepts `item` under `id`, unless `id` was issued before.
    pub fn insert(&mut self, id: u128, item: T) -> (r: Result<(), Error>)
        requires
            old(self).wf(),
        ensures
            final(self).wf(),
            old(self).issued().contains(id) ==> (r matches Err(Error::DuplicateId) && final(self)@
                == old(self)@ && final(self).issued() == old(self).issued()),
            !old(self).issued().contains(id) ==> r is Ok && final(self)@ == old(self)@.insert(
                id,
                item,
            ) && final(self).issued() == old(self).issued().insert(id),
    {
        if self.was_issued(id) {
            return Err(Error::DuplicateId);
        }
        proof {
            self.lemma_wf_dom();
        }
        let ghost before = self.slots@;
        self.slots.push(Slot { id, item });
        self.issued.push(id);
        proof {
            assert(self.slots@.drop_last() =~= before);
            assert forall|i: int| 0 <= i < before.len() implies before[i].id != id by {
                lemma_map_of_dom(before, id);
                if before[i].id == id {
                    lemma_map_of_at(before, i);
                }
            }
            assert forall|x: u128| #[trigger]
                self.issued@.contains(x) <==> (old(self).issued@.contains(x) || x == id) by {
                if old(self).issued@.contains(x) {
                    let j = choose|j: int| 0 <= j < old(self).issued@.len() && old(self).issued@[j] == x;
                    assert(self.issued@[j] == x);
                }
                if x == id {
                    assert(self.issued@[self.issued@.len() - 1] == id);
                }
                if self.issued@.contains(x) {
                    let j = choose|j: int| 0 <= j < self.issued@.len() && self.issued@[j] == x;
                    if j < old(self).issued@.len() {
                        assert(old(self).issued@[j] == x);
                    }
                }
            }
            assert(self.issued() =~= old(self).issued().insert(id));
        }
        Ok(())
    }

    /// The item under `id`, to be used in place.
    pub fn get_mut(&mut self, id: u128) -> (r: Option<&mut T>)
        requires
            old(self).wf(),
        ensures
            final(self).wf(),
            final(self).issued() == old(self).issued(),
            !old(self)@.contains_key(id) ==> r is None && final(self)@ == old(self)@,
            old(self)@.contains_key(id) ==> (r matches Some(t) && *t == old(self)@[id]
                && final(self)@ == old(self)@.insert(id, *final(t))),
    {
        match self.find(id) {
            None => None,
            Some(i) => {
                proof {
                    let ghost s = self.slots@;
                    lemma_map_of_at(s, i as int);
                    assert forall|t: T|
                        #![trigger s.update(i as int, Slot { id: id, item: t })]
                        map_of(s.update(i as int, Slot { id: id, item: t })) == map_of(s).insert(
                            id,
                            t,
                        ) && unique_ids(s.update(i as int, Slot { id: id, item: t })) by {
                        lemma_map_of_update(s, i as int, t);
                    }
                }
                Some(&mut self.slots[i].item)
            },
        }
    }

    /// Takes the item under `id` out of the registry.
    pub fn remove(&mut self, id: u128) -> (r: Option<T>)
        requires
            old(self).wf(),
        ensures
            final(self).wf(),
            final(self).issued() == old(self).issued(),
            final(self)@ == old(self)@.remove(id),
            !old(self)@.contains_key(id) ==> r is None,
            old(self)@.contains_key(id) ==> r == Some(old(self)@[id]),
    {
        match self.find(id) {
            None => {
                assert(old(self)@.remove(id) =~= old(self)@);
                None
            },
            Some(i) => {
                proof {
                    lemma_map_of_at(self.slots@, i as int);
                    lemma_map_of_remove(self.slots@, i as int);
                }
                let slot = self.slots.remove(i);
                proof {
                    assert(unique_ids(self.slots@)) by {
                        assert forall|a: int, b: int|
                            0 <= a < self.slots@.len() && 0 <= b < self.slots@.len() && a != b
                            implies self.slots@[a].id != self.slots@[b].id by {
                            let a0 = if a < i { a } else { a + 1 };
                            let b0 = if b < i { b } else { b + 1 };
                            assert(self.slots@[a] == old(self).slots@[a0]);
                            assert(self.slots@[b] == old(self).slots@[b0]);
                        }
                    }
                    assert forall|j: int| 0 <= j < self.slots@.len() implies self.issued@.contains(
                        self.slots@[j].id,
                    ) by {
                        let j0 = if j < i { j } else { j + 1 };
                        assert(self.slots@[j] == old(self).slots@[j0]);
                    }
                }
                Some(slot.item)
            },
        }
    }

    /// Takes some open entry out of the registry; `None` when none is left.
    pub fn take_any(&mut self) -> (r: Option<(u128, T)>)
        requires
            old(self).wf(),
        ensures
            final(self).wf(),
            final(self).issued() == old(self).issued(),
            old(self)@ == Map::<u128, T>::empty() ==> r is None && final(self)@ == old(self)@,
            old(self)@ != Map::<u128, T>::empty() ==> (r matches Some((id, t)) && old(
                self,
            )@.contains_key(id) && t == old(self)@[id] && final(self)@ == old(self)@.remove(id)),
    {
        proof {
            self.lemma_len();
        }
        if self.slots.len() == 0 {
            return None;
        }
        let id = self.slots[0].id;
        proof {
            lemma_map_of_at(self.slots@, 0);
        }
        match self.remove(id) {
            Some(t) => Some((id, t)),
            None => None,
        }
    }
}

proof fn lemma_map_of_len<T>(s: Seq<Slot<T>>)
    requires
        unique_ids(s),
    ensures
        map_of(s).len() == s.len(),
    decreases s.len(),
{
    if s.len() > 0 {
        let d = s.drop_last();
        assert(unique_ids(d));
        lemma_map_of_len(d);
        lemma_map_of_dom(d, s.last().id);
        if map_of(d).contains_key(s.last().id) {
            let j = choose|j: int| 0 <= j < d.len() && d[j].id == s.last().id;
            assert(s[j].id == s[s.len() - 1].id);
        }
        lemma_map_of_finite(d);
    }
}

proof fn lemma_map_of_finite<T>(s: Seq<Slot<T>>)
    ensures
        map_of(s).dom().finite(),
    decreases s.len(),
{
    if s.len() > 0 {
        lemma_map_of_finite(s.drop_last());
    }
}

} // verus!
