//! Slab whose next keys can be reserved before the values are inserted.
use vstd::prelude::*;

verus! {

/// Slab slot: a value, or a free slot holding the next free slot.
#[derive(Clone)]
pub enum Item<T> {
    Vacant(usize),
    Occupied(T),
}

impl<T> Item<T> {
    pub fn as_occupied(&self) -> (r: Option<&T>)
        ensures
            match *self {
                Item::Occupied(t) => r == Some(&t),
                Item::Vacant(_) => r is None,
            },
    {
        match self {
            Item::Vacant(_) => None,
            Item::Occupied(t) => Some(t),
        }
    }
}

/// Slab: values stored by index, freed slots being reused, the most
/// recently freed first.
pub struct ReservableSlab<T> {
    items: Vec<Item<T>>,
    head: usize,
    len: usize,
    /// The free slots, from `head` along the chain they form.
    free: Ghost<Seq<usize>>,
}

/// The slot after the `j`-th free slot of the chain (the end of the items
/// after the last one).
pub open spec fn chain_next(free: Seq<usize>, j: int, end: usize) -> usize {
    if j + 1 < free.len() {
        free[j + 1]
    } else {
        end
    }
}

/// The free chain: distinct vacant slots, each holding the next one, and
/// every vacant slot on it.
pub open spec fn chain_ok<T>(items: Seq<Item<T>>, free: Seq<usize>) -> bool {
    let n = items.len();
    &&& free.no_duplicates()
    &&& forall|j: int| 0 <= j < free.len() ==> #[trigger] free[j] < n
    &&& forall|j: int| 0 <= j < free.len() ==> items[#[trigger] free[j] as int] == Item::<T>::Vacant(chain_next(free, j, n as usize))
    &&& forall|i: int| 0 <= i < n && #[trigger] items[i] is Vacant ==> free.contains(i as usize)
}

/// Freeing an occupied slot puts it at the front of the chain.
proof fn lemma_chain_free<T>(items0: Seq<Item<T>>, free: Seq<usize>, i: usize)
    requires
        chain_ok(items0, free),
        i < items0.len(),
        items0[i as int] is Occupied,
    ensures
        chain_ok(
            items0.update(i as int, Item::Vacant(if free.len() > 0 { free[0] } else { items0.len() as usize })),
            seq![i] + free,
        ),
{
    let n = items0.len();
    let items = items0.update(i as int, Item::Vacant(if free.len() > 0 { free[0] } else { n as usize }));
    let nf = seq![i] + free;
    assert(!free.contains(i)) by {
        if free.contains(i) {
            let j = choose|j: int| 0 <= j < free.len() && free[j] == i;
            assert(items0[free[j] as int] is Vacant);
        }
    }
    assert forall|j: int| 0 <= j < nf.len() implies items[#[trigger] nf[j] as int]
        == Item::<T>::Vacant(chain_next(nf, j, n as usize)) by {
        if j > 0 {
            assert(nf[j] == free[j - 1]);
        }
    }
    assert forall|k: int| 0 <= k < n && #[trigger] items[k] is Vacant implies nf.contains(k as usize) by {
        if k != i {
            let j = choose|j: int| 0 <= j < free.len() && free[j] == k as usize;
            assert(nf[j + 1] == k as usize);
        } else {
            assert(nf[0] == i);
        }
    }
}

impl<T> View for ReservableSlab<T> {
    type V = Map<usize, T>;

    closed spec fn view(&self) -> Map<usize, T> {
        Map::new(
            |i: usize| i < self.items@.len() && self.items@[i as int] is Occupied,
            |i: usize| self.items@[i as int]->Occupied_0,
        )
    }
}

impl<T> ReservableSlab<T> {
    pub closed spec fn wf(&self) -> bool {
        let free = self.free@;
        let n = self.items@.len();
        &&& n <= usize::MAX
        &&& chain_ok(self.items@, free)
        &&& self.head == (if free.len() > 0 { free[0] } else { n as usize })
        &&& self.len == self@.len()
        &&& self.len + free.len() == n
        &&& self@.dom().finite()
    }

    /// Number of slots, free or not.
    pub closed spec fn slots(&self) -> nat {
        self.items@.len()
    }

    /// The free slots, in the order insertions reuse them.
    pub closed spec fn free_slots(&self) -> Seq<usize> {
        self.free@
    }

    /// The number of slots, free or not.
    pub fn slot_count(&self) -> (r: usize)
        ensures
            r == self.slots(),
    {
        self.items.len()
    }

    /// Every key is below the number of slots.
    pub proof fn lemma_keys_below_slots(&self)
        ensures
            forall|i: usize| #[trigger] self@.contains_key(i) ==> i < self.slots(),
    {
    }

    /// Key that the `k`-th of a run of insertions will get: the free slots
    /// in order, then new slots at the end.
    pub open spec fn insertion_key(&self, k: int) -> int {
        if k < self.free_slots().len() {
            self.free_slots()[k] as int
        } else {
            self.slots() + (k - self.free_slots().len())
        }
    }

    pub fn new() -> (r: Self)
        ensures
            r.wf(),
            r@ == Map::<usize, T>::empty(),
            r.slots() == 0,
            r.free_slots() == Seq::<usize>::empty(),
    {
        let r = ReservableSlab { items: Vec::new(), head: 0, len: 0, free: Ghost(Seq::empty()) };
        assert(r@ =~= Map::<usize, T>::empty());
        r
    }

    pub fn len(&self) -> (r: usize)
        requires
            self.wf(),
        ensures
            r == self@.len(),
            r <= self.slots(),
    {
        self.len
    }

    pub fn is_empty(&self) -> (r: bool)
        requires
            self.wf(),
        ensures
            r <==> self@.len() == 0,
    {
        self.len == 0
    }

    pub fn get(&self, i: usize) -> (r: Option<&T>)
        ensures
            match r {
                Some(t) => self@.contains_key(i) && *t == self@[i],
                None => !self@.contains_key(i),
            },
    {
        if i < self.items.len() {
            match &self.items[i] {
                Item::Vacant(_) => None,
                Item::Occupied(t) => Some(t),
            }
        } else {
            None
        }
    }
}

impl<T> ReservableSlab<T> {
    /// Stores `t` at the first free slot (a new slot at the end when none
    /// is free) and returns its key.
    pub fn insert(&mut self, t: T) -> (i: usize)
        requires
            old(self).wf(),
            old(self).slots() < usize::MAX,
        ensures
            final(self).wf(),
            i == old(self).insertion_key(0),
            i <= old(self).slots(),
            !old(self)@.contains_key(i),
            final(self)@ == old(self)@.insert(i, t),
            final(self).free_slots() == (if old(self).free_slots().len() > 0 {
                old(self).free_slots().drop_first()
            } else {
                old(self).free_slots()
            }),
            final(self).slots() == (if old(self).free_slots().len() > 0 {
                old(self).slots()
            } else {
                old(self).slots() + 1
            }),
    {
        let ghost free = self.free@;
        let ghost v0 = self@;
        let i = self.head;
        if i < self.items.len() {
            proof {
                if free.len() == 0 {
                    assert(false);
                }
                assert(self.items@[free[0] as int] == Item::<T>::Vacant(chain_next(free, 0, self.items@.len() as usize)));
            }
            let next = match &self.items[i] {
                Item::Vacant(next) => *next,
                Item::Occupied(_) => {
                    proof {
                        assert(false);
                    }
                    i
                },
            };
            self.items.set(i, Item::Occupied(t));
            self.head = next;
            self.free = Ghost(free.drop_first());
            proof {
                let nf = self.free@;
                assert forall|j: int| 0 <= j < nf.len() implies #[trigger] self.items@[nf[j] as int]
                    == Item::<T>::Vacant(chain_next(nf, j, self.items@.len() as usize)) by {
                    assert(nf[j] == free[j + 1]);
                    assert(free[j + 1] != free[0]);
                }
                assert forall|k: int| 0 <= k < self.items@.len() && #[trigger] self.items@[k] is Vacant implies nf.contains(k as usize) by {
                    assert(free.contains(k as usize));
                    let j = choose|j: int| 0 <= j < free.len() && free[j] == k as usize;
                    assert(j != 0);
                    assert(nf[j - 1] == k as usize);
                }
            }
        } else {
            proof {
                assert(free.len() == 0);
            }
            self.items.push(Item::Occupied(t));
            self.head = self.items.len();
        }
        proof {
            assert(self@ =~= v0.insert(i, t));
            assert(!v0.contains_key(i));
        }
        self.len = self.len + 1;
        i
    }
}

impl<T> ReservableSlab<T> {
    /// Removes and returns the value at `i`, if any; its slot becomes the
    /// first free slot.
    pub fn remove(&mut self, i: usize) -> (r: Option<T>)
        requires
            old(self).wf(),
        ensures
            final(self).wf(),
            final(self).slots() == old(self).slots(),
            match r {
                Some(t) => {
                    &&& old(self)@.contains_key(i)
                    &&& t == old(self)@[i]
                    &&& final(self)@ == old(self)@.remove(i)
                    &&& final(self).free_slots() == seq![i] + old(self).free_slots()
                },
                None => {
                    &&& !old(self)@.contains_key(i)
                    &&& final(self)@ == old(self)@
                    &&& final(self).free_slots() == old(self).free_slots()
                },
            },
    {
        let ghost free = self.free@;
        let ghost v0 = self@;
        let ghost items0 = self.items@;
        if i >= self.items.len() {
            return None;
        }
        let occupied = match &self.items[i] {
            Item::Occupied(_) => true,
            Item::Vacant(_) => false,
        };
        if !occupied {
            return None;
        }
        let mut item = Item::Vacant(self.head);
        std::mem::swap(&mut self.items[i], &mut item);
        proof {
            lemma_chain_free(items0, free, i);
            assert(self.items@ =~= items0.update(
                i as int,
                Item::Vacant(if free.len() > 0 { free[0] } else { items0.len() as usize }),
            ));
            assert(self@ =~= v0.remove(i));
            v0.lemma_remove_key_len(i);
        }
        self.head = i;
        self.len = self.len - 1;
        self.free = Ghost(seq![i] + free);
        match item {
            Item::Occupied(t) => Some(t),
            Item::Vacant(_) => {
                proof {
                    assert(false);
                }
                None
            },
        }
    }

    /// Replaces the value at `i` with `t` and returns the previous one.
    pub fn replace(&mut self, i: usize, t: T) -> (r: T)
        requires
            old(self).wf(),
            old(self)@.contains_key(i),
        ensures
            final(self).wf(),
            r == old(self)@[i],
            final(self)@ == old(self)@.insert(i, t),
            final(self).free_slots() == old(self).free_slots(),
            final(self).slots() == old(self).slots(),
    {
        let ghost v0 = self@;
        let ghost t0 = t;
        let mut t = t;
        match &mut self.items[i] {
            Item::Occupied(v) => std::mem::swap(v, &mut t),
            Item::Vacant(_) => {},
        }
        proof {
            assert(self@ =~= v0.insert(i, t0));
        }
        t
    }

    /// The stored values with their keys, by increasing key.
    pub fn iter(&self) -> (r: Vec<(usize, &T)>)
        requires
            self.wf(),
        ensures
            forall|a: int, b: int| 0 <= a < b < r@.len() ==> r@[a].0 < r@[b].0,
            forall|a: int| 0 <= a < r@.len() ==> self@.contains_key(#[trigger] r@[a].0) && *r@[a].1 == self@[r@[a].0],
            forall|i: usize| self@.contains_key(i) ==> exists|a: int| 0 <= a < r@.len() && #[trigger] r@[a].0 == i,
    {
        let mut r: Vec<(usize, &T)> = Vec::new();
        let mut i: usize = 0;
        while i < self.items.len()
            invariant
                i <= self.items@.len(),
                forall|a: int, b: int| 0 <= a < b < r@.len() ==> r@[a].0 < r@[b].0,
                forall|a: int| 0 <= a < r@.len() ==> r@[a].0 < i,
                forall|a: int| 0 <= a < r@.len() ==> self@.contains_key(#[trigger] r@[a].0) && *r@[a].1 == self@[r@[a].0],
                forall|k: usize| k < i && self@.contains_key(k) ==> exists|a: int| 0 <= a < r@.len() && #[trigger] r@[a].0 == k,
            decreases self.items@.len() - i,
        {
            match &self.items[i] {
                Item::Occupied(t) => {
                    let ghost r0 = r@;
                    r.push((i, t));
                    proof {
                        assert(r@[r@.len() - 1].0 == i);
                        assert forall|k: usize| k < i + 1 && self@.contains_key(k) implies exists|a: int| 0 <= a < r@.len() && #[trigger] r@[a].0 == k by {
                            if k < i {
                                let a = choose|a: int| 0 <= a < r0.len() && #[trigger] r0[a].0 == k;
                                assert(r@[a] == r0[a]);
                            }
                        }
                    }
                },
                Item::Vacant(_) => {},
            }
            i = i + 1;
        }
        r
    }
}

impl<T> ReservableSlab<T> {
    /// Key that the `k`-th insertion into a reservation begun on this slab
    /// reserves: a free slot is followed along the chain while it lies
    /// below the number of stored values; past that, keys are taken one
    /// after the other.
    pub closed spec fn reserved_key(&self, k: nat) -> int
        decreases k,
    {
        if k == 0 {
            self.head as int
        } else {
            let h = self.reserved_key((k - 1) as nat);
            if h < self.len {
                match self.items@[h] {
                    Item::Vacant(next) => next as int,
                    Item::Occupied(_) => h + 1,
                }
            } else {
                h + 1
            }
        }
    }

    /// Key that the `k`-th insertion into a reservation begun on this slab
    /// reserves, as the slab's contents give it: from the first free slot
    /// (or the end), a vacant slot below the number of stored values leads
    /// to the next free slot (or the end); any other key to the one after
    /// it.
    pub open spec fn reservation_key(&self, k: nat) -> int
        decreases k,
    {
        let free = self.free_slots();
        if k == 0 {
            if free.len() > 0 {
                free[0] as int
            } else {
                self.slots() as int
            }
        } else {
            let h = self.reservation_key((k - 1) as nat);
            if 0 <= h < self@.len() && !self@.contains_key(h as usize) && free.contains(h as usize) {
                chain_next(free, free.index_of(h as usize), self.slots() as usize) as int
            } else {
                h + 1
            }
        }
    }

    /// The key a reservation takes is the one the slab's contents give.
    pub proof fn lemma_reservation_key(&self, k: nat)
        requires
            self.wf(),
        ensures
            self.reserved_key(k) == self.reservation_key(k),
            self.reserved_key(k) >= 0,
        decreases k,
    {
        let free = self.free@;
        let n = self.items@.len();
        if k == 0 {
            assert(self.reserved_key(k) == self.head as int);
        } else {
            self.lemma_reservation_key((k - 1) as nat);
            let h = self.reserved_key((k - 1) as nat);
            assert(self.reservation_key((k - 1) as nat) == h);
            assert(self.len == self@.len());
            if 0 <= h < self.len {
                match self.items@[h] {
                    Item::Vacant(next) => {
                        assert(!self@.contains_key(h as usize));
                        assert(free.contains(h as usize));
                        let j = free.index_of(h as usize);
                        assert(free[j] == h as usize);
                        assert(self.items@[free[j] as int] == Item::<T>::Vacant(chain_next(free, j, n as usize)));
                        assert(self.reserved_key(k) == next as int);
                        assert(self.reservation_key(k) == chain_next(free, j, n as usize) as int);
                    },
                    Item::Occupied(_) => {
                        assert(self@.contains_key(h as usize));
                        assert(self.reserved_key(k) == h + 1);
                    },
                }
            } else {
                assert(self.reserved_key(k) == h + 1);
            }
        }
    }

    proof fn lemma_reserved_key(&self, k: nat)
        requires
            self.wf(),
        ensures
            self.reserved_key(k) < self.len ==> exists|j: int|
                0 <= j < self.free@.len() && self.free@[j] == self.reserved_key(k),
            self.reserved_key(k) <= self.items@.len() + k,
        decreases k,
    {
        let n = self.items@.len();
        let free = self.free@;
        assert(self.len + free.len() == n);
        if k == 0 {
            if free.len() > 0 {
                assert(free[0] == self.reserved_key(k));
            }
        } else {
            self.lemma_reserved_key((k - 1) as nat);
            let h = self.reserved_key((k - 1) as nat);
            if h < self.len {
                let j = choose|j: int| 0 <= j < free.len() && free[j] == h;
                assert(self.items@[free[j] as int] == Item::<T>::Vacant(chain_next(free, j, n as usize)));
                assert(self.reserved_key(k) == chain_next(free, j, n as usize));
                if j + 1 < free.len() {
                    assert(free[j + 1] < n);
                    assert(free[j + 1] == self.reserved_key(k));
                }
            }
        }
    }

    /// Starts reserving keys for values to be inserted later.
    pub fn begin_reservation(&self) -> (r: Reservation<'_, T>)
        requires
            self.wf(),
        ensures
            r.wf(),
            r.slab() == *self,
            r.reserved() == Seq::<(T, usize)>::empty(),
    {
        Reservation { slab: self, head: self.head, new_items: Vec::new() }
    }
}

/// Keys reserved in a slab, and the values they are reserved for.
pub struct Reservation<'a, T> {
    slab: &'a ReservableSlab<T>,
    head: usize,
    new_items: Vec<(T, usize)>,
}

impl<'a, T> Reservation<'a, T> {
    pub closed spec fn wf(&self) -> bool {
        &&& self.slab.wf()
        &&& self.head == self.slab.reserved_key(self.new_items@.len())
        &&& forall|j: int| 0 <= j < self.new_items@.len() ==> #[trigger] self.new_items@[j].1 == self.slab.reserved_key(j as nat)
    }

    /// The slab the keys are reserved in.
    pub closed spec fn slab(&self) -> ReservableSlab<T> {
        *self.slab
    }

    /// The values inserted so far, with their reserved keys.
    pub closed spec fn reserved(&self) -> Seq<(T, usize)> {
        self.new_items@
    }

    /// Reserves the next key for `t` and returns it.
    pub fn insert(&mut self, t: T) -> (i: usize)
        requires
            old(self).wf(),
            old(self).slab().slots() + old(self).reserved().len() < usize::MAX,
        ensures
            final(self).wf(),
            final(self).slab() == old(self).slab(),
            i == old(self).slab().reservation_key(old(self).reserved().len()),
            i <= old(self).slab().slots() + old(self).reserved().len(),
            final(self).reserved() == old(self).reserved().push((t, i)),
    {
        proof {
            self.slab.lemma_reserved_key(self.new_items@.len());
            self.slab.lemma_reservation_key(self.new_items@.len());
        }
        let i = self.head;
        if self.head < self.slab.len {
            let next = match &self.slab.items[self.head] {
                Item::Vacant(next) => *next,
                Item::Occupied(_) => {
                    proof {
                        let j = choose|j: int| 0 <= j < self.slab.free@.len() && self.slab.free@[j] == i;
                        assert(self.slab.items@[self.slab.free@[j] as int] is Vacant);
                    }
                    self.head
                },
            };
            self.head = next;
        } else {
            self.head = self.head + 1;
        }
        self.new_items.push((t, i));
        i
    }

    /// Ends the reservation.
    pub fn end(self) -> (r: CompletedReservation<T>)
        requires
            self.wf(),
        ensures
            r.reserved() == self.reserved(),
            r.made_from(self.slab()),
    {
        CompletedReservation { new_items: self.new_items }
    }
}

/// The slab no longer gives the reserved keys.
#[derive(Debug)]
pub struct InvalidReservation;

/// Values waiting to be inserted at their reserved keys.
pub struct CompletedReservation<T> {
    new_items: Vec<(T, usize)>,
}

impl<T> CompletedReservation<T> {
    /// The values, with their reserved keys, in reservation order.
    pub closed spec fn reserved(&self) -> Seq<(T, usize)> {
        self.new_items@
    }

    /// Whether the keys were reserved in the given slab.
    pub open spec fn made_from(&self, slab: ReservableSlab<T>) -> bool {
        forall|j: int| 0 <= j < self.reserved().len() ==> #[trigger] self.reserved()[j].1 == slab.reserved_key(j as nat)
    }
}

/// The values of `items` by key, later entries replacing earlier ones.
pub open spec fn stored<T>(items: Seq<(T, usize)>) -> Map<usize, T>
    decreases items.len(),
{
    if items.len() == 0 {
        Map::empty()
    } else {
        stored(items.drop_last()).insert(items.last().1, items.last().0)
    }
}

impl<T> CompletedReservation<T> {
    /// Inserts the values in order, checking that each gets its reserved
    /// key; stops at the first that does not.
    pub fn apply(self, slab: &mut ReservableSlab<T>) -> (r: Result<(), InvalidReservation>)
        requires
            old(slab).wf(),
            old(slab).slots() + self.reserved().len() < usize::MAX,
        ensures
            final(slab).wf(),
            r is Ok <==> forall|j: int| 0 <= j < self.reserved().len() ==> #[trigger] self.reserved()[j].1
                == old(slab).insertion_key(j),
            r is Ok ==> final(slab)@ == old(slab)@.union_prefer_right(stored(self.reserved())),
            final(slab).slots() <= old(slab).slots() + self.reserved().len(),
            forall|i: usize| #[trigger] old(slab)@.contains_key(i) ==> final(slab)@.contains_key(i) && final(slab)@[i]
                == old(slab)@[i],
            forall|i: usize| #[trigger] final(slab)@.contains_key(i) && !old(slab)@.contains_key(i) ==> exists|j: int|
                0 <= j < self.reserved().len() && self.reserved()[j].0 == final(slab)@[i],
    {
        let ghost s0 = *slab;
        let ghost all = self.new_items@;
        let mut items = self.new_items;
        let mut j: usize = 0;
        while items.len() > 0
            invariant
                slab.wf(),
                j + items@.len() == all.len(),
                all == self.reserved(),
                s0 == *old(slab),
                items@ == all.subrange(j as int, all.len() as int),
                s0.slots() + all.len() < usize::MAX,
                forall|t: int| 0 <= t < j ==> #[trigger] all[t].1 == s0.insertion_key(t),
                slab@ == s0@.union_prefer_right(stored(all.take(j as int))),
                forall|i: usize| #[trigger] s0@.contains_key(i) ==> slab@.contains_key(i) && slab@[i] == s0@[i],
                forall|i: usize| #[trigger] slab@.contains_key(i) && !s0@.contains_key(i) ==> exists|t: int|
                    0 <= t < j && all[t].0 == slab@[i],
                j <= s0.free_slots().len() ==> slab.free_slots() == s0.free_slots().skip(j as int) && slab.slots()
                    == s0.slots(),
                j > s0.free_slots().len() ==> slab.free_slots().len() == 0 && slab.slots() == s0.slots() + (j
                    - s0.free_slots().len()),
            decreases items@.len(),
        {
            let (t, i) = items.remove(0);
            proof {
                assert(all[j as int] == (t, i));
            }
            let ghost before = slab@;
            let key = slab.insert(t);
            proof {
                assert forall|x: usize| #[trigger] slab@.contains_key(x) && !s0@.contains_key(x) implies exists|u: int|
                    0 <= u < j + 1 && all[u].0 == slab@[x] by {
                    if x == key {
                        assert(all[j as int].0 == slab@[x]);
                    } else {
                        assert(before.contains_key(x));
                    }
                }
            }
            if key != i {
                proof {
                    assert(all[j as int].1 != s0.insertion_key(j as int));
                    assert(self.reserved()[j as int].1 != s0.insertion_key(j as int));
                }
                return Err(InvalidReservation);
            }
            proof {
                assert(all.take(j + 1).drop_last() =~= all.take(j as int));
                assert(slab@ =~= s0@.union_prefer_right(stored(all.take(j + 1))));
                assert(items@ =~= all.subrange(j + 1, all.len() as int));
                if j < s0.free_slots().len() {
                    assert(slab.free_slots() =~= s0.free_slots().skip(j + 1));
                }
            }
            j = j + 1;
        }
        proof {
            assert(all.take(j as int) =~= all);
        }
        Ok(())
    }
}

impl<T> ReservableSlab<T> {
    proof fn lemma_reserved_is_insertion_key(&self, k: nat)
        requires
            self.wf(),
            forall|j: int| 0 <= j < self.free_slots().len() ==> self.free_slots()[j] < self@.len(),
        ensures
            self.reserved_key(k) == self.insertion_key(k as int),
        decreases k,
    {
        let free = self.free@;
        let n = self.items@.len();
        if k > 0 {
            self.lemma_reserved_is_insertion_key((k - 1) as nat);
            let j = k - 1;
            if j < free.len() {
                assert(free[j] < self.len);
                assert(self.items@[free[j] as int] == Item::<T>::Vacant(chain_next(free, j, n as usize)));
            } else {
                assert(self.len <= n);
            }
        }
    }
}

/// Keys and values of `stored`.
pub proof fn lemma_stored<T>(items: Seq<(T, usize)>)
    ensures
        forall|k: usize| #[trigger] stored(items).contains_key(k) <==> exists|j: int| 0 <= j < items.len() && items[j].1 == k,
        forall|k: usize| #[trigger] stored(items).contains_key(k) ==> exists|j: int|
            0 <= j < items.len() && items[j] == (stored(items)[k], k),
    decreases items.len(),
{
    if items.len() > 0 {
        let p = items.drop_last();
        lemma_stored(p);
        assert(stored(items) == stored(p).insert(items.last().1, items.last().0));
        assert forall|k: usize| #[trigger] stored(items).contains_key(k) <==> exists|j: int| 0 <= j < items.len() && items[j].1 == k by {
            if stored(items).contains_key(k) && k != items.last().1 {
                let j = choose|j: int| 0 <= j < p.len() && p[j].1 == k;
                assert(items[j] == p[j]);
            }
            if exists|j: int| 0 <= j < items.len() && items[j].1 == k {
                let j = choose|j: int| 0 <= j < items.len() && items[j].1 == k;
                if j < p.len() {
                    assert(p[j] == items[j]);
                }
            }
        }
        assert forall|k: usize| #[trigger] stored(items).contains_key(k) implies exists|j: int|
            0 <= j < items.len() && items[j] == (stored(items)[k], k) by {
            if k == items.last().1 {
                assert(items[items.len() - 1] == (stored(items)[k], k));
            } else {
                let j = choose|j: int| 0 <= j < p.len() && p[j] == (stored(p)[k], k);
                assert(items[j] == p[j]);
            }
        }
    }
}

/// A reservation applied to the slab it was made from, left unchanged,
/// finds each reserved key free in turn (so that `apply` succeeds), as
/// long as every free slot of the slab lies below its number of values.
pub proof fn lemma_reservation_applies<T>(slab: ReservableSlab<T>, c: CompletedReservation<T>)
    requires
        slab.wf(),
        c.made_from(slab),
        forall|j: int| 0 <= j < slab.free_slots().len() ==> slab.free_slots()[j] < slab@.len(),
    ensures
        forall|j: int| 0 <= j < c.reserved().len() ==> #[trigger] c.reserved()[j].1 == slab.insertion_key(j),
{
    assert forall|j: int| 0 <= j < c.reserved().len() implies #[trigger] c.reserved()[j].1 == slab.insertion_key(j) by {
        slab.lemma_reserved_is_insertion_key(j as nat);
    }
}

/// Removing the value just inserted gives back the slab's values as they
/// were.
pub proof fn lemma_remove_undoes_insert<T>(before: Map<usize, T>, i: usize, t: T)
    requires
        !before.contains_key(i),
    ensures
        before.insert(i, t).remove(i) == before,
        before.insert(i, t)[i] == t,
{
    assert(before.insert(i, t).remove(i) =~= before);
}

} // verus!
