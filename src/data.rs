//! Functionality for manipulating data.
use vstd::prelude::*;

use std::hash::Hasher;

use siphasher::sip::SipHasher;

use crate::datasets::DatasetError;
use crate::{ItemId, Timestamp, UserId};

verus! {

/// Basic interaction type.
#[derive(Clone, Copy, Debug, PartialEq, Eq, Hash, Structural)]
pub struct Interaction {
    user_id: UserId,
    item_id: ItemId,
    timestamp: Timestamp,
}

impl Interaction {
    /// The user id of this interaction.
    pub closed spec fn user(self) -> UserId {
        self.user_id
    }

    /// The item id of this interaction.
    pub closed spec fn item(self) -> ItemId {
        self.item_id
    }

    /// The timestamp of this interaction.
    pub closed spec fn time(self) -> Timestamp {
        self.timestamp
    }

    /// Create a new interaction.
    pub fn new(user_id: UserId, item_id: ItemId, timestamp: Timestamp) -> (r: Self)
        ensures
            r.user() == user_id,
            r.item() == item_id,
            r.time() == timestamp,
    {
        Interaction { user_id, item_id, timestamp }
    }

    /// Return the user id.
    pub fn user_id(&self) -> (r: UserId)
        ensures
            r == self.user(),
    {
        self.user_id
    }

    /// Return the item id.
    pub fn item_id(&self) -> (r: ItemId)
        ensures
            r == self.item(),
    {
        self.item_id
    }

    /// Return the interaction timestamp.
    pub fn timestamp(&self) -> (r: Timestamp)
        ensures
            r == self.time(),
    {
        self.timestamp
    }
}

/// The largest user id in `s`, or 0 when `s` is empty.
pub open spec fn max_user(s: Seq<Interaction>) -> nat
    decreases s.len(),
{
    if s.len() == 0 {
        0
    } else {
        let m = max_user(s.drop_last());
        if s.last().user() > m { s.last().user() as nat } else { m }
    }
}

/// The largest item id in `s`, or 0 when `s` is empty.
pub open spec fn max_item(s: Seq<Interaction>) -> nat
    decreases s.len(),
{
    if s.len() == 0 {
        0
    } else {
        let m = max_item(s.drop_last());
        if s.last().item() > m { s.last().item() as nat } else { m }
    }
}

/// Every user id in `s` lies below `bound`.
pub open spec fn users_below(s: Seq<Interaction>, bound: nat) -> bool {
    forall|i: int| 0 <= i < s.len() ==> #[trigger] s[i].user() < bound
}

/// The elements of `s` whose flag in `keep` equals `side`, in their order in `s`.
pub open spec fn select<T>(s: Seq<T>, keep: Seq<bool>, side: bool) -> Seq<T>
    decreases s.len(),
{
    if s.len() == 0 || keep.len() != s.len() {
        Seq::empty()
    } else {
        let rest = select(s.drop_last(), keep.drop_last(), side);
        if keep.last() == side { rest.push(s.last()) } else { rest }
    }
}

/// `s` with the elements at `i` and `j` exchanged.
pub open spec fn swapped<T>(s: Seq<T>, i: int, j: int) -> Seq<T> {
    s.update(i, s[j]).update(j, s[i])
}

/// The Fisher-Yates shuffle of `s` driven by `draws`, after the positions
/// `from .. s.len()` have been processed from the last one down: position `i`
/// is exchanged with position `draws[i]`.
pub open spec fn shuffled_from<T>(s: Seq<T>, draws: Seq<usize>, from: nat) -> Seq<T>
    decreases s.len() - from,
{
    if from >= s.len() {
        s
    } else {
        swapped(shuffled_from(s, draws, from + 1), from as int, draws[from as int] as int)
    }
}

/// Fisher-Yates draws for a sequence of length `n`: the draw for position `i` lies in `0 ..= i`.
pub open spec fn valid_draws(draws: Seq<usize>, n: nat) -> bool {
    draws.len() == n && forall|i: int| 0 <= i < n ==> #[trigger] draws[i] <= i
}

/// A collection of individual interactions.
#[derive(Clone, Debug)]
pub struct Interactions {
    num_users: usize,
    num_items: usize,
    interactions: Vec<Interaction>,
}

impl View for Interactions {
    type V = Seq<Interaction>;

    closed spec fn view(&self) -> Seq<Interaction> {
        self.interactions@
    }
}

impl Interactions {
    /// The number of users that this store was created with.
    pub closed spec fn user_bound(&self) -> nat {
        self.num_users as nat
    }

    /// The number of items that this store was created with.
    pub closed spec fn item_bound(&self) -> nat {
        self.num_items as nat
    }

    /// Every stored user id lies below the user bound, and the bound plus one
    /// is representable: what a compressed index needs.
    pub open spec fn users_in_bounds(&self) -> bool {
        &&& users_below(self@, self.user_bound())
        &&& self.user_bound() < usize::MAX
    }

    /// Check that every stored user id lies below the user bound and that
    /// the bound plus one is representable, as `to_compressed` requires.
    pub fn has_users_in_bounds(&self) -> (r: bool)
        ensures
            r == self.users_in_bounds(),
    {
        if self.num_users == usize::MAX {
            return false;
        }
        let mut k: usize = 0;
        while k < self.interactions.len()
            invariant
                k <= self@.len(),
                users_below(self@.take(k as int), self.user_bound()),
            decreases self@.len() - k,
        {
            if self.interactions[k].user_id() >= self.num_users {
                assert(!users_below(self@, self.user_bound())) by {
                    assert(self@[k as int].user() >= self.user_bound());
                }
                return false;
            }
            assert(users_below(self@.take(k + 1), self.user_bound())) by {
                assert forall|i: int| 0 <= i < k + 1 implies #[trigger] self@.take(k + 1)[i].user()
                    < self.user_bound() by {
                    if i < k {
                        assert(self@.take(k + 1)[i] == self@.take(k as int)[i]);
                    }
                }
            }
            k = k + 1;
        }
        assert(self@.take(k as int) == self@);
        true
    }

    /// Create a new interactions object.
    pub fn new(num_users: usize, num_items: usize) -> (r: Self)
        ensures
            r@ == Seq::<Interaction>::empty(),
            r.user_bound() == num_users,
            r.item_bound() == num_items,
    {
        Interactions { num_users, num_items, interactions: Vec::new() }
    }

    /// Build a store from a list of interactions; the user and item bounds
    /// are one more than the largest user and item id.
    pub fn from_vec(interactions: Vec<Interaction>) -> (r: Result<Self, DatasetError>)
        ensures
            r == Err::<Self, DatasetError>(DatasetError::EmptyDataset) <==> interactions@.len()
                == 0,
            r == Err::<Self, DatasetError>(DatasetError::IdOverflow) <==> (interactions@.len() > 0
                && (max_user(interactions@) == usize::MAX || max_item(interactions@)
                == usize::MAX)),
            (interactions@.len() > 0 && max_user(interactions@) < usize::MAX && max_item(
                interactions@,
            ) < usize::MAX) ==> r is Ok,
            r is Ok ==> (r->Ok_0@ == interactions@ && r->Ok_0.user_bound() == max_user(
                interactions@,
            ) + 1 && r->Ok_0.item_bound() == max_item(interactions@) + 1),
    {
        if interactions.len() == 0 {
            return Err(DatasetError::EmptyDataset);
        }
        let mut max_u: usize = 0;
        let mut max_i: usize = 0;
        let mut k: usize = 0;
        while k < interactions.len()
            invariant
                k <= interactions@.len(),
                max_u == max_user(interactions@.take(k as int)),
                max_i == max_item(interactions@.take(k as int)),
            decreases interactions@.len() - k,
        {
            assert(interactions@.take(k + 1).drop_last() == interactions@.take(k as int));
            let x = interactions[k];
            if x.user_id() > max_u {
                max_u = x.user_id();
            }
            if x.item_id() > max_i {
                max_i = x.item_id();
            }
            k = k + 1;
        }
        assert(interactions@.take(k as int) == interactions@);
        if max_u == usize::MAX || max_i == usize::MAX {
            return Err(DatasetError::IdOverflow);
        }
        Ok(Interactions { num_users: max_u + 1, num_items: max_i + 1, interactions })
    }

    /// Add a new interaction.
    pub fn push(&mut self, interaction: Interaction)
        ensures
            final(self)@ == old(self)@.push(interaction),
            final(self).user_bound() == old(self).user_bound(),
            final(self).item_bound() == old(self).item_bound(),
    {
        self.interactions.push(interaction);
    }

    /// Return the underlying data.
    pub fn data(&self) -> (r: &[Interaction])
        ensures
            r@ == self@,
    {
        self.interactions.as_slice()
    }

    /// Give the number of contained interactions.
    pub fn len(&self) -> (r: usize)
        ensures
            r == self@.len(),
    {
        self.interactions.len()
    }

    /// Check if there are no interactions.
    pub fn is_empty(&self) -> (r: bool)
        ensures
            r == (self@.len() == 0),
    {
        self.len() == 0
    }

    /// Shuffle the interactions in place (Fisher-Yates): from the last
    /// position down, position `i` is exchanged with position `draws[i]`,
    /// a uniform draw from `0 ..= i` supplied by the caller.
    pub fn shuffle(&mut self, draws: &[usize])
        requires
            valid_draws(draws@, old(self)@.len()),
        ensures
            final(self)@ == shuffled_from(old(self)@, draws@, 0),
            final(self)@.len() == old(self)@.len(),
            final(self)@.to_multiset() == old(self)@.to_multiset(),
            final(self).user_bound() == old(self).user_bound(),
            final(self).item_bound() == old(self).item_bound(),
    {
        let n = self.interactions.len();
        let mut i: usize = n;
        while i > 0
            invariant
                i <= n,
                n == old(self)@.len(),
                self@.len() == n,
                valid_draws(draws@, n as nat),
                self@ == shuffled_from(old(self)@, draws@, i as nat),
                self@.to_multiset() == old(self)@.to_multiset(),
                self.user_bound() == old(self).user_bound(),
                self.item_bound() == old(self).item_bound(),
            decreases i,
        {
            i = i - 1;
            let j = draws[i];
            let a = self.interactions[i];
            let b = self.interactions[j];
            proof {
                lemma_swap_multiset(self@, i as int, j as int);
            }
            self.interactions.set(i, b);
            self.interactions.set(j, a);
        }
    }

    /// Split interactions at `idx`.
    pub fn split_at(&self, idx: usize) -> (r: (Self, Self))
        requires
            idx <= self@.len(),
        ensures
            r.0@ == self@.take(idx as int),
            r.1@ == self@.skip(idx as int),
            r.0.user_bound() == self.user_bound() && r.1.user_bound() == self.user_bound(),
            r.0.item_bound() == self.item_bound() && r.1.item_bound() == self.item_bound(),
    {
        let mut head: Vec<Interaction> = Vec::new();
        let mut tail: Vec<Interaction> = Vec::new();
        let mut k: usize = 0;
        while k < self.interactions.len()
            invariant
                idx <= self@.len(),
                k <= self@.len(),
                k <= idx ==> head@ == self@.take(k as int) && tail@.len() == 0,
                k > idx ==> head@ == self@.take(idx as int) && tail@ == self@.subrange(
                    idx as int,
                    k as int,
                ),
            decreases self@.len() - k,
        {
            if k < idx {
                head.push(self.interactions[k]);
                assert(head@ == self@.take(k + 1));
            } else {
                tail.push(self.interactions[k]);
                assert(tail@ == self@.subrange(idx as int, k + 1));
            }
            k = k + 1;
        }
        assert(self@.take(self@.len() as int) == self@);
        assert(self@.subrange(idx as int, self@.len() as int) == self@.skip(idx as int));
        (
            Interactions { num_users: self.num_users, num_items: self.num_items, interactions: head },
            Interactions { num_users: self.num_users, num_items: self.num_items, interactions: tail },
        )
    }

    /// Split interactions by predicate: the first part holds the interactions
    /// on which `func` returned `true`, the second the others, each in the
    /// store's order. `func` is called once per interaction.
    pub fn split_by<F: Fn(&Interaction) -> bool>(&self, func: F) -> (r: (Self, Self))
        requires
            forall|x: &Interaction| #[trigger] func.requires((x,)),
        ensures
            exists|keep: Seq<bool>|
                {
                    &&& keep.len() == self@.len()
                    &&& forall|i: int|
                        0 <= i < self@.len() ==> #[trigger] func.ensures((&self@[i],), keep[i])
                    &&& r.0@ == select(self@, keep, true)
                    &&& r.1@ == select(self@, keep, false)
                },
            r.0.user_bound() == self.user_bound() && r.1.user_bound() == self.user_bound(),
            r.0.item_bound() == self.item_bound() && r.1.item_bound() == self.item_bound(),
    {
        let mut head: Vec<Interaction> = Vec::new();
        let mut tail: Vec<Interaction> = Vec::new();
        let ghost mut keep: Seq<bool> = Seq::empty();
        let mut k: usize = 0;
        while k < self.interactions.len()
            invariant
                forall|x: &Interaction| #[trigger] func.requires((x,)),
                k <= self@.len(),
                keep.len() == k,
                forall|i: int| 0 <= i < k ==> #[trigger] func.ensures((&self@[i],), keep[i]),
                head@ == select(self@.take(k as int), keep, true),
                tail@ == select(self@.take(k as int), keep, false),
            decreases self@.len() - k,
        {
            let x = &self.interactions[k];
            let b = func(x);
            assert(self@.take(k + 1).drop_last() == self@.take(k as int));
            assert(keep.push(b).drop_last() == keep);
            if b {
                head.push(*x);
            } else {
                tail.push(*x);
            }
            proof {
                keep = keep.push(b);
            }
            k = k + 1;
        }
        assert(self@.take(k as int) == self@);
        (
            Interactions { num_users: self.num_users, num_items: self.num_items, interactions: head },
            Interactions { num_users: self.num_users, num_items: self.num_items, interactions: tail },
        )
    }

    /// Covert to triplet representation: three parallel arrays in the
    /// order of the store.
    pub fn to_triplet(&self) -> (r: TripletInteractions)
        ensures
            r.wf(),
            r.users() == self@.map_values(|x: Interaction| x.user()),
            r.items() == self@.map_values(|x: Interaction| x.item()),
            r.times() == self@.map_values(|x: Interaction| x.time()),
            r.user_bound() == self.user_bound(),
            r.item_bound() == self.item_bound(),
    {
        let mut user_ids: Vec<UserId> = Vec::new();
        let mut item_ids: Vec<ItemId> = Vec::new();
        let mut timestamps: Vec<Timestamp> = Vec::new();
        let mut k: usize = 0;
        while k < self.interactions.len()
            invariant
                k <= self@.len(),
                user_ids@ == self@.take(k as int).map_values(|x: Interaction| x.user()),
                item_ids@ == self@.take(k as int).map_values(|x: Interaction| x.item()),
                timestamps@ == self@.take(k as int).map_values(|x: Interaction| x.time()),
            decreases self@.len() - k,
        {
            let x = self.interactions[k];
            assert(self@.take(k + 1) == self@.take(k as int).push(x));
            user_ids.push(x.user_id());
            item_ids.push(x.item_id());
            timestamps.push(x.timestamp());
            k = k + 1;
        }
        assert(self@.take(k as int) == self@);
        TripletInteractions {
            num_users: self.num_users,
            num_items: self.num_items,
            user_ids,
            item_ids,
            timestamps,
        }
    }

    /// Convert to compressed representation: each user's interactions
    /// sorted by timestamp, ties in their order in the store. Each
    /// interaction is inserted into its user's run from the end, so data
    /// that arrives in time order is placed without moving anything.
    pub fn to_compressed(&self) -> (r: CompressedInteractions)
        requires
            self.users_in_bounds(),
        ensures
            r.wf(),
            r.user_bound() == self.user_bound(),
            r.item_bound() == self.item_bound(),
            forall|u: nat| u < self.user_bound() ==> #[trigger] r.user_view(u) == history(self@, u),
            forall|u: nat|
                u < self.user_bound() ==> #[trigger] r.user_items(u) == history(self@, u).map_values(
                    |x: Interaction| x.item(),
                ),
            forall|u: nat|
                u < self.user_bound() ==> #[trigger] r.user_times(u) == history(self@, u).map_values(
                    |x: Interaction| x.time(),
                ),
            r.records_upto(r.user_bound()) == histories_upto(self@, self.user_bound()),
            r.pointers().len() == self.user_bound() + 1,
            forall|u: nat|
                u <= self.user_bound() ==> #[trigger] r.pointers()[u as int] == histories_upto(
                    self@,
                    u,
                ).len(),
    {
        let n = self.num_users;
        let ghost s = self@;
        let mut buckets: Vec<Vec<Interaction>> = Vec::new();
        let mut u: usize = 0;
        while u < n
            invariant
                u <= n,
                buckets@.len() == u,
                forall|v: int| 0 <= v < u ==> #[trigger] buckets@[v]@ == Seq::<Interaction>::empty(),
            decreases n - u,
        {
            buckets.push(Vec::new());
            u = u + 1;
        }
        let mut k: usize = 0;
        while k < self.interactions.len()
            invariant
                s == self@,
                self.users_in_bounds(),
                n == self.user_bound(),
                k <= s.len(),
                buckets@.len() == n,
                forall|v: int| 0 <= v < n ==> #[trigger] buckets@[v]@ == history(s.take(k as int), v as nat),
            decreases s.len() - k,
        {
            let x = self.interactions[k];
            let uid = x.user_id();
            assert(s.take(k + 1).drop_last() == s.take(k as int));
            assert(s.take(k + 1).last() == x);
            assert(s[k as int].user() < n);
            insert_sorted(&mut buckets[uid], x);
            k = k + 1;
        }
        assert(s.take(k as int) == s);
        let mut user_pointers: Vec<usize> = Vec::new();
        let mut item_ids: Vec<ItemId> = Vec::new();
        let mut timestamps: Vec<Timestamp> = Vec::new();
        user_pointers.push(0);
        let mut u: usize = 0;
        while u < n
            invariant
                u <= n,
                buckets@.len() == n,
                forall|v: int| 0 <= v < n ==> #[trigger] buckets@[v]@ == history(s, v as nat),
                user_pointers@.len() == u + 1,
                forall|v: int| 0 <= v <= u ==> #[trigger] user_pointers@[v] == histories_upto(s, v as nat).len(),
                item_ids@ == histories_upto(s, u as nat).map_values(|x: Interaction| x.item()),
                timestamps@ == histories_upto(s, u as nat).map_values(|x: Interaction| x.time()),
            decreases n - u,
        {
            let bucket = &buckets[u];
            let ghost done = histories_upto(s, u as nat);
            let mut i: usize = 0;
            while i < bucket.len()
                invariant
                    bucket@ == history(s, u as nat),
                    i <= bucket@.len(),
                    item_ids@ == (done + bucket@.take(i as int)).map_values(|x: Interaction| x.item()),
                    timestamps@ == (done + bucket@.take(i as int)).map_values(|x: Interaction| x.time()),
                decreases bucket@.len() - i,
            {
                assert(done + bucket@.take(i + 1) == (done + bucket@.take(i as int)).push(bucket@[i as int]));
                item_ids.push(bucket[i].item_id());
                timestamps.push(bucket[i].timestamp());
                i = i + 1;
            }
            assert(bucket@.take(i as int) == bucket@);
            assert(histories_upto(s, (u + 1) as nat) == done + history(s, u as nat));
            user_pointers.push(item_ids.len());
            u = u + 1;
        }
        let r = CompressedInteractions {
            num_users: self.num_users,
            num_items: self.num_items,
            user_pointers,
            item_ids,
            timestamps,
        };
        proof {
            let all = histories_upto(s, n as nat);
            assert forall|v: nat| v < n implies #[trigger] r.user_view(v) == history(s, v)
                && non_decreasing(r.user_times(v)) && r.user_items(v) == history(s, v).map_values(
                |x: Interaction| x.item(),
            ) && r.user_times(v) == history(s, v).map_values(|x: Interaction| x.time()) by {
                lemma_histories_prefix(s, v, n as nat);
                lemma_history(s, v as usize);
                assert((v as usize) as nat == v);
                let h = history(s, v);
                let a = histories_upto(s, v).len() as int;
                let b = histories_upto(s, v + 1).len() as int;
                assert(histories_upto(s, v + 1) == histories_upto(s, v) + h);
                assert(r.user_items(v) =~= h.map_values(|x: Interaction| x.item()));
                assert(r.user_times(v) =~= h.map_values(|x: Interaction| x.time()));
                assert forall|i: int| 0 <= i < h.len() implies #[trigger] r.user_view(v)[i] == h[i] by {
                    assert(h[i].user() == v);
                }
                assert(r.user_view(v) =~= h);
                assert forall|i: int, j: int| 0 <= i <= j < r.user_times(v).len() implies r.user_times(v)[i]
                    <= r.user_times(v)[j] by {
                    assert(h[i].time() <= h[j].time());
                }
            }
            assert forall|v: int, w: int| 0 <= v <= w <= n implies r.user_pointers@[v]
                <= r.user_pointers@[w] by {
                if v < w {
                    lemma_histories_prefix(s, v as nat, w as nat);
                    assert(histories_upto(s, (v + 1) as nat) == histories_upto(s, v as nat) + history(s, v as nat));
                }
            }
            assert forall|v: nat| v < n implies non_decreasing(#[trigger] r.user_times(v)) by {
                assert(r.user_view(v) == history(s, v));
            }
            assert forall|v: nat| v < n implies #[trigger] r.user_items(v) == history(s, v).map_values(
                |x: Interaction| x.item(),
            ) by {
                assert(r.user_view(v) == history(s, v));
            }
            assert forall|v: nat| v < n implies #[trigger] r.user_times(v) == history(s, v).map_values(
                |x: Interaction| x.time(),
            ) by {
                assert(r.user_view(v) == history(s, v));
            }
            assert(r.user_pointers@[0] == 0);
            assert(r.user_pointers@[n as int] == r.item_ids@.len());
            assert forall|v: nat| v < n implies non_decreasing(
                #[trigger] run_of(r.timestamps@, r.user_pointers@, v),
            ) by {
                assert(non_decreasing(r.user_times(v)));
            }
            assert(r.wf());
            assert forall|v: nat| v <= n implies #[trigger] r.pointers()[v as int] == histories_upto(
                s,
                v,
            ).len() by {
                assert(r.user_pointers@[v as int] == histories_upto(s, v as int as nat).len());
            }
            r.lemma_records(s, n as nat);
        }
        r
    }

    /// Return number of users.
    pub fn num_users(&self) -> (r: usize)
        ensures
            r == self.user_bound(),
    {
        self.num_users
    }

    /// Return number of items.
    pub fn num_items(&self) -> (r: usize)
        ensures
            r == self.item_bound(),
    {
        self.num_items
    }

    /// Return (`num_users`, `num_items`).
    pub fn shape(&self) -> (r: (usize, usize))
        ensures
            r == (self.user_bound() as usize, self.item_bound() as usize),
    {
        (self.num_users, self.num_items)
    }
}

/// Overwriting one position trades that element for the new one in the multiset.
pub proof fn lemma_update_multiset<T>(s: Seq<T>, i: int, v: T)
    requires
        0 <= i < s.len(),
    ensures
        s.update(i, v).to_multiset() == s.to_multiset().remove(s[i]).insert(v),
{
    broadcast use vstd::seq_lib::group_to_multiset_ensures;
    broadcast use vstd::multiset::group_multiset_axioms;

    let t = s.update(i, v);
    assert(t.remove(i) =~= s.remove(i));
    assert(t.contains(v)) by {
        assert(t[i] == v);
    }
    assert(t.to_multiset() =~= t.to_multiset().remove(v).insert(v));
}

/// Exchanging two positions keeps the multiset of elements.
pub proof fn lemma_swap_multiset<T>(s: Seq<T>, i: int, j: int)
    requires
        0 <= i < s.len(),
        0 <= j < s.len(),
    ensures
        swapped(s, i, j).to_multiset() == s.to_multiset(),
{
    broadcast use vstd::seq_lib::group_to_multiset_ensures;
    broadcast use vstd::multiset::group_multiset_axioms;

    let t = s.update(i, s[j]);
    lemma_update_multiset(s, i, s[j]);
    lemma_update_multiset(t, j, s[i]);
    if i == j {
        assert(swapped(s, i, j) =~= s);
    } else {
        assert(s.contains(s[i])) by {
            assert(s[i] == s[i]);
        }
        assert(s.to_multiset().remove(s[i]).insert(s[j]).remove(s[j]).insert(s[i])
            =~= s.to_multiset());
    }
}

/// `h` with `x` placed after every trailing entry whose timestamp exceeds
/// that of `x`: on a history sorted by timestamp, a stable insertion.
pub open spec fn insert_by_time(h: Seq<Interaction>, x: Interaction) -> Seq<Interaction>
    decreases h.len(),
{
    if h.len() == 0 || h.last().time() <= x.time() {
        h.push(x)
    } else {
        insert_by_time(h.drop_last(), x).push(h.last())
    }
}

/// The interactions of user `u` in `s`, sorted by timestamp ascending, ties
/// kept in their order in `s`.
pub open spec fn history(s: Seq<Interaction>, u: nat) -> Seq<Interaction>
    decreases s.len(),
{
    if s.len() == 0 {
        Seq::empty()
    } else {
        let h = history(s.drop_last(), u);
        if s.last().user() == u { insert_by_time(h, s.last()) } else { h }
    }
}

/// The histories of users `0 .. n` of `s`, one after another.
pub open spec fn histories_upto(s: Seq<Interaction>, n: nat) -> Seq<Interaction>
    decreases n,
{
    if n == 0 {
        Seq::empty()
    } else {
        histories_upto(s, (n - 1) as nat) + history(s, (n - 1) as nat)
    }
}

/// The timestamps of `h` never decrease.
pub open spec fn sorted_by_time(h: Seq<Interaction>) -> bool {
    forall|i: int, j: int| 0 <= i <= j < h.len() ==> #[trigger] h[i].time() <= #[trigger] h[j].time()
}

/// The timestamps in `t` never decrease.
pub open spec fn non_decreasing(t: Seq<Timestamp>) -> bool {
    forall|i: int, j: int| 0 <= i <= j < t.len() ==> t[i] <= t[j]
}

/// Insert `x` into `v` at the position that `insert_by_time` gives.
fn insert_sorted(v: &mut Vec<Interaction>, x: Interaction)
    ensures
        final(v)@ == insert_by_time(old(v)@, x),
{
    let ghost h = v@;
    let mut p: usize = v.len();
    assert(h.take(p as int) == h);
    assert(insert_by_time(h, x) + h.skip(p as int) == insert_by_time(h, x));
    while p > 0 && v[p - 1].timestamp() > x.timestamp()
        invariant
            v@ == h,
            p <= h.len(),
            insert_by_time(h, x) == insert_by_time(h.take(p as int), x) + h.skip(p as int),
        decreases p,
    {
        proof {
            let t = h.take(p as int);
            assert(t.drop_last() == h.take(p - 1));
            assert(insert_by_time(t, x) == insert_by_time(h.take(p - 1), x).push(h[p - 1]));
            assert(insert_by_time(h.take(p - 1), x).push(h[p - 1]) + h.skip(p as int)
                == insert_by_time(h.take(p - 1), x) + h.skip(p - 1));
        }
        p = p - 1;
    }
    proof {
        assert(insert_by_time(h.take(p as int), x) == h.take(p as int).push(x));
        assert(h.take(p as int).push(x) + h.skip(p as int) == h.insert(p as int, x));
    }
    v.insert(p, x);
}

/// Stable insertion adds `x` to the multiset, keeps a history sorted, and
/// keeps it within one user.
pub proof fn lemma_insert_by_time(h: Seq<Interaction>, x: Interaction)
    ensures
        insert_by_time(h, x).to_multiset() == h.to_multiset().insert(x),
        insert_by_time(h, x).len() == h.len() + 1,
        sorted_by_time(h) ==> sorted_by_time(insert_by_time(h, x)),
        (forall|i: int| 0 <= i < h.len() ==> #[trigger] h[i].user() == x.user()) ==> forall|i: int|
            0 <= i < h.len() + 1 ==> #[trigger] insert_by_time(h, x)[i].user() == x.user(),
    decreases h.len(),
{
    broadcast use vstd::seq_lib::group_to_multiset_ensures;
    broadcast use vstd::multiset::group_multiset_axioms;

    if h.len() == 0 || h.last().time() <= x.time() {
    } else {
        let g = h.drop_last();
        lemma_insert_by_time(g, x);
        assert(h == g.push(h.last()));
        assert(h.to_multiset() == g.to_multiset().insert(h.last()));
        assert(insert_by_time(h, x).to_multiset() =~= h.to_multiset().insert(x));
        if sorted_by_time(h) {
            let r = insert_by_time(h, x);
            let q = insert_by_time(g, x);
            assert(sorted_by_time(g));
            assert forall|i: int, j: int| 0 <= i <= j < r.len() implies #[trigger] r[i].time()
                <= #[trigger] r[j].time() by {
                if j == r.len() - 1 && i < j {
                    assert(q.to_multiset().contains(q[i])) by {
                        assert(q.contains(q[i]));
                    }
                    let e = q[i];
                    assert(g.to_multiset().insert(x).contains(e));
                    if e != x {
                        assert(g.to_multiset().contains(e));
                        assert(g.contains(e));
                        let k = choose|k: int| 0 <= k < g.len() && g[k] == e;
                        assert(h[k] == e);
                    }
                }
            }
        }
        if forall|i: int| 0 <= i < h.len() ==> #[trigger] h[i].user() == x.user() {
            assert(forall|i: int| 0 <= i < g.len() ==> #[trigger] g[i].user() == h[i].user());
            assert(h[h.len() - 1].user() == x.user());
        }
    }
}

/// A user's history is sorted by timestamp and holds only that user's interactions.
pub proof fn lemma_history(s: Seq<Interaction>, u: UserId)
    ensures
        sorted_by_time(history(s, u as nat)),
        forall|i: int| 0 <= i < history(s, u as nat).len() ==> #[trigger] history(s, u as nat)[i].user() == u,
    decreases s.len(),
{
    if s.len() > 0 {
        lemma_history(s.drop_last(), u);
        lemma_insert_by_time(history(s.drop_last(), u as nat), s.last());
    }
}

/// Appending `x` to the data adds `x` to the histories of users below `n`
/// exactly when its user is below `n`.
pub proof fn lemma_histories_push(s: Seq<Interaction>, x: Interaction, n: nat)
    ensures
        histories_upto(s.push(x), n).to_multiset() == (if x.user() < n {
            histories_upto(s, n).to_multiset().insert(x)
        } else {
            histories_upto(s, n).to_multiset()
        }),
    decreases n,
{
    broadcast use vstd::multiset::group_multiset_axioms;

    if n > 0 {
        let m = (n - 1) as nat;
        lemma_histories_push(s, x, m);
        let t = s.push(x);
        assert(t.drop_last() == s);
        lemma_insert_by_time(history(s, m), x);
        vstd::seq_lib::lemma_multiset_commutative(histories_upto(t, m), history(t, m));
        vstd::seq_lib::lemma_multiset_commutative(histories_upto(s, m), history(s, m));
        assert(histories_upto(t, n).to_multiset() =~= (if x.user() < n {
            histories_upto(s, n).to_multiset().insert(x)
        } else {
            histories_upto(s, n).to_multiset()
        }));
    }
}

/// When every user id lies below `n`, the histories of users `0 .. n` hold
/// exactly the interactions of `s`.
pub proof fn lemma_histories_multiset(s: Seq<Interaction>, n: nat)
    requires
        users_below(s, n),
    ensures
        histories_upto(s, n).to_multiset() == s.to_multiset(),
    decreases s.len(),
{
    broadcast use vstd::seq_lib::group_to_multiset_ensures;

    if s.len() == 0 {
        lemma_histories_empty(s, n);
    } else {
        let g = s.drop_last();
        assert(users_below(g, n)) by {
            assert forall|i: int| 0 <= i < g.len() implies #[trigger] g[i].user() < n by {
                assert(s[i].user() < n);
            }
        }
        lemma_histories_multiset(g, n);
        assert(s.last().user() < n) by {
            assert(s[s.len() - 1].user() < n);
        }
        assert(g.push(s.last()) == s);
        lemma_histories_push(g, s.last(), n);
    }
}

/// The histories of an empty sequence are empty.
proof fn lemma_histories_empty(s: Seq<Interaction>, n: nat)
    requires
        s.len() == 0,
    ensures
        histories_upto(s, n) == Seq::<Interaction>::empty(),
    decreases n,
{
    if n > 0 {
        lemma_histories_empty(s, (n - 1) as nat);
        assert(histories_upto(s, n) =~= Seq::<Interaction>::empty());
    }
}

/// The histories of users `0 .. w` begin with those of users `0 .. v`, and
/// user `v`'s history follows them.
proof fn lemma_histories_prefix(s: Seq<Interaction>, v: nat, w: nat)
    requires
        v < w,
    ensures
        histories_upto(s, v + 1).len() <= histories_upto(s, w).len(),
        histories_upto(s, w).subrange(
            histories_upto(s, v).len() as int,
            histories_upto(s, v + 1).len() as int,
        ) == history(s, v),
        histories_upto(s, w).take(histories_upto(s, v + 1).len() as int) == histories_upto(s, v + 1),
    decreases w,
{
    if w > v + 1 {
        lemma_histories_prefix(s, v, (w - 1) as nat);
        let a = histories_upto(s, (w - 1) as nat);
        assert(histories_upto(s, w) == a + history(s, (w - 1) as nat));
        assert((a + history(s, (w - 1) as nat)).take(histories_upto(s, v + 1).len() as int)
            == a.take(histories_upto(s, v + 1).len() as int));
        assert(histories_upto(s, v + 1) == histories_upto(s, v) + history(s, v));
        assert(histories_upto(s, w).subrange(
            histories_upto(s, v).len() as int,
            histories_upto(s, v + 1).len() as int,
        ) == histories_upto(s, v + 1).subrange(
            histories_upto(s, v).len() as int,
            histories_upto(s, v + 1).len() as int,
        ));
    } else {
        assert(histories_upto(s, w) == histories_upto(s, v) + history(s, v));
        assert(histories_upto(s, w).take(histories_upto(s, v + 1).len() as int) == histories_upto(s, w));
    }
}

/// The run of user `u` in `a`: positions `pointers[u] .. pointers[u + 1]`.
pub open spec fn run_of<T>(a: Seq<T>, pointers: Seq<usize>, u: nat) -> Seq<T> {
    a.subrange(pointers[u as int] as int, pointers[u + 1 as int] as int)
}

/// The parts of a compressed index fit together: one offset per user plus
/// one, starting at 0, never decreasing and ending at the common length of
/// the item and timestamp arrays; the timestamps of each user's run ascend.
pub open spec fn csr_valid(
    num_users: nat,
    pointers: Seq<usize>,
    items: Seq<ItemId>,
    times: Seq<Timestamp>,
) -> bool {
    &&& pointers.len() == num_users + 1
    &&& pointers[0] == 0
    &&& forall|u: int, v: int| 0 <= u <= v <= num_users ==> pointers[u] <= pointers[v]
    &&& pointers[num_users as int] == items.len()
    &&& items.len() == times.len()
    &&& forall|u: nat| u < num_users ==> non_decreasing(#[trigger] run_of(times, pointers, u))
}

/// Whether the parts of a compressed index fit together.
fn check_parts(num_users: usize, ptr: &Vec<usize>, items: &Vec<ItemId>, times: &Vec<Timestamp>) -> (r:
    bool)
    ensures
        r == csr_valid(num_users as nat, ptr@, items@, times@),
{
    if ptr.len() == 0 || ptr.len() - 1 != num_users {
        return false;
    }
    if ptr[0] != 0 || ptr[num_users] != items.len() || items.len() != times.len() {
        return false;
    }
    let mut u: usize = 0;
    while u < num_users
        invariant
            ptr@.len() == num_users + 1,
            ptr@[0] == 0,
            ptr@[num_users as int] == items@.len(),
            items@.len() == times@.len(),
            u <= num_users,
            forall|a: int, b: int| 0 <= a <= b <= u ==> ptr@[a] <= ptr@[b],
            forall|w: nat| w < u ==> non_decreasing(#[trigger] run_of(times@, ptr@, w)),
        decreases num_users - u,
    {
        let start = ptr[u];
        let stop = ptr[u + 1];
        if start > stop {
            assert(!csr_valid(num_users as nat, ptr@, items@, times@)) by {
                assert(ptr@[u as int] > ptr@[u + 1]);
            }
            return false;
        }
        if stop > times.len() {
            assert(!csr_valid(num_users as nat, ptr@, items@, times@)) by {
                assert(ptr@[u + 1] > ptr@[num_users as int]);
            }
            return false;
        }
        let mut i: usize = start;
        while stop - i > 1
            invariant
                ptr@.len() == num_users + 1,
                u < num_users,
                start == ptr@[u as int],
                stop == ptr@[u + 1],
                start <= i <= stop,
                stop <= times@.len(),
                forall|a: int, b: int| start <= a <= b <= i && b < stop ==> times@[a] <= times@[b],
            decreases stop - i,
        {
            if times[i] > times[i + 1] {
                assert(!csr_valid(num_users as nat, ptr@, items@, times@)) by {
                    let run = run_of(times@, ptr@, u as nat);
                    assert(run[i - start] == times@[i as int]);
                    assert(run[i + 1 - start] == times@[i + 1]);
                    assert(!non_decreasing(run));
                }
                return false;
            }
            i = i + 1;
        }
        assert(non_decreasing(run_of(times@, ptr@, u as nat))) by {
            let run = run_of(times@, ptr@, u as nat);
            assert forall|a: int, b: int| 0 <= a <= b < run.len() implies run[a] <= run[b] by {
                assert(run[a] == times@[start + a]);
                assert(run[b] == times@[start + b]);
            }
        }
        assert forall|a: int, b: int| 0 <= a <= b <= u + 1 implies ptr@[a] <= ptr@[b] by {
            if b == u + 1 && a <= u {
                assert(ptr@[a] <= ptr@[u as int]);
            }
        }
        u = u + 1;
    }
    true
}

/// A compressed representation of interactions, where the
/// interactions themselves are arranged by user and by timestamp.
///
/// Normally created by [Interactions::to_compressed].
#[derive(Clone, Debug)]
pub struct CompressedInteractions {
    num_users: usize,
    num_items: usize,
    user_pointers: Vec<usize>,
    item_ids: Vec<ItemId>,
    timestamps: Vec<Timestamp>,
}

impl CompressedInteractions {
    /// The number of users of the index.
    pub closed spec fn user_bound(&self) -> nat {
        self.num_users as nat
    }

    /// The number of items of the index.
    pub closed spec fn item_bound(&self) -> nat {
        self.num_items as nat
    }

    /// The offsets of the users' runs: user `u` owns positions
    /// `pointers()[u] .. pointers()[u + 1]` of the item and timestamp arrays.
    pub closed spec fn pointers(&self) -> Seq<usize> {
        self.user_pointers@
    }

    /// The item ids of user `u`, from earliest to latest.
    pub closed spec fn user_items(&self, u: nat) -> Seq<ItemId> {
        run_of(self.item_ids@, self.user_pointers@, u)
    }

    /// The timestamps of user `u`, ascending.
    pub closed spec fn user_times(&self, u: nat) -> Seq<Timestamp> {
        run_of(self.timestamps@, self.user_pointers@, u)
    }

    /// The interactions of user `u`, from earliest to latest.
    pub closed spec fn user_view(&self, u: nat) -> Seq<Interaction> {
        Seq::new(
            self.user_items(u).len(),
            |i: int|
                Interaction {
                    user_id: u as usize,
                    item_id: self.user_items(u)[i],
                    timestamp: self.user_times(u)[i],
                },
        )
    }

    /// The interactions of users `0 .. n`, one user after another.
    pub open spec fn records_upto(&self, n: nat) -> Seq<Interaction>
        decreases n,
    {
        if n == 0 {
            Seq::empty()
        } else {
            self.records_upto((n - 1) as nat) + self.user_view((n - 1) as nat)
        }
    }

    /// When each user's view is that user's history in `s`, the views of
    /// users `0 .. m` are the histories of those users.
    proof fn lemma_records(&self, s: Seq<Interaction>, m: nat)
        requires
            m <= self.num_users,
            forall|u: nat| u < self.num_users ==> #[trigger] self.user_view(u) == history(s, u),
        ensures
            self.records_upto(m) == histories_upto(s, m),
        decreases m,
    {
        if m > 0 {
            self.lemma_records(s, (m - 1) as nat);
            assert(self.user_view((m - 1) as nat) == history(s, (m - 1) as nat));
        }
    }

    /// All item ids, user after user.
    pub closed spec fn item_array(&self) -> Seq<ItemId> {
        self.item_ids@
    }

    /// All timestamps, user after user.
    pub closed spec fn time_array(&self) -> Seq<Timestamp> {
        self.timestamps@
    }

    /// The well-formedness of an index is that of its parts.
    pub proof fn lemma_wf_parts(&self)
        ensures
            self.wf() == csr_valid(self.user_bound(), self.pointers(), self.item_array(), self.time_array()),
            forall|u: nat| #[trigger] self.user_items(u) == run_of(self.item_array(), self.pointers(), u),
            forall|u: nat| #[trigger] self.user_times(u) == run_of(self.time_array(), self.pointers(), u),
    {
    }

    /// Rebuild an index from its parts; `None` when they do not fit together.
    pub fn from_parts(
        num_users: usize,
        num_items: usize,
        user_pointers: Vec<usize>,
        item_ids: Vec<ItemId>,
        timestamps: Vec<Timestamp>,
    ) -> (r: Option<Self>)
        ensures
            r is Some <==> csr_valid(num_users as nat, user_pointers@, item_ids@, timestamps@),
            r is Some ==> {
                &&& r->Some_0.wf()
                &&& r->Some_0.user_bound() == num_users
                &&& r->Some_0.item_bound() == num_items
                &&& r->Some_0.pointers() == user_pointers@
                &&& r->Some_0.item_array() == item_ids@
                &&& r->Some_0.time_array() == timestamps@
            },
    {
        if !check_parts(num_users, &user_pointers, &item_ids, &timestamps) {
            return None;
        }
        Some(CompressedInteractions { num_users, num_items, user_pointers, item_ids, timestamps })
    }

    /// The offsets of the users' runs.
    pub fn user_pointers(&self) -> (r: &[usize])
        ensures
            r@ == self.pointers(),
    {
        self.user_pointers.as_slice()
    }

    /// All item ids, user after user.
    pub fn item_ids(&self) -> (r: &[ItemId])
        ensures
            r@ == self.item_array(),
    {
        self.item_ids.as_slice()
    }

    /// All timestamps, user after user.
    pub fn timestamps(&self) -> (r: &[Timestamp])
        ensures
            r@ == self.time_array(),
    {
        self.timestamps.as_slice()
    }

    /// Iterate over users.
    pub fn iter_users(&self) -> (r: CompressedInteractionsUserIterator)
        ensures
            r.source() == self,
            r.index() == 0,
    {
        CompressedInteractionsUserIterator { interactions: self, idx: 0 }
    }

    /// Get a particular user's interactions; `None` when the user id is not
    /// below the number of users.
    pub fn get_user(&self, user_id: UserId) -> (r: Option<CompressedInteractionsUser>)
        requires
            self.wf(),
        ensures
            r is None <==> user_id >= self.user_bound(),
            r is Some ==> (r->Some_0.user_id == user_id && r->Some_0.item_ids@ == self.user_items(
                user_id as nat,
            ) && r->Some_0.timestamps@ == self.user_times(user_id as nat)
                && r->Some_0.item_ids@.len() == r->Some_0.timestamps@.len()),
    {
        if user_id >= self.num_users {
            return None;
        }
        Some(self.user_slices(user_id))
    }

    /// The views of user `user_id` over the item and timestamp arrays.
    fn user_slices(&self, user_id: UserId) -> (r: CompressedInteractionsUser)
        requires
            self.wf(),
            user_id < self.user_bound(),
        ensures
            r.user_id == user_id,
            r.item_ids@ == self.user_items(user_id as nat),
            r.timestamps@ == self.user_times(user_id as nat),
            r.item_ids@.len() == r.timestamps@.len(),
    {
        assert(self.user_pointers@[user_id as int] <= self.user_pointers@[user_id + 1]);
        assert(self.user_pointers@[user_id + 1] <= self.user_pointers@[self.num_users as int]);
        let start = self.user_pointers[user_id];
        let stop = self.user_pointers[user_id + 1];
        CompressedInteractionsUser {
            user_id,
            item_ids: &self.item_ids.as_slice()[start..stop],
            timestamps: &self.timestamps.as_slice()[start..stop],
        }
    }

    /// Return number of users.
    pub fn num_users(&self) -> (r: usize)
        ensures
            r == self.user_bound(),
    {
        self.num_users
    }

    /// Return number of items.
    pub fn num_items(&self) -> (r: usize)
        ensures
            r == self.item_bound(),
    {
        self.num_items
    }

    /// Return (`num_users`, `num_items`).
    pub fn shape(&self) -> (r: (usize, usize))
        ensures
            r == (self.user_bound() as usize, self.item_bound() as usize),
    {
        (self.num_users, self.num_items)
    }

    /// Convert to `Interactions`: users in ascending order, each user's
    /// interactions from earliest to latest.
    pub fn to_interactions(&self) -> (r: Interactions)
        requires
            self.wf(),
        ensures
            r@ == self.records_upto(self.user_bound()),
            r.user_bound() == self.user_bound(),
            r.item_bound() == self.item_bound(),
    {
        let mut interactions: Vec<Interaction> = Vec::new();
        let mut u: usize = 0;
        while u < self.num_users
            invariant
                self.wf(),
                u <= self.num_users,
                interactions@ == self.records_upto(u as nat),
            decreases self.num_users - u,
        {
            let start = self.user_pointers[u];
            let stop = self.user_pointers[u + 1];
            assert(self.user_pointers@[u as int] <= self.user_pointers@[u + 1]);
            let ghost done = self.records_upto(u as nat);
            let mut i: usize = start;
            while i < stop
                invariant
                    self.wf(),
                    u < self.num_users,
                    start == self.user_pointers@[u as int],
                    stop == self.user_pointers@[u + 1],
                    start <= i <= stop,
                    interactions@ == done + self.user_view(u as nat).take(i - start),
                decreases stop - i,
            {
                assert(self.user_pointers@[u + 1] <= self.user_pointers@[self.num_users as int]);
                let x = Interaction {
                    user_id: u,
                    item_id: self.item_ids[i],
                    timestamp: self.timestamps[i],
                };
                assert(self.user_view(u as nat)[i - start] == x);
                assert(self.user_view(u as nat).take(i + 1 - start) == self.user_view(u as nat).take(
                    i - start,
                ).push(x));
                interactions.push(x);
                i = i + 1;
            }
            assert(self.user_view(u as nat).take(stop - start) == self.user_view(u as nat));
            u = u + 1;
        }
        Interactions { num_users: self.num_users, num_items: self.num_items, interactions }
    }

    /// The offsets start at 0, never decrease and end at the common length
    /// of the item and timestamp arrays; each user's timestamps ascend.
    pub closed spec fn wf(&self) -> bool {
        csr_valid(self.num_users as nat, self.user_pointers@, self.item_ids@, self.timestamps@)
    }
}

/// Iterator over compressed user data.
#[derive(Clone, Debug)]
pub struct CompressedInteractionsUserIterator<'a> {
    interactions: &'a CompressedInteractions,
    idx: usize,
}

impl<'a> CompressedInteractionsUserIterator<'a> {
    /// The index that the iterator reads from.
    pub closed spec fn source(&self) -> &'a CompressedInteractions {
        self.interactions
    }

    /// The id of the next user to be produced.
    pub closed spec fn index(&self) -> nat {
        self.idx as nat
    }

    /// Produce the next user, with an empty view for a user without
    /// interactions, or `None` once every user has been produced.
    pub fn next(&mut self) -> (r: Option<CompressedInteractionsUser<'a>>)
        requires
            old(self).source().wf(),
        ensures
            final(self).source() == old(self).source(),
            old(self).index() >= old(self).source().user_bound() ==> r is None && final(self).index()
                == old(self).index(),
            old(self).index() < old(self).source().user_bound() ==> {
                &&& r is Some
                &&& r->Some_0.user_id == old(self).index()
                &&& r->Some_0.item_ids@ == old(self).source().user_items(old(self).index())
                &&& r->Some_0.timestamps@ == old(self).source().user_times(old(self).index())
                &&& r->Some_0.item_ids@.len() == r->Some_0.timestamps@.len()
                &&& final(self).index() == old(self).index() + 1
            },
    {
        if self.idx >= self.interactions.num_users {
            None
        } else {
            let user = self.interactions.user_slices(self.idx);
            self.idx = self.idx + 1;
            Some(user)
        }
    }
}

/// A single user's data, arranged from earliest to latest.
#[derive(Debug, Clone)]
pub struct CompressedInteractionsUser<'a> {
    /// User id.
    pub user_id: UserId,
    /// The users's interactions.
    pub item_ids: &'a [ItemId],
    /// The timestamps of the user's interactions.
    pub timestamps: &'a [Timestamp],
}

/// The length of the next chunk when `rest` interactions remain: the
/// remainder modulo `size` when it is not zero, else `size`.
pub open spec fn chunk_len(rest: nat, size: nat) -> nat {
    if rest % size == 0 { size } else { rest % size }
}

impl<'a> CompressedInteractionsUser<'a> {
    /// Return length of interactions.
    pub fn len(&self) -> (r: usize)
        ensures
            r == self.item_ids@.len(),
    {
        self.item_ids.len()
    }

    /// Check if there are no interactions.
    pub fn is_empty(&self) -> (r: bool)
        ensures
            r == (self.item_ids@.len() == 0),
    {
        self.item_ids.is_empty()
    }

    /// Return a chunked iterator over interactions for this user.
    /// The chunks are such that the _first_ chunk is smallest,
    /// and the remaining chunks are all of `chunk_size`.
    pub fn chunks(&self, chunk_size: usize) -> (r: CompressedInteractionsUserChunkIterator<'a>)
        requires
            chunk_size > 0,
            self.item_ids@.len() == self.timestamps@.len(),
        ensures
            r.wf(),
            r.items() == self.item_ids@,
            r.times() == self.timestamps@,
            r.size() == chunk_size,
            r.position() == 0,
            r.remaining_chunks() == chunk_lengths(self.item_ids@.len(), chunk_size as nat),
    {
        CompressedInteractionsUserChunkIterator {
            idx: 0,
            chunk_size,
            item_ids: self.item_ids,
            timestamps: self.timestamps,
        }
    }
}

/// Chunked iterator over a user's interactions.
/// The chunks are such that the _first_ chunk is smallest,
/// and the remaining chunks are all of `chunk_size`.
#[derive(Debug, Clone)]
pub struct CompressedInteractionsUserChunkIterator<'a> {
    idx: usize,
    chunk_size: usize,
    item_ids: &'a [ItemId],
    timestamps: &'a [Timestamp],
}

impl<'a> CompressedInteractionsUserChunkIterator<'a> {
    /// The position of the next chunk's start.
    pub closed spec fn position(&self) -> nat {
        self.idx as nat
    }

    /// The chunk size.
    pub closed spec fn size(&self) -> nat {
        self.chunk_size as nat
    }

    /// The item ids being chunked.
    pub closed spec fn items(&self) -> Seq<ItemId> {
        self.item_ids@
    }

    /// The timestamps being chunked.
    pub closed spec fn times(&self) -> Seq<Timestamp> {
        self.timestamps@
    }

    /// The two arrays have one length, the chunk size is positive and the
    /// position lies within the arrays.
    pub open spec fn wf(&self) -> bool {
        &&& self.items().len() == self.times().len()
        &&& self.size() > 0
        &&& self.position() <= self.items().len()
    }

    /// The lengths of the chunks still to come, in order.
    pub open spec fn remaining_chunks(&self) -> Seq<nat> {
        chunk_lengths((self.items().len() - self.position()) as nat, self.size())
    }

    /// Produce the next chunk, or `None` once the history is used up.
    pub fn next(&mut self) -> (r: Option<(&'a [ItemId], &'a [Timestamp])>)
        requires
            old(self).wf(),
        ensures
            final(self).wf(),
            r is None <==> old(self).remaining_chunks().len() == 0,
            r is Some ==> (r->Some_0.0@.len() == old(self).remaining_chunks()[0]
                && r->Some_0.1@.len() == old(self).remaining_chunks()[0]
                && final(self).remaining_chunks() == old(self).remaining_chunks().drop_first()),
            final(self).items() == old(self).items(),
            final(self).times() == old(self).times(),
            final(self).size() == old(self).size(),
            old(self).position() == old(self).items().len() ==> r is None && final(self).position()
                == old(self).position(),
            old(self).position() < old(self).items().len() ==> {
                let start = old(self).position() as int;
                let stop = start + chunk_len(
                    (old(self).items().len() - start) as nat,
                    old(self).size(),
                );
                &&& r is Some
                &&& r->Some_0.0@ == old(self).items().subrange(start, stop)
                &&& r->Some_0.1@ == old(self).times().subrange(start, stop)
                &&& final(self).position() == stop
            },
    {
        let user_len = self.item_ids.len();
        if self.idx >= user_len {
            None
        } else {
            let rest = user_len - self.idx;
            let chunk_size_mod = rest % self.chunk_size;
            assert(chunk_len(rest as nat, self.chunk_size as nat) <= rest) by (nonlinear_arith)
                requires
                    rest > 0,
                    self.chunk_size > 0,
            {
            }
            let chunk_size = if chunk_size_mod == 0 {
                self.chunk_size
            } else {
                chunk_size_mod
            };
            assert(chunk_lengths(rest as nat, self.chunk_size as nat).drop_first() == chunk_lengths(
                (rest - chunk_size) as nat,
                self.chunk_size as nat,
            ));
            let start_idx = self.idx;
            let stop_idx = self.idx + chunk_size;
            self.idx = stop_idx;
            Some((&self.item_ids[start_idx..stop_idx], &self.timestamps[start_idx..stop_idx]))
        }
    }
}

/// Interactions in COO form.
#[derive(Clone, Debug)]
pub struct TripletInteractions {
    num_users: usize,
    num_items: usize,
    user_ids: Vec<UserId>,
    pub(crate) item_ids: Vec<ItemId>,
    timestamps: Vec<Timestamp>,
}

/// Where partition `p` of `num_partitions` over `total` elements begins:
/// every partition spans `total / num_partitions` elements.
pub open spec fn partition_start(total: nat, num_partitions: nat, p: nat) -> nat {
    p * (total / num_partitions)
}

impl TripletInteractions {
    /// The number of users of the data.
    pub closed spec fn user_bound(&self) -> nat {
        self.num_users as nat
    }

    /// The number of items of the data.
    pub closed spec fn item_bound(&self) -> nat {
        self.num_items as nat
    }

    /// The user ids, one per interaction.
    pub closed spec fn users(&self) -> Seq<UserId> {
        self.user_ids@
    }

    /// The item ids, one per interaction.
    pub closed spec fn items(&self) -> Seq<ItemId> {
        self.item_ids@
    }

    /// The timestamps, one per interaction.
    pub closed spec fn times(&self) -> Seq<Timestamp> {
        self.timestamps@
    }

    /// The three arrays have one length.
    pub open spec fn wf(&self) -> bool {
        &&& self.users().len() == self.items().len()
        &&& self.users().len() == self.times().len()
    }

    /// Rebuild the form from its three arrays; `None` when their lengths differ.
    pub fn from_parts(
        num_users: usize,
        num_items: usize,
        user_ids: Vec<UserId>,
        item_ids: Vec<ItemId>,
        timestamps: Vec<Timestamp>,
    ) -> (r: Option<Self>)
        ensures
            r is Some <==> (user_ids@.len() == item_ids@.len() && user_ids@.len() == timestamps@.len()),
            r is Some ==> {
                &&& r->Some_0.wf()
                &&& r->Some_0.user_bound() == num_users
                &&& r->Some_0.item_bound() == num_items
                &&& r->Some_0.users() == user_ids@
                &&& r->Some_0.items() == item_ids@
                &&& r->Some_0.times() == timestamps@
            },
    {
        if user_ids.len() != item_ids.len() || user_ids.len() != timestamps.len() {
            return None;
        }
        Some(TripletInteractions { num_users, num_items, user_ids, item_ids, timestamps })
    }

    /// The user ids, one per interaction.
    pub fn user_ids(&self) -> (r: &[UserId])
        ensures
            r@ == self.users(),
    {
        self.user_ids.as_slice()
    }

    /// The item ids, one per interaction.
    pub fn item_ids(&self) -> (r: &[ItemId])
        ensures
            r@ == self.items(),
    {
        self.item_ids.as_slice()
    }

    /// The timestamps, one per interaction.
    pub fn timestamps(&self) -> (r: &[Timestamp])
        ensures
            r@ == self.times(),
    {
        self.timestamps.as_slice()
    }

    /// Return length.
    pub fn len(&self) -> (r: usize)
        ensures
            r == self.users().len(),
    {
        self.user_ids.len()
    }

    /// Check if there are no interactions.
    pub fn is_empty(&self) -> (r: bool)
        ensures
            r == (self.users().len() == 0),
    {
        self.len() == 0
    }

    /// Iterate over minibatches of size `minibatch_size`.
    pub fn iter_minibatch(&self, minibatch_size: usize) -> (r: TripletMinibatchIterator)
        ensures
            r.source() == self,
            r.position() == 0,
            r.stop() == self.users().len(),
            r.batch_size() == minibatch_size,
            r.remaining_batches() == batch_count(self.users().len(), minibatch_size as nat),
    {
        TripletMinibatchIterator {
            interactions: self,
            idx: 0,
            stop_idx: self.len(),
            minibatch_size,
        }
    }

    /// Return a collection of iterators over a partitions of the data:
    /// partition `p` covers `p * chunk .. (p + 1) * chunk`, where `chunk` is
    /// the length divided by `num_partitions`.
    pub fn iter_minibatch_partitioned(&self, minibatch_size: usize, num_partitions: usize) -> (r: Vec<
        TripletMinibatchIterator,
    >)
        requires
            num_partitions > 0,
        ensures
            r@.len() == num_partitions,
            forall|p: int|
                0 <= p < num_partitions ==> {
                    &&& (#[trigger] r@[p]).source() == self
                    &&& r@[p].position() == partition_start(self.users().len(), num_partitions as nat, p as nat)
                    &&& r@[p].stop() == partition_start(self.users().len(), num_partitions as nat, (p + 1) as nat)
                    &&& r@[p].batch_size() == minibatch_size
                    &&& r@[p].remaining_batches() == batch_count(
                        self.users().len() / num_partitions as nat,
                        minibatch_size as nat,
                    )
                },
    {
        let iterator = self.iter_minibatch(minibatch_size);
        let total = self.len();
        let chunk_size = total / num_partitions;
        let mut r: Vec<TripletMinibatchIterator> = Vec::new();
        let mut x: usize = 0;
        while x < num_partitions
            invariant
                x <= num_partitions,
                total == self.users().len(),
                chunk_size == total / num_partitions,
                iterator.source() == self,
                iterator.batch_size() == minibatch_size,
                iterator.stop() == total,
                r@.len() == x,
                forall|p: int|
                    0 <= p < x ==> {
                        &&& (#[trigger] r@[p]).source() == self
                        &&& r@[p].position() == partition_start(total as nat, num_partitions as nat, p as nat)
                        &&& r@[p].stop() == partition_start(total as nat, num_partitions as nat, (p + 1) as nat)
                        &&& r@[p].batch_size() == minibatch_size
                        &&& r@[p].remaining_batches() == batch_count(
                            chunk_size as nat,
                            minibatch_size as nat,
                        )
                    },
            decreases num_partitions - x,
        {
            assert((x + 1) * chunk_size <= total) by (nonlinear_arith)
                requires
                    x < num_partitions,
                    chunk_size == total / num_partitions,
                    num_partitions > 0,
            {
                assert(num_partitions * (total / num_partitions) <= total);
                assert((x + 1) * chunk_size <= num_partitions * chunk_size);
            }
            assert(x * chunk_size <= (x + 1) * chunk_size && (x + 1) * chunk_size - x * chunk_size
                == chunk_size) by (nonlinear_arith);
            r.push(iterator.slice(x * chunk_size, (x + 1) * chunk_size));
            x = x + 1;
        }
        r
    }

    /// Return number of users in the dataset.
    pub fn num_users(&self) -> (r: usize)
        ensures
            r == self.user_bound(),
    {
        self.num_users
    }

    /// Return number of items in the dataset.
    pub fn num_items(&self) -> (r: usize)
        ensures
            r == self.item_bound(),
    {
        self.num_items
    }

    /// Return (num_users, num_items).
    pub fn shape(&self) -> (r: (usize, usize))
        ensures
            r == (self.user_bound() as usize, self.item_bound() as usize),
    {
        (self.num_users, self.num_items)
    }
}

/// Iterator over minibatches of triplet interactions.
#[derive(Clone, Debug)]
pub struct TripletMinibatchIterator<'a> {
    interactions: &'a TripletInteractions,
    idx: usize,
    stop_idx: usize,
    minibatch_size: usize,
}

impl<'a> TripletMinibatchIterator<'a> {
    /// The data that the iterator reads from.
    pub closed spec fn source(&self) -> &'a TripletInteractions {
        self.interactions
    }

    /// Where the next minibatch begins.
    pub closed spec fn position(&self) -> nat {
        self.idx as nat
    }

    /// The end of the range that the iterator covers.
    pub closed spec fn stop(&self) -> nat {
        self.stop_idx as nat
    }

    /// The minibatch size.
    pub closed spec fn batch_size(&self) -> nat {
        self.minibatch_size as nat
    }

    /// The number of minibatches still to come.
    pub open spec fn remaining_batches(&self) -> nat {
        if self.position() <= self.stop() {
            batch_count((self.stop() - self.position()) as nat, self.batch_size())
        } else {
            0
        }
    }

    /// Slice the iterator, yielding an iterator over a subslice of the data.
    pub fn slice(&self, start: usize, stop: usize) -> (r: TripletMinibatchIterator<'a>)
        ensures
            r.source() == self.source(),
            r.position() == start,
            r.stop() == stop,
            r.batch_size() == self.batch_size(),
    {
        TripletMinibatchIterator {
            interactions: self.interactions,
            idx: start,
            stop_idx: stop,
            minibatch_size: self.minibatch_size,
        }
    }

    /// Produce the next minibatch of exactly `batch_size()` interactions, or
    /// `None` when fewer remain before `stop()`; a shorter remainder is never
    /// produced.
    pub fn next(&mut self) -> (r: Option<TripletMinibatch<'a>>)
        requires
            old(self).source().wf(),
            old(self).stop() <= old(self).source().users().len(),
        ensures
            final(self).source() == old(self).source(),
            final(self).stop() == old(self).stop(),
            final(self).batch_size() == old(self).batch_size(),
            old(self).batch_size() > 0 ==> (r is None <==> old(self).remaining_batches() == 0),
            old(self).batch_size() > 0 && r is Some ==> final(self).remaining_batches() == old(
                self,
            ).remaining_batches() - 1,
            old(self).position() + old(self).batch_size() > old(self).stop() ==> (r is None
                && final(self).position() == old(self).position()),
            old(self).position() + old(self).batch_size() <= old(self).stop() ==> {
                let start = old(self).position() as int;
                let stop = start + old(self).batch_size();
                &&& r is Some
                &&& r->Some_0.user_ids@ == old(self).source().users().subrange(start, stop)
                &&& r->Some_0.item_ids@ == old(self).source().items().subrange(start, stop)
                &&& r->Some_0.timestamps@ == old(self).source().times().subrange(start, stop)
                &&& final(self).position() == stop
            },
    {
        if self.idx > self.stop_idx || self.stop_idx - self.idx < self.minibatch_size {
            None
        } else {
            let start = self.idx;
            let stop = self.idx + self.minibatch_size;
            self.idx = stop;
            Some(
                TripletMinibatch {
                    user_ids: &self.interactions.user_ids.as_slice()[start..stop],
                    item_ids: &self.interactions.item_ids.as_slice()[start..stop],
                    timestamps: &self.interactions.timestamps.as_slice()[start..stop],
                },
            )
        }
    }
}

/// A minibatch of triplet interactions.
#[derive(Debug, Clone)]
pub struct TripletMinibatch<'a> {
    /// User ids in the batch.
    pub user_ids: &'a [UserId],
    /// Item ids in the batch.
    pub item_ids: &'a [ItemId],
    /// Timestamps in the batch.
    pub timestamps: &'a [Timestamp],
}

impl<'a> TripletMinibatch<'a> {
    /// Return length of the minibatch.
    pub fn len(&self) -> (r: usize)
        ensures
            r == self.user_ids@.len(),
    {
        self.user_ids.len()
    }

    /// Check if there are no interactions.
    pub fn is_empty(&self) -> (r: bool)
        ensures
            r == (self.item_ids@.len() == 0),
    {
        self.item_ids.is_empty()
    }
}

/// The modulus applied to a user's hash before it is compared with the cutoff.
pub const HASH_DENOMINATOR: u64 = 100_000;

/// What SipHash-2-4 keyed with `key_0`, `key_1` returns for one `u64` written to it.
pub uninterp spec fn sip_hash_u64(key_0: u64, key_1: u64, value: u64) -> u64;

/// Relies on siphasher's `SipHasher::new_with_keys`, `write_u64` and `finish`:
/// the hash depends on the two keys and the written value alone.
#[verifier::external_body]
fn hash_user(key_0: u64, key_1: u64, user_id: u64) -> (r: u64)
    ensures
        r == sip_hash_u64(key_0, key_1, user_id),
{
    let mut hasher = SipHasher::new_with_keys(key_0, key_1);
    hasher.write_u64(user_id);
    hasher.finish()
}

/// A hashed user goes to the training side when its hash modulo
/// `HASH_DENOMINATOR` exceeds the cutoff.
pub open spec fn routes_to_train(hash: u64, train_cutoff: u64) -> bool {
    hash % HASH_DENOMINATOR > train_cutoff
}

/// The side, `true` for training, of `user` under the keys and cutoff.
pub open spec fn user_goes_to_train(key_0: u64, key_1: u64, train_cutoff: u64, user: UserId) -> bool {
    routes_to_train(sip_hash_u64(key_0, key_1, user as u64), train_cutoff)
}

/// For each interaction of `s`, whether the user-stable split sends it to training.
pub open spec fn train_flags(s: Seq<Interaction>, key_0: u64, key_1: u64, train_cutoff: u64) -> Seq<
    bool,
> {
    Seq::new(s.len(), |i: int| user_goes_to_train(key_0, key_1, train_cutoff, s[i].user()))
}

/// Decide the side of a user from its hash: `true` for training.
pub fn hash_routes_to_train(hash: u64, train_cutoff: u64) -> (r: bool)
    ensures
        r == routes_to_train(hash, train_cutoff),
{
    hash % HASH_DENOMINATOR > train_cutoff
}

/// Randomly split interactions between test and training sets: shuffle the
/// store in place with `draws`, then the first `test_len` interactions form
/// the test set and the rest the training set. Returns (train, test).
pub fn train_test_split(interactions: &mut Interactions, draws: &[usize], test_len: usize) -> (r: (
    Interactions,
    Interactions,
))
    requires
        valid_draws(draws@, old(interactions)@.len()),
        test_len <= old(interactions)@.len(),
    ensures
        final(interactions)@ == shuffled_from(old(interactions)@, draws@, 0),
        final(interactions).user_bound() == old(interactions).user_bound(),
        final(interactions).item_bound() == old(interactions).item_bound(),
        r.0@ == final(interactions)@.skip(test_len as int),
        r.1@ == final(interactions)@.take(test_len as int),
        r.0.user_bound() == old(interactions).user_bound() && r.1.user_bound() == old(
            interactions,
        ).user_bound(),
        r.0.item_bound() == old(interactions).item_bound() && r.1.item_bound() == old(
            interactions,
        ).item_bound(),
{
    interactions.shuffle(draws);
    let (test, train) = interactions.split_at(test_len);
    (train, test)
}

/// Split interactions between training and test sets so that no user is in
/// both sets: a user goes to training when the SipHash of its id under
/// `key_0`, `key_1`, modulo `HASH_DENOMINATOR`, exceeds `train_cutoff`.
/// Returns (train, test), each in the store's order.
pub fn user_based_split(interactions: &Interactions, key_0: u64, key_1: u64, train_cutoff: u64) -> (r:
    (Interactions, Interactions))
    ensures
        r.0@ == select(interactions@, train_flags(interactions@, key_0, key_1, train_cutoff), true),
        r.1@ == select(interactions@, train_flags(interactions@, key_0, key_1, train_cutoff), false),
        r.0.user_bound() == interactions.user_bound() && r.1.user_bound()
            == interactions.user_bound(),
        r.0.item_bound() == interactions.item_bound() && r.1.item_bound()
            == interactions.item_bound(),
{
    let is_train = |x: &Interaction| -> (b: bool)
        ensures
            b == user_goes_to_train(key_0, key_1, train_cutoff, x.user()),
        {
            let hash = hash_user(key_0, key_1, x.user_id() as u64);
            hash_routes_to_train(hash, train_cutoff)
        };
    let r = interactions.split_by(is_train);
    proof {
        let flags = train_flags(interactions@, key_0, key_1, train_cutoff);
        let keep = choose|keep: Seq<bool>|
            {
                &&& keep.len() == interactions@.len()
                &&& forall|i: int|
                    0 <= i < interactions@.len() ==> #[trigger] is_train.ensures(
                        (&interactions@[i],),
                        keep[i],
                    )
                &&& r.0@ == select(interactions@, keep, true)
                &&& r.1@ == select(interactions@, keep, false)
            };
        assert(keep =~= flags) by {
            assert forall|i: int| 0 <= i < keep.len() implies keep[i] == flags[i] by {
                assert(is_train.ensures((&interactions@[i],), keep[i]));
            }
        }
    }
    r
}

/// The lengths of the chunks produced, one after another, from a history
/// of which `rest` interactions remain, with chunk size `size`.
pub open spec fn chunk_lengths(rest: nat, size: nat) -> Seq<nat>
    decreases rest,
{
    if size == 0 || rest == 0 {
        Seq::empty()
    } else {
        let c = chunk_len(rest, size);
        if 0 < c <= rest {
            seq![c] + chunk_lengths((rest - c) as nat, size)
        } else {
            Seq::empty()
        }
    }
}

/// The number of minibatches produced, one after another, when `rest`
/// elements remain before the stop, with minibatch size `size`.
pub open spec fn batch_count(rest: nat, size: nat) -> nat
    decreases rest,
{
    if size == 0 || rest < size {
        0
    } else {
        1 + batch_count((rest - size) as nat, size)
    }
}

/// Round trip: the per-user histories that `to_compressed` stores, and that
/// `to_interactions` lists user after user, hold exactly the multiset of
/// the store's interactions.
pub proof fn lemma_round_trip(s: &Interactions)
    requires
        s.users_in_bounds(),
    ensures
        histories_upto(s@, s.user_bound()).to_multiset() == s@.to_multiset(),
        histories_upto(s@, s.user_bound()).len() == s@.len(),
{
    broadcast use vstd::seq_lib::group_to_multiset_ensures;

    lemma_histories_multiset(s@, s.user_bound());
    assert(histories_upto(s@, s.user_bound()).to_multiset().len() == s@.to_multiset().len());
}

/// In a well-formed compressed index the timestamps of every user never decrease.
pub proof fn lemma_user_times_sorted(c: &CompressedInteractions, u: nat)
    requires
        c.wf(),
        u < c.user_bound(),
    ensures
        non_decreasing(c.user_times(u)),
{
}

/// Partition completeness of `split_by`: the two parts together hold each
/// element of the store exactly as often as the store does.
pub proof fn lemma_select_partition<T>(s: Seq<T>, keep: Seq<bool>)
    requires
        keep.len() == s.len(),
    ensures
        select(s, keep, true).len() + select(s, keep, false).len() == s.len(),
        select(s, keep, true).to_multiset().add(select(s, keep, false).to_multiset())
            == s.to_multiset(),
    decreases s.len(),
{
    broadcast use vstd::seq_lib::group_to_multiset_ensures;
    broadcast use vstd::multiset::group_multiset_axioms;

    if s.len() > 0 {
        lemma_select_partition(s.drop_last(), keep.drop_last());
        assert(s.drop_last().push(s.last()) == s);
        assert(select(s, keep, true).to_multiset().add(select(s, keep, false).to_multiset())
            =~= s.to_multiset());
    }
}

/// Partition completeness of `split_at`: head and tail together are the store.
pub proof fn lemma_split_at_partition<T>(s: Seq<T>, idx: int)
    requires
        0 <= idx <= s.len(),
    ensures
        s.take(idx).len() + s.skip(idx).len() == s.len(),
        s.take(idx) + s.skip(idx) == s,
        s.take(idx).to_multiset().add(s.skip(idx).to_multiset()) == s.to_multiset(),
{
    assert(s.take(idx) + s.skip(idx) == s);
    vstd::seq_lib::lemma_multiset_commutative(s.take(idx), s.skip(idx));
}

/// Each element selected for `side` is an element of `s` flagged `side`.
proof fn lemma_select_from<T>(s: Seq<T>, keep: Seq<bool>, side: bool, i: int)
    requires
        keep.len() == s.len(),
        0 <= i < select(s, keep, side).len(),
    ensures
        exists|k: int| 0 <= k < s.len() && keep[k] == side && s[k] == select(s, keep, side)[i],
    decreases s.len(),
{
    let rest = select(s.drop_last(), keep.drop_last(), side);
    if i < rest.len() {
        lemma_select_from(s.drop_last(), keep.drop_last(), side, i);
        let k = choose|k: int|
            0 <= k < s.drop_last().len() && keep.drop_last()[k] == side && s.drop_last()[k]
                == rest[i];
        assert(keep[k] == side && s[k] == select(s, keep, side)[i]);
    } else {
        assert(keep[s.len() - 1] == side && s[s.len() - 1] == select(s, keep, side)[i]);
    }
}

/// User stability of `user_based_split`: no user has interactions on both sides.
pub proof fn lemma_user_stable(s: Seq<Interaction>, key_0: u64, key_1: u64, train_cutoff: u64)
    ensures
        forall|i: int, j: int|
            0 <= i < select(s, train_flags(s, key_0, key_1, train_cutoff), true).len() && 0 <= j
                < select(s, train_flags(s, key_0, key_1, train_cutoff), false).len() ==> (#[trigger] select(
                s,
                train_flags(s, key_0, key_1, train_cutoff),
                true,
            )[i]).user() != (#[trigger] select(s, train_flags(s, key_0, key_1, train_cutoff), false)[j]).user(),
{
    let flags = train_flags(s, key_0, key_1, train_cutoff);
    assert forall|i: int, j: int|
        0 <= i < select(s, flags, true).len() && 0 <= j < select(s, flags, false).len() implies (
    #[trigger] select(s, flags, true)[i]).user() != (#[trigger] select(s, flags, false)[j]).user() by {
        lemma_select_from(s, flags, true, i);
        lemma_select_from(s, flags, false, j);
    }
}

/// Chunk boundary law: a history of length `len` cut into chunks of size
/// `size` gives `ceil(len / size)` chunks; the first has length
/// `len % size` when that is not zero, else `size`; all later ones `size`.
/// These are the lengths that successive `next` calls on a fresh `chunks`
/// iterator return: its `remaining_chunks`, of which each call consumes the first.
pub proof fn lemma_chunk_lengths(len: nat, size: nat)
    requires
        size > 0,
    ensures
        chunk_lengths(len, size).len() as int == (len + size - 1) / size as int,
        len > 0 ==> chunk_lengths(len, size)[0] == (if len % size != 0 {
            len % size
        } else {
            size
        }),
        forall|i: int| 1 <= i < chunk_lengths(len, size).len() ==> #[trigger] chunk_lengths(len, size)[i] == size,
{
    let q = len / size;
    let r = len % size;
    vstd::arithmetic::div_mod::lemma_fundamental_div_mod(len as int, size as int);
    assert(len == q * size + r) by (nonlinear_arith)
        requires
            len == size * q + r,
    ;
    if len > 0 {
        if r != 0 {
            let m = (len - r) as nat;
            vstd::arithmetic::div_mod::lemma_fundamental_div_mod_converse(m as int, size as int, q as int, 0);
            lemma_whole_chunks(m, size);
            assert(len + size - 1 == (q + 1) * size + (r - 1)) by (nonlinear_arith)
                requires
                    len == q * size + r,
            ;
            vstd::arithmetic::div_mod::lemma_fundamental_div_mod_converse(
                (len + size - 1) as int,
                size as int,
                (q + 1) as int,
                (r - 1) as int,
            );
            let t = chunk_lengths(m, size);
            assert(chunk_lengths(len, size) == seq![r] + t);
        } else {
            lemma_whole_chunks(len, size);
            vstd::arithmetic::div_mod::lemma_fundamental_div_mod_converse(
                (len + size - 1) as int,
                size as int,
                q as int,
                (size - 1) as int,
            );
        }
    } else {
        vstd::arithmetic::div_mod::lemma_fundamental_div_mod_converse((size - 1) as int, size as int, 0, (size - 1) as int);
    }
}

/// A history whose length is a multiple of `size` is cut into `len / size`
/// chunks of length `size`.
proof fn lemma_whole_chunks(len: nat, size: nat)
    requires
        size > 0,
        len % size == 0,
    ensures
        chunk_lengths(len, size).len() == len / size,
        forall|i: int| 0 <= i < chunk_lengths(len, size).len() ==> #[trigger] chunk_lengths(len, size)[i] == size,
    decreases len,
{
    let q = len / size;
    vstd::arithmetic::div_mod::lemma_fundamental_div_mod(len as int, size as int);
    if len > 0 {
        assert(q >= 1 && len - size == (q - 1) * size) by (nonlinear_arith)
            requires
                len == size * q,
                len > 0,
                size > 0,
        ;
        vstd::arithmetic::div_mod::lemma_fundamental_div_mod_converse((len - size) as int, size as int, (q - 1) as int, 0);
        lemma_whole_chunks((len - size) as nat, size);
        let t = chunk_lengths((len - size) as nat, size);
        assert(chunk_lengths(len, size) == seq![size] + t);
    } else {
        vstd::arithmetic::div_mod::lemma_fundamental_div_mod_converse(0, size as int, 0, 0);
    }
}

/// Minibatch truncation law: `len` elements in minibatches of size `size`
/// give `len / size` minibatches; the `len % size` elements left over are
/// fewer than `size` and never produced. A fresh `iter_minibatch`
/// iterator's `remaining_batches` is `batch_count(len, size)`, and each
/// `next` that returns a minibatch lowers it by one.
pub proof fn lemma_batch_count(len: nat, size: nat)
    requires
        size > 0,
    ensures
        batch_count(len, size) == len / size,
        len - batch_count(len, size) * size == len % size,
        len % size < size,
    decreases len,
{
    let q = len / size;
    let r = len % size;
    vstd::arithmetic::div_mod::lemma_fundamental_div_mod(len as int, size as int);
    if len >= size {
        assert(q >= 1 && len - size == (q - 1) * size + r) by (nonlinear_arith)
            requires
                len == size * q + r,
                len >= size,
                r < size,
        ;
        vstd::arithmetic::div_mod::lemma_fundamental_div_mod_converse((len - size) as int, size as int, (q - 1) as int, r as int);
        lemma_batch_count((len - size) as nat, size);
        assert(len - q * size == r) by (nonlinear_arith)
            requires
                len == size * q + r,
        ;
    } else {
        vstd::arithmetic::div_mod::lemma_fundamental_div_mod_converse(len as int, size as int, 0, len as int);
    }
}

/// Partition disjointness: the ranges of the `num_partitions` iterators over
/// `total` elements each span `total / num_partitions` elements, never
/// overlap, and together cover `num_partitions * (total / num_partitions)`,
/// at most `total`, elements.
pub proof fn lemma_partitions_disjoint(total: nat, num_partitions: nat)
    requires
        num_partitions > 0,
    ensures
        forall|p: nat|
            p < num_partitions ==> #[trigger] partition_start(total, num_partitions, p + 1)
                - partition_start(total, num_partitions, p) == total / num_partitions,
        forall|p: nat, q: nat|
            p < q < num_partitions ==> partition_start(total, num_partitions, p + 1)
                <= #[trigger] partition_start(total, num_partitions, q)
                && #[trigger] partition_start(total, num_partitions, p) <= partition_start(total, num_partitions, q),
        partition_start(total, num_partitions, num_partitions) == num_partitions * (total / num_partitions),
        num_partitions * (total / num_partitions) <= total,
{
    let c = total / num_partitions;
    assert forall|p: nat| p < num_partitions implies #[trigger] partition_start(total, num_partitions, p + 1)
        - partition_start(total, num_partitions, p) == c by {
        assert((p + 1) * c == p * c + c) by (nonlinear_arith);
    }
    assert forall|p: nat, q: nat| p < q < num_partitions implies partition_start(total, num_partitions, p + 1)
        <= #[trigger] partition_start(total, num_partitions, q)
        && #[trigger] partition_start(total, num_partitions, p) <= partition_start(total, num_partitions, q) by {
        assert((p + 1) * c <= q * c) by (nonlinear_arith)
            requires
                p + 1 <= q,
        ;
        assert(p * c <= (p + 1) * c) by (nonlinear_arith);
    }
    vstd::arithmetic::div_mod::lemma_fundamental_div_mod(total as int, num_partitions as int);
}

} // verus!
