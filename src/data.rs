//! The rating store: known users, known items, and the ratings between them,
//! indexed both by user and by item.
use crate::sparse::{entries_of, lemma_entries_of, Rating, SparseVector};
use vstd::prelude::*;

verus! {

/// Identifiers strictly increasing along the sequence.
pub open spec fn ids_sorted(s: Seq<u32>) -> bool {
    forall|i: int, j: int| 0 <= i < j < s.len() ==> s[i] < s[j]
}

/// The ratings given by user `u`, by item.
pub open spec fn row_of(ratings: Map<(u32, u32), Rating>, u: u32) -> Map<u32, Rating> {
    Map::new(|i: u32| ratings.contains_key((u, i)), |i: u32| ratings[(u, i)])
}

/// The ratings given to item `i`, by user.
pub open spec fn column_of(ratings: Map<(u32, u32), Rating>, i: u32) -> Map<u32, Rating> {
    Map::new(|u: u32| ratings.contains_key((u, i)), |u: u32| ratings[(u, i)])
}

/// `after` is `before` with `x` inserted at some position.
pub open spec fn inserted(before: Seq<u32>, after: Seq<u32>, x: u32) -> bool {
    exists|p: int| 0 <= p <= before.len() && after == before.insert(p, x)
}

/// A sorted list of `u32` identifiers has at most 2^32 entries.
pub proof fn lemma_ids_len(s: Seq<u32>)
    requires
        ids_sorted(s),
    ensures
        s.len() <= crate::sparse::INDEX_SPACE,
{
    if s.len() > 0 {
        lemma_id_at_least_index(s, s.len() - 1);
    }
}

proof fn lemma_id_at_least_index(s: Seq<u32>, i: int)
    requires
        ids_sorted(s),
        0 <= i < s.len(),
    ensures
        s[i] >= i,
    decreases i,
{
    if i > 0 {
        lemma_id_at_least_index(s, i - 1);
    }
}

/// First position of the sorted `ids` whose identifier is not below `x`.
pub fn id_position(ids: &Vec<u32>, x: u32) -> (r: usize)
    requires
        ids_sorted(ids@),
    ensures
        r <= ids@.len(),
        forall|i: int| 0 <= i < r ==> ids@[i] < x,
        forall|i: int| r <= i < ids@.len() ==> ids@[i] >= x,
        ids@.contains(x) <==> (r < ids@.len() && ids@[r as int] == x),
{
    let mut lo: usize = 0;
    let mut hi: usize = ids.len();
    while lo < hi
        invariant
            lo <= hi <= ids@.len(),
            ids_sorted(ids@),
            forall|i: int| 0 <= i < lo ==> ids@[i] < x,
            forall|i: int| hi <= i < ids@.len() ==> ids@[i] >= x,
        decreases hi - lo,
    {
        let mid = lo + (hi - lo) / 2;
        if ids[mid] < x {
            lo = mid + 1;
        } else {
            hi = mid;
        }
    }
    proof {
        if ids@.contains(x) {
            let j = choose|j: int| 0 <= j < ids@.len() && ids@[j] == x;
            if lo < ids@.len() && j > lo {
                assert(ids@[lo as int] < ids@[j]);
            }
        }
    }
    lo
}

/// Position of `x` in the sorted `ids`, if it is there.
pub fn id_index(ids: &Vec<u32>, x: u32) -> (r: Option<usize>)
    requires
        ids_sorted(ids@),
    ensures
        match r {
            Some(p) => p < ids@.len() && ids@[p as int] == x,
            None => !ids@.contains(x),
        },
{
    let p = id_position(ids, x);
    if p < ids.len() && ids[p] == x {
        Some(p)
    } else {
        None
    }
}

/// A basic data handler: the known users and items, each with its sparse
/// vector of ratings, kept in order of identifier.
pub struct BasicDataHandler {
    user_ids: Vec<u32>,
    user_ratings: Vec<SparseVector>,
    item_ids: Vec<u32>,
    item_ratings: Vec<SparseVector>,
    ratings: Ghost<Map<(u32, u32), Rating>>,
}

impl BasicDataHandler {
    /// All ratings, by (user, item).
    pub closed spec fn ratings(&self) -> Map<(u32, u32), Rating> {
        self.ratings@
    }

    /// The known users, in increasing order.
    pub closed spec fn users(&self) -> Seq<u32> {
        self.user_ids@
    }

    /// The known items, in increasing order.
    pub closed spec fn items(&self) -> Seq<u32> {
        self.item_ids@
    }

    pub open spec fn has_user(&self, u: u32) -> bool {
        self.users().contains(u)
    }

    pub open spec fn has_item(&self, i: u32) -> bool {
        self.items().contains(i)
    }

    /// The rating of `u` for `i`, if there is one.
    pub open spec fn rating_of(&self, u: u32, i: u32) -> Option<Rating> {
        if self.ratings().contains_key((u, i)) {
            Some(self.ratings()[(u, i)])
        } else {
            None
        }
    }

    /// The ratings given by `u`, by item.
    pub open spec fn user_row(&self, u: u32) -> Map<u32, Rating> {
        row_of(self.ratings(), u)
    }

    /// The ratings given to `i`, by user.
    pub open spec fn item_column(&self, i: u32) -> Map<u32, Rating> {
        column_of(self.ratings(), i)
    }

    /// The rating vector of a user, as entries sorted by item.
    pub open spec fn user_vec(&self, u: u32) -> Seq<(u32, Rating)> {
        entries_of(self.user_row(u))
    }

    /// The rating vector of an item, as entries sorted by user.
    pub open spec fn item_vec(&self, i: u32) -> Seq<(u32, Rating)> {
        entries_of(self.item_column(i))
    }

    pub closed spec fn wf(&self) -> bool {
        &&& ids_sorted(self.user_ids@)
        &&& ids_sorted(self.item_ids@)
        &&& self.user_ids@.len() == self.user_ratings@.len()
        &&& self.item_ids@.len() == self.item_ratings@.len()
        &&& forall|k: int|
            0 <= k < self.user_ids@.len() ==> #[trigger] self.user_ratings@[k].wf()
                && self.user_ratings@[k]@ == row_of(self.ratings@, self.user_ids@[k])
        &&& forall|k: int|
            0 <= k < self.item_ids@.len() ==> #[trigger] self.item_ratings@[k].wf()
                && self.item_ratings@[k]@ == column_of(self.ratings@, self.item_ids@[k])
        &&& forall|p: (u32, u32)|
            #[trigger] self.ratings@.contains_key(p) ==> self.user_ids@.contains(p.0)
                && self.item_ids@.contains(p.1)
    }

    /// What a well-formed store guarantees of its ratings.
    pub proof fn lemma_wf(&self)
        requires
            self.wf(),
        ensures
            ids_sorted(self.users()),
            ids_sorted(self.items()),
            self.users().len() <= crate::sparse::INDEX_SPACE,
            self.items().len() <= crate::sparse::INDEX_SPACE,
            forall|p: (u32, u32)|
                #[trigger] self.ratings().contains_key(p) ==> self.has_user(p.0) && self.has_item(
                    p.1,
                ),
    {
        lemma_ids_len(self.user_ids@);
        lemma_ids_len(self.item_ids@);
    }

    /// The vector stored at position `k` of the users.
    pub fn user_vector_at(&self, k: usize) -> (r: &SparseVector)
        requires
            self.wf(),
            k < self.users().len(),
        ensures
            r.wf(),
            r.seq() == self.user_vec(self.users()[k as int]),
            r@ == self.user_row(self.users()[k as int]),
    {
        let r = &self.user_ratings[k];
        proof {
            assert(self.user_ratings@[k as int].wf());
            r.lemma_view();
            lemma_entries_of(r.seq());
        }
        r
    }

    /// The vector stored at position `k` of the items.
    pub fn item_vector_at(&self, k: usize) -> (r: &SparseVector)
        requires
            self.wf(),
            k < self.items().len(),
        ensures
            r.wf(),
            r.seq() == self.item_vec(self.items()[k as int]),
            r@ == self.item_column(self.items()[k as int]),
    {
        let r = &self.item_ratings[k];
        proof {
            assert(self.item_ratings@[k as int].wf());
            r.lemma_view();
            lemma_entries_of(r.seq());
        }
        r
    }

    /// Creates an empty data handler.
    pub fn new() -> (r: BasicDataHandler)
        ensures
            r.wf(),
            r.users().len() == 0,
            r.items().len() == 0,
            r.ratings() == Map::<(u32, u32), Rating>::empty(),
    {
        BasicDataHandler {
            user_ids: Vec::new(),
            user_ratings: Vec::new(),
            item_ids: Vec::new(),
            item_ratings: Vec::new(),
            ratings: Ghost(Map::empty()),
        }
    }

    /// Returns all user IDs, in increasing order.
    pub fn get_user_ids(&self) -> (r: Vec<u32>)
        requires
            self.wf(),
        ensures
            r@ == self.users(),
    {
        self.user_ids.clone()
    }

    /// Returns all item IDs, in increasing order.
    pub fn get_item_ids(&self) -> (r: Vec<u32>)
        requires
            self.wf(),
        ensures
            r@ == self.items(),
    {
        self.item_ids.clone()
    }

    /// Returns the number of users.
    pub fn get_num_users(&self) -> (r: usize)
        ensures
            r == self.users().len(),
    {
        self.user_ids.len()
    }

    /// Returns the number of items.
    pub fn get_num_items(&self) -> (r: usize)
        ensures
            r == self.items().len(),
    {
        self.item_ids.len()
    }

    /// Returns the rating given by a user to an item, or `None` when there
    /// is none.
    pub fn get_rating(&self, user_id: u32, item_id: u32) -> (r: Option<Rating>)
        requires
            self.wf(),
        ensures
            r == self.rating_of(user_id, item_id),
    {
        match id_index(&self.user_ids, user_id) {
            Some(k) => {
                let row = &self.user_ratings[k];
                proof {
                    assert(self.user_ratings@[k as int].wf());
                    assert(row@ == row_of(self.ratings@, user_id));
                }
                row.get(item_id)
            },
            None => {
                assert(!self.ratings@.contains_key((user_id, item_id)));
                None
            },
        }
    }

    /// The user at position `k`.
    pub fn user_at(&self, k: usize) -> (r: u32)
        requires
            k < self.users().len(),
        ensures
            r == self.users()[k as int],
    {
        self.user_ids[k]
    }

    /// The item at position `k`.
    pub fn item_at(&self, k: usize) -> (r: u32)
        requires
            k < self.items().len(),
        ensures
            r == self.items()[k as int],
    {
        self.item_ids[k]
    }

    /// Returns the rating for each item rated by a user; empty for an unknown
    /// user.
    pub fn get_user_ratings(&self, user_id: u32) -> (r: SparseVector)
        requires
            self.wf(),
        ensures
            r.wf(),
            r@ == self.user_row(user_id),
    {
        match self.user_vector(user_id) {
            Some(v) => v.duplicate(),
            None => {
                assert(self.user_row(user_id) =~= Map::<u32, Rating>::empty());
                SparseVector::new()
            },
        }
    }

    /// Returns the rating for each user who rated an item; empty for an
    /// unknown item.
    pub fn get_item_ratings(&self, item_id: u32) -> (r: SparseVector)
        requires
            self.wf(),
        ensures
            r.wf(),
            r@ == self.item_column(item_id),
    {
        match self.item_vector(item_id) {
            Some(v) => v.duplicate(),
            None => {
                assert(self.item_column(item_id) =~= Map::<u32, Rating>::empty());
                SparseVector::new()
            },
        }
    }

    /// Position of a user among the users, when the user is known.
    pub fn user_position(&self, user_id: u32) -> (r: Option<usize>)
        requires
            self.wf(),
        ensures
            match r {
                Some(k) => k < self.users().len() && self.users()[k as int] == user_id,
                None => !self.has_user(user_id),
            },
    {
        id_index(&self.user_ids, user_id)
    }

    /// Position of an item among the items, when the item is known.
    pub fn item_position(&self, item_id: u32) -> (r: Option<usize>)
        requires
            self.wf(),
        ensures
            match r {
                Some(k) => k < self.items().len() && self.items()[k as int] == item_id,
                None => !self.has_item(item_id),
            },
    {
        id_index(&self.item_ids, item_id)
    }

    /// The rating vector of a user, when the user is known.
    pub fn user_vector(&self, user_id: u32) -> (r: Option<&SparseVector>)
        requires
            self.wf(),
        ensures
            match r {
                Some(v) => self.has_user(user_id) && v.wf() && v.seq() == self.user_vec(user_id)
                    && v@ == self.user_row(user_id),
                None => !self.has_user(user_id),
            },
    {
        match id_index(&self.user_ids, user_id) {
            Some(k) => Some(self.user_vector_at(k)),
            None => None,
        }
    }

    /// The rating vector of an item, when the item is known.
    pub fn item_vector(&self, item_id: u32) -> (r: Option<&SparseVector>)
        requires
            self.wf(),
        ensures
            match r {
                Some(v) => self.has_item(item_id) && v.wf() && v.seq() == self.item_vec(item_id)
                    && v@ == self.item_column(item_id),
                None => !self.has_item(item_id),
            },
    {
        match id_index(&self.item_ids, item_id) {
            Some(k) => Some(self.item_vector_at(k)),
            None => None,
        }
    }

    /// Adds a new user; returns `true` if the user was not known before.
    pub fn add_user(&mut self, user_id: u32) -> (r: bool)
        requires
            old(self).wf(),
        ensures
            final(self).wf(),
            r == !old(self).has_user(user_id),
            !r ==> *final(self) == *old(self),
            forall|u: u32| #[trigger]
                final(self).has_user(u) == (old(self).has_user(u) || u == user_id),
            r ==> exists|p: int|
                0 <= p <= old(self).users().len() && final(self).users() == old(self).users().insert(
                    p,
                    user_id,
                ),
            final(self).items() == old(self).items(),
            final(self).ratings() == old(self).ratings(),
    {
        self.insert_user(user_id).is_some()
    }

    /// Adds a new user and returns its position among the users, or `None`
    /// when the user was already known.
    #[verifier::spinoff_prover]
    pub fn insert_user(&mut self, user_id: u32) -> (r: Option<usize>)
        requires
            old(self).wf(),
        ensures
            final(self).wf(),
            r is Some == !old(self).has_user(user_id),
            r is None ==> *final(self) == *old(self),
            forall|u: u32| #[trigger]
                final(self).has_user(u) == (old(self).has_user(u) || u == user_id),
            final(self).items() == old(self).items(),
            final(self).ratings() == old(self).ratings(),
            match r {
                Some(p) => p <= old(self).users().len() && final(self).users() == old(
                    self,
                ).users().insert(p as int, user_id),
                None => final(self).users() == old(self).users(),
            },
    {
        let p = id_position(&self.user_ids, user_id);
        if p < self.user_ids.len() && self.user_ids[p] == user_id {
            return None;
        }
        let ghost ids0 = self.user_ids@;
        let ghost rows0 = self.user_ratings@;
        self.user_ids.insert(p, user_id);
        self.user_ratings.insert(p, SparseVector::new());
        proof {
            let ids1 = self.user_ids@;
            let rows1 = self.user_ratings@;
            assert(ids_sorted(ids1));
            assert(row_of(self.ratings@, user_id) =~= Map::<u32, Rating>::empty());
            assert forall|k: int| 0 <= k < ids1.len() implies #[trigger] rows1[k].wf() && rows1[k]@
                == row_of(self.ratings@, ids1[k]) by {
                if k < p {
                    assert(rows0[k].wf());
                } else if k > p {
                    assert(rows0[k - 1].wf());
                }
            }
            assert forall|u: u32| #[trigger] ids1.contains(u) == (ids0.contains(u) || u == user_id) by {
                if ids0.contains(u) {
                    let j = choose|j: int| 0 <= j < ids0.len() && ids0[j] == u;
                    if j < p {
                        assert(ids1[j] == u);
                    } else {
                        assert(ids1[j + 1] == u);
                    }
                }
                if u == user_id {
                    assert(ids1[p as int] == u);
                }
                if ids1.contains(u) && u != user_id {
                    let j = choose|j: int| 0 <= j < ids1.len() && ids1[j] == u;
                    if j < p {
                        assert(ids0[j] == u);
                    } else {
                        assert(ids0[j - 1] == u);
                    }
                }
            }
            assert forall|q: (u32, u32)| #[trigger] self.ratings@.contains_key(q) implies ids1.contains(
                q.0,
            ) by {
                assert(ids0.contains(q.0));
            }
            assert forall|k: int| 0 <= k < self.item_ids@.len() implies #[trigger]
                self.item_ratings@[k].wf() && self.item_ratings@[k]@ == column_of(
                self.ratings@,
                self.item_ids@[k],
            ) by {
                assert(old(self).item_ratings@[k].wf());
            }
            assert(self.wf());
            assert forall|k: int| 0 <= k < self.item_ids@.len() implies #[trigger]
                self.item_ratings@[k].wf() && self.item_ratings@[k]@ == column_of(
                self.ratings@,
                self.item_ids@[k],
            ) by {
                assert(old(self).item_ratings@[k].wf());
            }
        }
        Some(p)
    }

    /// Adds a new item; returns `true` if the item was not known before.
    pub fn add_item(&mut self, item_id: u32) -> (r: bool)
        requires
            old(self).wf(),
        ensures
            final(self).wf(),
            r == !old(self).has_item(item_id),
            !r ==> *final(self) == *old(self),
            forall|i: u32| #[trigger]
                final(self).has_item(i) == (old(self).has_item(i) || i == item_id),
            r ==> exists|p: int|
                0 <= p <= old(self).items().len() && final(self).items() == old(self).items().insert(
                    p,
                    item_id,
                ),
            final(self).users() == old(self).users(),
            final(self).ratings() == old(self).ratings(),
    {
        self.insert_item(item_id).is_some()
    }

    /// Adds a new item and returns its position among the items, or `None`
    /// when the item was already known.
    #[verifier::spinoff_prover]
    pub fn insert_item(&mut self, item_id: u32) -> (r: Option<usize>)
        requires
            old(self).wf(),
        ensures
            final(self).wf(),
            r is Some == !old(self).has_item(item_id),
            r is None ==> *final(self) == *old(self),
            forall|i: u32| #[trigger]
                final(self).has_item(i) == (old(self).has_item(i) || i == item_id),
            final(self).users() == old(self).users(),
            final(self).ratings() == old(self).ratings(),
            match r {
                Some(p) => p <= old(self).items().len() && final(self).items() == old(
                    self,
                ).items().insert(p as int, item_id),
                None => final(self).items() == old(self).items(),
            },
    {
        let p = id_position(&self.item_ids, item_id);
        if p < self.item_ids.len() && self.item_ids[p] == item_id {
            return None;
        }
        let ghost ids0 = self.item_ids@;
        let ghost cols0 = self.item_ratings@;
        self.item_ids.insert(p, item_id);
        self.item_ratings.insert(p, SparseVector::new());
        proof {
            let ids1 = self.item_ids@;
            let cols1 = self.item_ratings@;
            assert(ids_sorted(ids1));
            assert(column_of(self.ratings@, item_id) =~= Map::<u32, Rating>::empty());
            assert forall|k: int| 0 <= k < ids1.len() implies #[trigger] cols1[k].wf() && cols1[k]@
                == column_of(self.ratings@, ids1[k]) by {
                if k < p {
                    assert(cols0[k].wf());
                } else if k > p {
                    assert(cols0[k - 1].wf());
                }
            }
            assert forall|i: u32| #[trigger] ids1.contains(i) == (ids0.contains(i) || i == item_id) by {
                if ids0.contains(i) {
                    let j = choose|j: int| 0 <= j < ids0.len() && ids0[j] == i;
                    if j < p {
                        assert(ids1[j] == i);
                    } else {
                        assert(ids1[j + 1] == i);
                    }
                }
                if i == item_id {
                    assert(ids1[p as int] == i);
                }
                if ids1.contains(i) && i != item_id {
                    let j = choose|j: int| 0 <= j < ids1.len() && ids1[j] == i;
                    if j < p {
                        assert(ids0[j] == i);
                    } else {
                        assert(ids0[j - 1] == i);
                    }
                }
            }
            assert forall|q: (u32, u32)| #[trigger] self.ratings@.contains_key(q) implies ids1.contains(
                q.1,
            ) by {
                assert(ids0.contains(q.1));
            }
            assert forall|k: int| 0 <= k < self.user_ids@.len() implies #[trigger]
                self.user_ratings@[k].wf() && self.user_ratings@[k]@ == row_of(
                self.ratings@,
                self.user_ids@[k],
            ) by {
                assert(old(self).user_ratings@[k].wf());
            }
            assert(self.item_ids@.len() == self.item_ratings@.len());
            assert(self.user_ids@.len() == self.user_ratings@.len());
            assert(ids_sorted(self.user_ids@));
            assert(self.wf());
        }
        Some(p)
    }

    /// Adds a rating given by a user to an item. Returns `true` when both the
    /// user and the item are known; otherwise nothing changes.
    pub fn add_rating(&mut self, user_id: u32, item_id: u32, rating: Rating) -> (r: bool)
        requires
            old(self).wf(),
        ensures
            final(self).wf(),
            r == (old(self).has_user(user_id) && old(self).has_item(item_id)),
            r ==> final(self).ratings() == old(self).ratings().insert((user_id, item_id), rating),
            r ==> final(self).users() == old(self).users(),
            r ==> final(self).items() == old(self).items(),
            !r ==> *final(self) == *old(self),
    {
        let up = id_index(&self.user_ids, user_id);
        let ip = id_index(&self.item_ids, item_id);
        match (up, ip) {
            (Some(a), Some(b)) => {
                let ghost r0 = self.ratings@;
                let ghost rows0 = self.user_ratings@;
                let ghost cols0 = self.item_ratings@;
                proof {
                    assert(rows0[a as int].wf());
                    assert(cols0[b as int].wf());
                }
                self.user_ratings[a].insert(item_id, rating);
                self.item_ratings[b].insert(user_id, rating);
                let ghost r1 = r0.insert((user_id, item_id), rating);
                self.ratings = Ghost(r1);
                proof {
                    assert forall|k: int| 0 <= k < self.user_ids@.len() implies #[trigger]
                        self.user_ratings@[k].wf() && self.user_ratings@[k]@ == row_of(
                        r1,
                        self.user_ids@[k],
                    ) by {
                        assert(rows0[k].wf());
                        if k == a {
                            assert(row_of(r1, user_id) =~= row_of(r0, user_id).insert(
                                item_id,
                                rating,
                            ));
                        } else {
                            assert(self.user_ids@[k] != user_id);
                            assert(row_of(r1, self.user_ids@[k]) =~= row_of(r0, self.user_ids@[k]));
                        }
                    }
                    assert forall|k: int| 0 <= k < self.item_ids@.len() implies #[trigger]
                        self.item_ratings@[k].wf() && self.item_ratings@[k]@ == column_of(
                        r1,
                        self.item_ids@[k],
                    ) by {
                        assert(cols0[k].wf());
                        if k == b {
                            assert(column_of(r1, item_id) =~= column_of(r0, item_id).insert(
                                user_id,
                                rating,
                            ));
                        } else {
                            assert(self.item_ids@[k] != item_id);
                            assert(column_of(r1, self.item_ids@[k]) =~= column_of(
                                r0,
                                self.item_ids@[k],
                            ));
                        }
                    }
                    assert(self.user_ids@.contains(user_id));
                    assert(self.item_ids@.contains(item_id));
                }
                true
            },
            _ => false,
        }
    }

    /// Removes the rating given by a user to an item, if there is one. Users
    /// and items stay.
    pub fn remove_rating(&mut self, user_id: u32, item_id: u32)
        requires
            old(self).wf(),
        ensures
            final(self).wf(),
            final(self).ratings() == old(self).ratings().remove((user_id, item_id)),
            final(self).users() == old(self).users(),
            final(self).items() == old(self).items(),
    {
        let up = id_index(&self.user_ids, user_id);
        let ip = id_index(&self.item_ids, item_id);
        match (up, ip) {
            (Some(a), Some(b)) => {
                let ghost r0 = self.ratings@;
                let ghost rows0 = self.user_ratings@;
                let ghost cols0 = self.item_ratings@;
                proof {
                    assert(rows0[a as int].wf());
                    assert(cols0[b as int].wf());
                }
                self.user_ratings[a].remove(item_id);
                self.item_ratings[b].remove(user_id);
                let ghost r1 = r0.remove((user_id, item_id));
                self.ratings = Ghost(r1);
                proof {
                    assert forall|k: int| 0 <= k < self.user_ids@.len() implies #[trigger]
                        self.user_ratings@[k].wf() && self.user_ratings@[k]@ == row_of(
                        r1,
                        self.user_ids@[k],
                    ) by {
                        assert(rows0[k].wf());
                        if k == a {
                            assert(row_of(r1, user_id) =~= row_of(r0, user_id).remove(item_id));
                        } else {
                            assert(self.user_ids@[k] != user_id);
                            assert(row_of(r1, self.user_ids@[k]) =~= row_of(r0, self.user_ids@[k]));
                        }
                    }
                    assert forall|k: int| 0 <= k < self.item_ids@.len() implies #[trigger]
                        self.item_ratings@[k].wf() && self.item_ratings@[k]@ == column_of(
                        r1,
                        self.item_ids@[k],
                    ) by {
                        assert(cols0[k].wf());
                        if k == b {
                            assert(column_of(r1, item_id) =~= column_of(r0, item_id).remove(
                                user_id,
                            ));
                        } else {
                            assert(self.item_ids@[k] != item_id);
                            assert(column_of(r1, self.item_ids@[k]) =~= column_of(
                                r0,
                                self.item_ids@[k],
                            ));
                        }
                    }
                }
            },
            _ => {
                proof {
                    assert(!self.ratings@.contains_key((user_id, item_id)));
                    assert(self.ratings@ =~= self.ratings@.remove((user_id, item_id)));
                }
            },
        }
    }
}

/// After a successful `add_rating(u, i, r)`, the rating of `u` for `i` is
/// `r`, and `i` is among the items rated by `u`.
pub proof fn lemma_rating_after_add(
    before: BasicDataHandler,
    after: BasicDataHandler,
    u: u32,
    i: u32,
    r: Rating,
)
    requires
        before.has_user(u),
        before.has_item(i),
        after.ratings() == before.ratings().insert((u, i), r),
    ensures
        after.rating_of(u, i) == Some(r),
        after.user_row(u).contains_key(i),
        after.user_row(u)[i] == r,
        after.item_column(i).contains_key(u),
{
}

/// After `remove_rating(u, i)`, there is no rating of `u` for `i`, and `i`
/// is not among the items rated by `u`.
pub proof fn lemma_rating_after_remove(before: BasicDataHandler, after: BasicDataHandler, u: u32, i: u32)
    requires
        after.ratings() == before.ratings().remove((u, i)),
    ensures
        after.rating_of(u, i) is None,
        !after.user_row(u).contains_key(i),
{
}

/// The ratings that `(user, item, rating)` rows give in order: a later row
/// replaces an earlier one for the same user and item.
pub open spec fn ratings_of(rows: Seq<(u32, u32, Rating)>) -> Map<(u32, u32), Rating>
    decreases rows.len(),
{
    if rows.len() == 0 {
        Map::empty()
    } else {
        ratings_of(rows.drop_last()).insert((rows.last().0, rows.last().1), rows.last().2)
    }
}

impl BasicDataHandler {
    /// Creates a data handler from `(user, item, rating)` rows; users and
    /// items are added as they appear.
    pub fn from_ratings(rows: &Vec<(u32, u32, Rating)>) -> (r: BasicDataHandler)
        ensures
            r.wf(),
            r.ratings() == ratings_of(rows@),
            forall|u: u32| #[trigger]
                r.has_user(u) == (exists|k: int| 0 <= k < rows@.len() && rows@[k].0 == u),
            forall|i: u32| #[trigger]
                r.has_item(i) == (exists|k: int| 0 <= k < rows@.len() && rows@[k].1 == i),
    {
        let mut d = BasicDataHandler::new();
        let mut j: usize = 0;
        while j < rows.len()
            invariant
                j <= rows@.len(),
                d.wf(),
                d.ratings() == ratings_of(rows@.take(j as int)),
                forall|u: u32| #[trigger]
                    d.has_user(u) == (exists|k: int| 0 <= k < j && rows@[k].0 == u),
                forall|i: u32| #[trigger]
                    d.has_item(i) == (exists|k: int| 0 <= k < j && rows@[k].1 == i),
            decreases rows@.len() - j,
        {
            let (u, i, r) = rows[j];
            let ghost d0 = d;
            d.add_user(u);
            let ghost d1 = d;
            assert(d1.has_user(u));
            d.add_item(i);
            let ghost d2 = d;
            assert(d2.has_item(i));
            assert(d2.users() == d1.users());
            assert(d2.has_user(u));
            let added = d.add_rating(u, i, r);
            proof {
                assert(added);
                assert(forall|x: u32| #[trigger] d1.has_user(x) == (d0.has_user(x) || x == u));
                assert(forall|x: u32| #[trigger] d2.has_item(x) == (d1.has_item(x) || x == i));
                assert(rows@.take(j + 1).drop_last() =~= rows@.take(j as int));
                assert(d.users() == d2.users());
                assert(d.items() == d2.items());
                assert(d1.items() == d0.items());
                assert forall|x: u32| #[trigger] d.has_user(x) == (d0.has_user(x) || x == u) by {
                    assert(d.has_user(x) == d1.has_user(x));
                }
                assert forall|x: u32| #[trigger] d.has_item(x) == (d0.has_item(x) || x == i) by {
                    assert(d.has_item(x) == d2.has_item(x));
                    assert(d1.has_item(x) == d0.has_item(x));
                }
                assert forall|x: u32| #[trigger]
                    d.has_user(x) == (exists|k: int| 0 <= k < j + 1 && rows@[k].0 == x) by {
                    if x == u {
                        assert(rows@[j as int].0 == x);
                    }
                    if exists|k: int| 0 <= k < j + 1 && rows@[k].0 == x {
                        let k = choose|k: int| 0 <= k < j + 1 && rows@[k].0 == x;
                        if k < j {
                            assert(d0.has_user(x));
                        }
                    }
                }
                assert forall|x: u32| #[trigger]
                    d.has_item(x) == (exists|k: int| 0 <= k < j + 1 && rows@[k].1 == x) by {
                    if x == i {
                        assert(rows@[j as int].1 == x);
                    }
                    if exists|k: int| 0 <= k < j + 1 && rows@[k].1 == x {
                        let k = choose|k: int| 0 <= k < j + 1 && rows@[k].1 == x;
                        if k < j {
                            assert(d0.has_item(x));
                        }
                    }
                }
            }
            j = j + 1;
        }
        assert(rows@.take(rows@.len() as int) =~= rows@);
        d
    }
}

/// A repository of users, items and the ratings between them, which the
/// recommenders read and update. A rating exists only between a known user
/// and a known item.
pub trait DataHandler: Sized {
    /// The repository is consistent.
    spec fn valid(&self) -> bool;

    /// The known users, in increasing order.
    spec fn user_list(&self) -> Seq<u32>;

    /// The known items, in increasing order.
    spec fn item_list(&self) -> Seq<u32>;

    /// All ratings, by (user, item).
    spec fn rating_map(&self) -> Map<(u32, u32), Rating>;

    /// What a consistent repository guarantees.
    proof fn lemma_valid(&self)
        requires
            self.valid(),
        ensures
            ids_sorted(self.user_list()),
            ids_sorted(self.item_list()),
            self.user_list().len() <= crate::sparse::INDEX_SPACE,
            self.item_list().len() <= crate::sparse::INDEX_SPACE,
            forall|p: (u32, u32)|
                #[trigger] self.rating_map().contains_key(p) ==> self.user_list().contains(p.0)
                    && self.item_list().contains(p.1),
    ;

    /// Returns all users IDs.
    fn get_user_ids(&self) -> (r: Vec<u32>)
        requires
            self.valid(),
        ensures
            r@ == self.user_list(),
    ;

    /// Returns all items IDs.
    fn get_item_ids(&self) -> (r: Vec<u32>)
        requires
            self.valid(),
        ensures
            r@ == self.item_list(),
    ;

    /// Returns the rating for each item rated by an user.
    fn get_user_ratings(&self, user_id: u32) -> (r: SparseVector)
        requires
            self.valid(),
        ensures
            r.wf(),
            r@ == row_of(self.rating_map(), user_id),
    ;

    /// Returns the rating for each user who rated an item.
    fn get_item_ratings(&self, item_id: u32) -> (r: SparseVector)
        requires
            self.valid(),
        ensures
            r.wf(),
            r@ == column_of(self.rating_map(), item_id),
    ;

    /// Returns the rating given by an user to an item, if any.
    fn get_rating(&self, user_id: u32, item_id: u32) -> (r: Option<Rating>)
        requires
            self.valid(),
        ensures
            r == (if self.rating_map().contains_key((user_id, item_id)) {
                Some(self.rating_map()[(user_id, item_id)])
            } else {
                None::<Rating>
            }),
    ;

    /// Returns the number of users.
    fn get_num_users(&self) -> (r: usize)
        requires
            self.valid(),
        ensures
            r == self.user_list().len(),
    ;

    /// Returns the number of items.
    fn get_num_items(&self) -> (r: usize)
        requires
            self.valid(),
        ensures
            r == self.item_list().len(),
    ;

    /// The user at position `k`.
    fn user_at(&self, k: usize) -> (r: u32)
        requires
            self.valid(),
            k < self.user_list().len(),
        ensures
            r == self.user_list()[k as int],
    ;

    /// The item at position `k`.
    fn item_at(&self, k: usize) -> (r: u32)
        requires
            self.valid(),
            k < self.item_list().len(),
        ensures
            r == self.item_list()[k as int],
    ;

    /// Position of a user, when the user is known.
    fn user_position(&self, user_id: u32) -> (r: Option<usize>)
        requires
            self.valid(),
        ensures
            match r {
                Some(k) => k < self.user_list().len() && self.user_list()[k as int] == user_id,
                None => !self.user_list().contains(user_id),
            },
    ;

    /// Position of an item, when the item is known.
    fn item_position(&self, item_id: u32) -> (r: Option<usize>)
        requires
            self.valid(),
        ensures
            match r {
                Some(k) => k < self.item_list().len() && self.item_list()[k as int] == item_id,
                None => !self.item_list().contains(item_id),
            },
    ;

    /// The rating vector of the user at position `k`.
    fn user_vector_at(&self, k: usize) -> (r: &SparseVector)
        requires
            self.valid(),
            k < self.user_list().len(),
        ensures
            r.wf(),
            r.seq() == entries_of(row_of(self.rating_map(), self.user_list()[k as int])),
            r@ == row_of(self.rating_map(), self.user_list()[k as int]),
    ;

    /// The rating vector of the item at position `k`.
    fn item_vector_at(&self, k: usize) -> (r: &SparseVector)
        requires
            self.valid(),
            k < self.item_list().len(),
        ensures
            r.wf(),
            r.seq() == entries_of(column_of(self.rating_map(), self.item_list()[k as int])),
            r@ == column_of(self.rating_map(), self.item_list()[k as int]),
    ;

    /// Adds a new user, it returns `true` if the user was added.
    fn add_user(&mut self, user_id: u32) -> (r: bool)
        requires
            old(self).valid(),
        ensures
            final(self).valid(),
            r == !old(self).user_list().contains(user_id),
            !r ==> *final(self) == *old(self),
            forall|u: u32| #[trigger]
                final(self).user_list().contains(u) == (old(self).user_list().contains(u) || u
                    == user_id),
            r ==> exists|p: int|
                0 <= p <= old(self).user_list().len() && final(self).user_list() == old(
                    self,
                ).user_list().insert(p, user_id),
            final(self).item_list() == old(self).item_list(),
            final(self).rating_map() == old(self).rating_map(),
    ;

    /// Adds a new item, it returns `true` if the item was added.
    fn add_item(&mut self, item_id: u32) -> (r: bool)
        requires
            old(self).valid(),
        ensures
            final(self).valid(),
            r == !old(self).item_list().contains(item_id),
            !r ==> *final(self) == *old(self),
            forall|i: u32| #[trigger]
                final(self).item_list().contains(i) == (old(self).item_list().contains(i) || i
                    == item_id),
            r ==> exists|p: int|
                0 <= p <= old(self).item_list().len() && final(self).item_list() == old(
                    self,
                ).item_list().insert(p, item_id),
            final(self).user_list() == old(self).user_list(),
            final(self).rating_map() == old(self).rating_map(),
    ;

    /// Adds a rating given by an user to an item, it returns `true` if the
    /// rating was added: when both are known.
    fn add_rating(&mut self, user_id: u32, item_id: u32, rating: Rating) -> (r: bool)
        requires
            old(self).valid(),
        ensures
            final(self).valid(),
            r == (old(self).user_list().contains(user_id) && old(self).item_list().contains(
                item_id,
            )),
            r ==> final(self).rating_map() == old(self).rating_map().insert(
                (user_id, item_id),
                rating,
            ),
            r ==> final(self).user_list() == old(self).user_list(),
            r ==> final(self).item_list() == old(self).item_list(),
            !r ==> *final(self) == *old(self),
    ;

    /// Removes the rating given by an user to an item, if any.
    fn remove_rating(&mut self, user_id: u32, item_id: u32)
        requires
            old(self).valid(),
        ensures
            final(self).valid(),
            final(self).rating_map() == old(self).rating_map().remove((user_id, item_id)),
            final(self).user_list() == old(self).user_list(),
            final(self).item_list() == old(self).item_list(),
    ;
}

impl DataHandler for BasicDataHandler {
    open spec fn valid(&self) -> bool {
        self.wf()
    }

    open spec fn user_list(&self) -> Seq<u32> {
        self.users()
    }

    open spec fn item_list(&self) -> Seq<u32> {
        self.items()
    }

    open spec fn rating_map(&self) -> Map<(u32, u32), Rating> {
        self.ratings()
    }

    proof fn lemma_valid(&self) {
        self.lemma_wf();
    }

    fn get_user_ids(&self) -> (r: Vec<u32>) {
        BasicDataHandler::get_user_ids(self)
    }

    fn get_item_ids(&self) -> (r: Vec<u32>) {
        BasicDataHandler::get_item_ids(self)
    }

    fn get_user_ratings(&self, user_id: u32) -> (r: SparseVector) {
        BasicDataHandler::get_user_ratings(self, user_id)
    }

    fn get_item_ratings(&self, item_id: u32) -> (r: SparseVector) {
        BasicDataHandler::get_item_ratings(self, item_id)
    }

    fn get_rating(&self, user_id: u32, item_id: u32) -> (r: Option<Rating>) {
        BasicDataHandler::get_rating(self, user_id, item_id)
    }

    fn get_num_users(&self) -> (r: usize) {
        BasicDataHandler::get_num_users(self)
    }

    fn get_num_items(&self) -> (r: usize) {
        BasicDataHandler::get_num_items(self)
    }

    fn user_at(&self, k: usize) -> (r: u32) {
        BasicDataHandler::user_at(self, k)
    }

    fn item_at(&self, k: usize) -> (r: u32) {
        BasicDataHandler::item_at(self, k)
    }

    fn user_position(&self, user_id: u32) -> (r: Option<usize>) {
        BasicDataHandler::user_position(self, user_id)
    }

    fn item_position(&self, item_id: u32) -> (r: Option<usize>) {
        BasicDataHandler::item_position(self, item_id)
    }

    fn user_vector_at(&self, k: usize) -> (r: &SparseVector) {
        BasicDataHandler::user_vector_at(self, k)
    }

    fn item_vector_at(&self, k: usize) -> (r: &SparseVector) {
        BasicDataHandler::item_vector_at(self, k)
    }

    fn add_user(&mut self, user_id: u32) -> (r: bool) {
        let r = BasicDataHandler::insert_user(self, user_id).is_some();
        proof {
            assert forall|u: u32| #[trigger]
                self.users().contains(u) == (old(self).users().contains(u) || u == user_id) by {
                assert(self.has_user(u) == (old(self).has_user(u) || u == user_id));
            }
        }
        r
    }

    fn add_item(&mut self, item_id: u32) -> (r: bool) {
        let r = BasicDataHandler::insert_item(self, item_id).is_some();
        proof {
            assert forall|i: u32| #[trigger]
                self.items().contains(i) == (old(self).items().contains(i) || i == item_id) by {
                assert(self.has_item(i) == (old(self).has_item(i) || i == item_id));
            }
        }
        r
    }

    fn add_rating(&mut self, user_id: u32, item_id: u32, rating: Rating) -> (r: bool) {
        BasicDataHandler::add_rating(self, user_id, item_id, rating)
    }

    fn remove_rating(&mut self, user_id: u32, item_id: u32) {
        BasicDataHandler::remove_rating(self, user_id, item_id)
    }
}

} // verus!
