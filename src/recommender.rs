//! Neighbourhood recommenders: a rating is predicted as the similarity-
//! weighted average of the ratings of the most similar users (or items),
//! chosen either by a similarity threshold or as the `k` nearest.
use crate::data::{column_of, inserted, row_of, DataHandler};
use crate::similarity::{
    div_toward_zero, lemma_metric_symmetric, metric_seq, similarity, trunc_div, Metric, SIM_ONE,
};
use crate::sparse::{entries_of, lemma_map_at, Rating, SparseVector, INDEX_SPACE};
use vstd::prelude::*;

verus! {

/// Whether similarities are taken between users or between items.
#[derive(Clone, Copy, Debug, PartialEq, Eq, Structural)]
pub enum Orientation {
    UserBased,
    ItemBased,
}

/// How the neighbours of a prediction are chosen.
#[derive(Clone, Copy, Debug, PartialEq, Eq, Structural)]
pub enum Selection {
    /// Every neighbour whose similarity is above the threshold (millionths).
    Threshold(i64),
    /// The `k` most similar neighbours.
    Nearest(usize),
}

/// Why no rating could be predicted.
#[derive(Clone, Copy, Debug, PartialEq, Eq, Structural)]
pub enum PredictError {
    UserNotFound,
    ItemNotFound,
    NoNeighbors,
}

/// A neighbour of a prediction: its identifier, its similarity with the
/// target (millionths) and its rating.
pub type Neighbor = (u32, i64, Rating);

/// The entities similarities are taken between, in increasing order.
pub open spec fn entities_of<D: DataHandler>(d: D, o: Orientation) -> Seq<u32> {
    match o {
        Orientation::UserBased => d.user_list(),
        Orientation::ItemBased => d.item_list(),
    }
}

/// The rating vector of an entity.
pub open spec fn vec_of<D: DataHandler>(d: D, o: Orientation, e: u32) -> Seq<(u32, Rating)> {
    match o {
        Orientation::UserBased => entries_of(row_of(d.rating_map(), e)),
        Orientation::ItemBased => entries_of(column_of(d.rating_map(), e)),
    }
}

/// The number of dimensions of the rating vectors.
pub open spec fn dimension_of<D: DataHandler>(d: D, o: Orientation) -> int {
    match o {
        Orientation::UserBased => d.item_list().len() as int,
        Orientation::ItemBased => d.user_list().len() as int,
    }
}

/// The similarity of two entities.
pub open spec fn sim_of<D: DataHandler>(d: D, m: Metric, o: Orientation, a: u32, b: u32) -> int {
    metric_seq(m, vec_of(d, o, a), vec_of(d, o, b), dimension_of(d, o))
}

/// `sims` holds the similarity of every pair of entities, by position.
pub open spec fn matrix_ok<D: DataHandler>(d: D, m: Metric, o: Orientation, sims: Seq<Vec<i64>>) -> bool {
    let ents = entities_of(d, o);
    &&& sims.len() == ents.len()
    &&& forall|a: int| 0 <= a < ents.len() ==> (#[trigger] sims[a])@.len() == ents.len()
    &&& forall|a: int, b: int|
        0 <= a < ents.len() && 0 <= b < ents.len() ==> (#[trigger] sims[a]@[b]) == sim_of(
            d,
            m,
            o,
            ents[a],
            ents[b],
        ) && -SIM_ONE <= sims[a]@[b] <= SIM_ONE
}

fn entity_count<D: DataHandler>(d: &D, o: Orientation) -> (r: usize)
    requires
        d.valid(),
    ensures
        r == entities_of(*d, o).len(),
{
    match o {
        Orientation::UserBased => d.get_num_users(),
        Orientation::ItemBased => d.get_num_items(),
    }
}

fn entity_position<D: DataHandler>(d: &D, o: Orientation, e: u32) -> (r: Option<usize>)
    requires
        d.valid(),
    ensures
        match r {
            Some(k) => k < entities_of(*d, o).len() && entities_of(*d, o)[k as int] == e,
            None => !entities_of(*d, o).contains(e),
        },
{
    match o {
        Orientation::UserBased => d.user_position(e),
        Orientation::ItemBased => d.item_position(e),
    }
}

fn entity_vector_at<D: DataHandler>(d: &D, o: Orientation, k: usize) -> (r: &SparseVector)
    requires
        d.valid(),
        k < entities_of(*d, o).len(),
    ensures
        r.wf(),
        r.seq() == vec_of(*d, o, entities_of(*d, o)[k as int]),
{
    match o {
        Orientation::UserBased => d.user_vector_at(k),
        Orientation::ItemBased => d.item_vector_at(k),
    }
}

fn dimension<D: DataHandler>(d: &D, o: Orientation) -> (r: usize)
    requires
        d.valid(),
    ensures
        r == dimension_of(*d, o),
        r <= INDEX_SPACE,
{
    proof {
        d.lemma_valid();
    }
    match o {
        Orientation::UserBased => d.get_num_items(),
        Orientation::ItemBased => d.get_num_users(),
    }
}

/// The similarities of `v` with every entity, by position.
fn similarity_row<D: DataHandler>(d: &D, m: Metric, o: Orientation, v: &SparseVector) -> (r: Vec<
    i64,
>)
    requires
        d.valid(),
        v.wf(),
    ensures
        r@.len() == entities_of(*d, o).len(),
        forall|b: int|
            0 <= b < r@.len() ==> #[trigger] r@[b] == metric_seq(
                m,
                v.seq(),
                vec_of(*d, o, entities_of(*d, o)[b]),
                dimension_of(*d, o),
            ) && -SIM_ONE <= r@[b] <= SIM_ONE,
{
    let n = entity_count(d, o);
    let dim = dimension(d, o);
    let mut row: Vec<i64> = Vec::new();
    let mut b: usize = 0;
    while b < n
        invariant
            d.valid(),
            v.wf(),
            n == entities_of(*d, o).len(),
            dim == dimension_of(*d, o),
            dim <= INDEX_SPACE,
            b <= n,
            row@.len() == b,
            forall|j: int|
                0 <= j < b ==> #[trigger] row@[j] == metric_seq(
                    m,
                    v.seq(),
                    vec_of(*d, o, entities_of(*d, o)[j]),
                    dimension_of(*d, o),
                ) && -SIM_ONE <= row@[j] <= SIM_ONE,
        decreases n - b,
    {
        let w = entity_vector_at(d, o, b);
        let s = similarity(m, v, w, dim);
        row.push(s);
        b = b + 1;
    }
    row
}

/// The similarities of every pair of entities, by position.
fn similarity_matrix<D: DataHandler>(d: &D, m: Metric, o: Orientation) -> (r: Vec<Vec<i64>>)
    requires
        d.valid(),
    ensures
        matrix_ok(*d, m, o, r@),
{
    let n = entity_count(d, o);
    let mut sims: Vec<Vec<i64>> = Vec::new();
    let mut a: usize = 0;
    while a < n
        invariant
            d.valid(),
            n == entities_of(*d, o).len(),
            a <= n,
            sims@.len() == a,
            forall|x: int| 0 <= x < a ==> (#[trigger] sims@[x])@.len() == n,
            forall|x: int, y: int|
                0 <= x < a && 0 <= y < n ==> (#[trigger] sims@[x]@[y]) == sim_of(
                    *d,
                    m,
                    o,
                    entities_of(*d, o)[x],
                    entities_of(*d, o)[y],
                ) && -SIM_ONE <= sims@[x]@[y] <= SIM_ONE,
        decreases n - a,
    {
        let v = entity_vector_at(d, o, a);
        let row = similarity_row(d, m, o, v);
        sims.push(row);
        a = a + 1;
    }
    sims
}

/// `a` ranks before `b` among neighbours: more similar, or as similar and
/// with a smaller identifier.
pub open spec fn beats(a: Neighbor, b: Neighbor) -> bool {
    a.1 > b.1 || (a.1 == b.1 && a.0 < b.0)
}

/// How many of the first `m` neighbours rank before `x`.
pub open spec fn count_beating(ns: Seq<Neighbor>, x: Neighbor, m: nat) -> nat
    decreases m,
{
    if m == 0 {
        0
    } else {
        count_beating(ns, x, (m - 1) as nat) + if beats(ns[m - 1], x) {
            1nat
        } else {
            0nat
        }
    }
}

/// The rank of neighbour `j`: how many neighbours rank before it.
pub open spec fn rank(ns: Seq<Neighbor>, j: int) -> nat {
    count_beating(ns, ns[j], ns.len())
}

/// Total weight and weighted rating of the first `m` neighbours whose
/// similarity is above `thr`.
pub open spec fn threshold_sums(ns: Seq<Neighbor>, thr: int, m: nat) -> (int, int)
    decreases m,
{
    if m == 0 {
        (0, 0)
    } else {
        let prev = threshold_sums(ns, thr, (m - 1) as nat);
        let x = ns[m - 1];
        if x.1 > thr {
            (prev.0 + x.1, prev.1 + x.1 * x.2)
        } else {
            prev
        }
    }
}

/// Total weight and weighted rating of the first `m` neighbours whose rank
/// is below `k`.
pub open spec fn nearest_sums(ns: Seq<Neighbor>, k: int, m: nat) -> (int, int)
    decreases m,
{
    if m == 0 {
        (0, 0)
    } else {
        let prev = nearest_sums(ns, k, (m - 1) as nat);
        let x = ns[m - 1];
        if rank(ns, m - 1) < k {
            (prev.0 + x.1, prev.1 + x.1 * x.2)
        } else {
            prev
        }
    }
}

/// Total weight and weighted rating of the neighbours that `s` selects.
pub open spec fn selection_sums(s: Selection, ns: Seq<Neighbor>) -> (int, int) {
    match s {
        Selection::Threshold(thr) => threshold_sums(ns, thr as int, ns.len()),
        Selection::Nearest(k) => nearest_sums(ns, k as int, ns.len()),
    }
}

/// The neighbours of `t` found in the entries `s`: every entity of `s`
/// but `t`, with its similarity to `t` and its rating, in the order of `s`.
pub open spec fn neighbors_of<D: DataHandler>(d: D,
    m: Metric,
    o: Orientation,
    t: u32,
    s: Seq<(u32, Rating)>,
) -> Seq<Neighbor>
    decreases s.len(),
{
    if s.len() == 0 {
        Seq::empty()
    } else {
        let prev = neighbors_of(d, m, o, t, s.drop_last());
        let e = s.last();
        if e.0 == t {
            prev
        } else {
            prev.push((e.0, sim_of(d, m, o, t, e.0) as i64, e.1))
        }
    }
}

/// The entity whose similarities weigh a prediction for user `u` and item `i`.
pub open spec fn target_of(o: Orientation, u: u32, i: u32) -> u32 {
    match o {
        Orientation::UserBased => u,
        Orientation::ItemBased => i,
    }
}

/// The ratings a prediction for user `u` and item `i` averages: those given
/// to `i` (user-based), or those given by `u` (item-based).
pub open spec fn pivot_of<D: DataHandler>(d: D, o: Orientation, u: u32, i: u32) -> Seq<(u32, Rating)> {
    match o {
        Orientation::UserBased => entries_of(column_of(d.rating_map(), i)),
        Orientation::ItemBased => entries_of(row_of(d.rating_map(), u)),
    }
}

/// The prediction a weight and a weighted rating give: their quotient when
/// the weight is positive.
pub open spec fn quotient(sums: (int, int)) -> Option<int> {
    if sums.0 > 0 {
        Some(trunc_div(sums.1, sums.0))
    } else {
        None
    }
}

proof fn lemma_term_bound(s: i64, r: Rating)
    requires
        -SIM_ONE <= s <= SIM_ONE,
    ensures
        -(SIM_ONE * 0x8000) <= s * r <= SIM_ONE * 0x8000,
{
    assert(-1_000_000 * 0x8000 <= s * r <= 1_000_000 * 0x8000) by (nonlinear_arith)
        requires
            -1_000_000 <= s <= 1_000_000,
            -0x8000 <= r < 0x8000,
    ;
}

proof fn lemma_trunc_div_small(x: int, d: int)
    requires
        d >= 1,
    ensures
        -x <= trunc_div(x, d) <= x || x <= trunc_div(x, d) <= -x,
{
    if x >= 0 {
        vstd::arithmetic::div_mod::lemma_div_is_ordered_by_denominator(x, 1, d);
        vstd::arithmetic::div_mod::lemma_div_pos_is_pos(x, d);
    } else {
        vstd::arithmetic::div_mod::lemma_div_is_ordered_by_denominator(-x, 1, d);
        vstd::arithmetic::div_mod::lemma_div_pos_is_pos(-x, d);
    }
}

/// A neighbourhood recommender over a rating store: the similarity of every
/// pair of entities is computed once and kept up to date as ratings arrive.
pub struct NeighborhoodRecommender<D: DataHandler> {
    data: D,
    metric: Metric,
    orientation: Orientation,
    selection: Selection,
    sims: Vec<Vec<i64>>,
}

impl<D: DataHandler> NeighborhoodRecommender<D> {
    pub closed spec fn store(&self) -> D {
        self.data
    }

    pub closed spec fn metric(&self) -> Metric {
        self.metric
    }

    pub closed spec fn orientation(&self) -> Orientation {
        self.orientation
    }

    pub closed spec fn selection(&self) -> Selection {
        self.selection
    }

    pub closed spec fn wf(&self) -> bool {
        &&& self.data.valid()
        &&& matrix_ok(self.data, self.metric, self.orientation, self.sims@)
    }

    /// The store of a well-formed recommender is consistent.
    pub proof fn lemma_store(&self)
        requires
            self.wf(),
        ensures
            self.store().valid(),
    {
    }

    /// The neighbours that a prediction for user `u` and item `i` weighs.
    pub open spec fn neighbors(&self, u: u32, i: u32) -> Seq<Neighbor> {
        neighbors_of(
            self.store(),
            self.metric(),
            self.orientation(),
            target_of(self.orientation(), u, i),
            pivot_of(self.store(), self.orientation(), u, i),
        )
    }

    /// Total weight and weighted rating of the selected neighbours.
    pub open spec fn weights(&self, u: u32, i: u32) -> (int, int) {
        selection_sums(self.selection(), self.neighbors(u, i))
    }

    /// The predicted rating of user `u` for item `i`, if the selected
    /// neighbours have a positive total weight.
    pub open spec fn prediction(&self, u: u32, i: u32) -> Option<int> {
        quotient(self.weights(u, i))
    }

    /// What `predict` returns.
    pub open spec fn predict_result(&self, u: u32, i: u32) -> Result<i128, PredictError> {
        if !self.store().user_list().contains(u) {
            Err(PredictError::UserNotFound)
        } else if !self.store().item_list().contains(i) {
            Err(PredictError::ItemNotFound)
        } else {
            match self.prediction(u, i) {
                Some(p) => Ok(p as i128),
                None => Err(PredictError::NoNeighbors),
            }
        }
    }

    /// The similarity of `a` and `b` when both are known entities.
    pub open spec fn similarity_lookup(&self, a: u32, b: u32) -> Option<i64> {
        let ents = entities_of(self.store(), self.orientation());
        if ents.contains(a) && ents.contains(b) {
            Some(sim_of(self.store(), self.metric(), self.orientation(), a, b) as i64)
        } else {
            None
        }
    }

    /// `next` is this recommender after adding user `u`.
    pub open spec fn grown_by_user(
        &self,
        next: NeighborhoodRecommender<D>,
        u: u32,
        added: bool,
    ) -> bool {
        &&& next.wf()
        &&& added == !self.store().user_list().contains(u)
        &&& !added ==> next.store() == self.store()
        &&& added ==> inserted(self.store().user_list(), next.store().user_list(), u)
        &&& forall|x: u32| #[trigger]
            next.store().user_list().contains(x) == (self.store().user_list().contains(x) || x == u)
        &&& next.store().item_list() == self.store().item_list()
        &&& next.store().rating_map() == self.store().rating_map()
        &&& next.metric() == self.metric()
        &&& next.orientation() == self.orientation()
        &&& next.selection() == self.selection()
    }

    /// `next` is this recommender after adding item `i`.
    pub open spec fn grown_by_item(
        &self,
        next: NeighborhoodRecommender<D>,
        i: u32,
        added: bool,
    ) -> bool {
        &&& next.wf()
        &&& added == !self.store().item_list().contains(i)
        &&& !added ==> next.store() == self.store()
        &&& added ==> inserted(self.store().item_list(), next.store().item_list(), i)
        &&& forall|x: u32| #[trigger]
            next.store().item_list().contains(x) == (self.store().item_list().contains(x) || x == i)
        &&& next.store().user_list() == self.store().user_list()
        &&& next.store().rating_map() == self.store().rating_map()
        &&& next.metric() == self.metric()
        &&& next.orientation() == self.orientation()
        &&& next.selection() == self.selection()
    }

    /// `next` is this recommender after `add_rating(u, i, r)` returned `ok`.
    pub open spec fn rated(&self, next: NeighborhoodRecommender<D>, u: u32, i: u32, r: Rating, ok: bool) -> bool {
        &&& next.wf()
        &&& ok == (self.store().user_list().contains(u) && self.store().item_list().contains(i))
        &&& ok ==> next.store().rating_map() == self.store().rating_map().insert((u, i), r)
        &&& ok ==> next.store().user_list() == self.store().user_list()
        &&& ok ==> next.store().item_list() == self.store().item_list()
        &&& !ok ==> next.store() == self.store()
        &&& next.metric() == self.metric()
        &&& next.orientation() == self.orientation()
        &&& next.selection() == self.selection()
    }

    /// `r` is the recommendation for user `u`: every item that can be
    /// recommended, once, with its prediction, ranked.
    pub open spec fn is_recommendation(&self, u: u32, r: Seq<(u32, i128)>) -> bool {
        &&& ranked(r)
        &&& forall|j: int|
            0 <= j < r.len() ==> self.recommendable(u, #[trigger] r[j].0) && self.prediction(
                u,
                r[j].0,
            ) == Some(r[j].1 as int) && self.weights(u, r[j].0).0 > 0
        &&& forall|i: u32| #[trigger]
            self.recommendable(u, i) ==> exists|j: int| 0 <= j < r.len() && r[j].0 == i
    }

    /// Builds a recommender over `data`, computing the similarity of every
    /// pair of entities.
    pub fn new(data: D, metric: Metric, orientation: Orientation, selection: Selection) -> (r: NeighborhoodRecommender<D>)
        requires
            data.valid(),
        ensures
            r.wf(),
            r.store() == data,
            r.metric() == metric,
            r.orientation() == orientation,
            r.selection() == selection,
    {
        let sims = similarity_matrix(&data, metric, orientation);
        NeighborhoodRecommender { data, metric, orientation, selection, sims }
    }

    /// The rating store.
    pub fn data_handler(&self) -> (r: &D)
        ensures
            *r == self.store(),
    {
        &self.data
    }

    /// The neighbours of `t` among the entries of `pivot`.
    fn collect_neighbors(&self, t: u32, t_pos: usize, pivot: &SparseVector) -> (r: Vec<Neighbor>)
        requires
            self.wf(),
            t_pos < entities_of(self.data, self.orientation).len(),
            entities_of(self.data, self.orientation)[t_pos as int] == t,
            pivot.wf(),
            forall|j: int|
                0 <= j < pivot.seq().len() ==> entities_of(self.data, self.orientation).contains(
                    #[trigger] pivot.seq()[j].0,
                ),
        ensures
            r@ == neighbors_of(self.data, self.metric, self.orientation, t, pivot.seq()),
            r@.len() <= pivot.seq().len(),
            forall|j: int| 0 <= j < r@.len() ==> -SIM_ONE <= #[trigger] r@[j].1 <= SIM_ONE,
    {
        let entries = pivot.entries();
        let ghost s = pivot.seq();
        let mut out: Vec<Neighbor> = Vec::new();
        let mut j: usize = 0;
        assert(s.take(0) =~= Seq::<(u32, Rating)>::empty());
        while j < entries.len()
            invariant
                self.wf(),
                t_pos < entities_of(self.data, self.orientation).len(),
                entities_of(self.data, self.orientation)[t_pos as int] == t,
                entries@ == s,
                forall|x: int|
                    0 <= x < s.len() ==> entities_of(self.data, self.orientation).contains(
                        #[trigger] s[x].0,
                    ),
                j <= s.len(),
                out@ == neighbors_of(self.data, self.metric, self.orientation, t, s.take(j as int)),
                out@.len() <= j,
                forall|x: int| 0 <= x < out@.len() ==> -SIM_ONE <= #[trigger] out@[x].1 <= SIM_ONE,
            decreases s.len() - j,
        {
            let ghost pre = s.take(j + 1);
            assert(pre.drop_last() =~= s.take(j as int));
            assert(pre.last() == s[j as int]);
            let (e, rating) = entries[j];
            if e != t {
                let ghost x = j as int;
                assert(entities_of(self.data, self.orientation).contains(s[x].0));
                match entity_position(&self.data, self.orientation, e) {
                    Some(p) => {
                        let sim = self.sims[t_pos][p];
                        proof {
                            assert(sim == sim_of(
                                self.data,
                                self.metric,
                                self.orientation,
                                entities_of(self.data, self.orientation)[t_pos as int],
                                entities_of(self.data, self.orientation)[p as int],
                            ));
                        }
                        out.push((e, sim, rating));
                    },
                    None => {
                        // every rating in the store is between known entities
                        proof {
                            assert(false);
                        }
                    },
                }
            }
            j = j + 1;
        }
        assert(s.take(s.len() as int) =~= s);
        out
    }

    /// Total weight and weighted rating of the neighbours the selection picks.
    fn weigh(&self, ns: &Vec<Neighbor>) -> (r: (i128, i128))
        requires
            ns@.len() <= INDEX_SPACE,
            forall|j: int| 0 <= j < ns@.len() ==> -SIM_ONE <= #[trigger] ns@[j].1 <= SIM_ONE,
        ensures
            r.0 == selection_sums(self.selection, ns@).0,
            r.1 == selection_sums(self.selection, ns@).1,
            -0x1_0000_0000_0000_0000_0000 <= r.1 <= 0x1_0000_0000_0000_0000_0000,
    {
        let n = ns.len();
        let mut w: i128 = 0;
        let mut t: i128 = 0;
        let mut m: usize = 0;
        while m < n
            invariant
                n == ns@.len(),
                n <= INDEX_SPACE,
                forall|j: int| 0 <= j < ns@.len() ==> -SIM_ONE <= #[trigger] ns@[j].1 <= SIM_ONE,
                m <= n,
                match self.selection {
                    Selection::Threshold(thr) => w == threshold_sums(ns@, thr as int, m as nat).0
                        && t == threshold_sums(ns@, thr as int, m as nat).1,
                    Selection::Nearest(k) => w == nearest_sums(ns@, k as int, m as nat).0 && t
                        == nearest_sums(ns@, k as int, m as nat).1,
                },
                -(SIM_ONE * m) <= w <= SIM_ONE * m,
                -(SIM_ONE * 0x8000 * m) <= t <= SIM_ONE * 0x8000 * m,
            decreases n - m,
        {
            let x = ns[m];
            let keep = match self.selection {
                Selection::Threshold(thr) => x.1 > thr,
                Selection::Nearest(k) => {
                    if k >= n {
                        proof {
                            lemma_rank_below(ns@, m as int, n as nat);
                        }
                        true
                    } else {
                        let c = self.count_before(ns, m);
                        c < k
                    }
                },
            };
            proof {
                assert(-SIM_ONE <= ns@[m as int].1 <= SIM_ONE);
                lemma_term_bound(x.1, x.2);
                assert(SIM_ONE * 0x8000 * m <= SIM_ONE * 0x8000 * 0x1_0000_0000) by (nonlinear_arith)
                    requires
                        m <= 0x1_0000_0000,
                ;
                assert(SIM_ONE * m <= SIM_ONE * 0x1_0000_0000) by (nonlinear_arith)
                    requires
                        m <= 0x1_0000_0000,
                ;
                assert(SIM_ONE * (m + 1) == SIM_ONE * m + SIM_ONE) by (nonlinear_arith);
                assert(SIM_ONE * 0x8000 * (m + 1) == SIM_ONE * 0x8000 * m + SIM_ONE * 0x8000)
                    by (nonlinear_arith);
            }
            if keep {
                w = w + x.1 as i128;
                t = t + (x.1 as i128) * (x.2 as i128);
            }
            m = m + 1;
        }
        proof {
            assert(SIM_ONE * 0x8000 * n <= 0x1_0000_0000_0000_0000_0000) by (nonlinear_arith)
                requires
                    n <= 0x1_0000_0000,
            ;
        }
        (w, t)
    }

    /// The rank of neighbour `m`: how many neighbours rank before it.
    fn count_before(&self, ns: &Vec<Neighbor>, m: usize) -> (r: usize)
        requires
            m < ns@.len(),
        ensures
            r == rank(ns@, m as int),
    {
        let x = ns[m];
        let mut c: usize = 0;
        let mut j: usize = 0;
        while j < ns.len()
            invariant
                x == ns@[m as int],
                j <= ns@.len(),
                c == count_beating(ns@, x, j as nat),
                c <= j,
            decreases ns@.len() - j,
        {
            let y = ns[j];
            if y.1 > x.1 || (y.1 == x.1 && y.0 < x.0) {
                c = c + 1;
            }
            j = j + 1;
        }
        c
    }

    /// The prediction for `t` from the ratings in `pivot`.
    fn predict_from(&self, t: u32, t_pos: usize, pivot: &SparseVector) -> (r: Option<i128>)
        requires
            self.wf(),
            t_pos < entities_of(self.data, self.orientation).len(),
            entities_of(self.data, self.orientation)[t_pos as int] == t,
            pivot.wf(),
            forall|j: int|
                0 <= j < pivot.seq().len() ==> entities_of(self.data, self.orientation).contains(
                    #[trigger] pivot.seq()[j].0,
                ),
        ensures
            match r {
                Some(q) => quotient(
                    selection_sums(
                        self.selection,
                        neighbors_of(self.data, self.metric, self.orientation, t, pivot.seq()),
                    ),
                ) == Some(q as int),
                None => quotient(
                    selection_sums(
                        self.selection,
                        neighbors_of(self.data, self.metric, self.orientation, t, pivot.seq()),
                    ),
                ) is None,
            },
    {
        let ns = self.collect_neighbors(t, t_pos, pivot);
        proof {
            crate::sparse::lemma_sorted_len(pivot.seq());
        }
        let (w, x) = self.weigh(&ns);
        if w > 0 {
            proof {
                lemma_trunc_div_small(x as int, w as int);
            }
            Some(div_toward_zero(x, w))
        } else {
            None
        }
    }

    /// The prediction for the user and the item at the given positions.
    fn prediction_at(&self, up: usize, ip: usize) -> (r: Option<i128>)
        requires
            self.wf(),
            up < self.store().user_list().len(),
            ip < self.store().item_list().len(),
        ensures
            match r {
                Some(q) => self.prediction(
                    self.store().user_list()[up as int],
                    self.store().item_list()[ip as int],
                ) == Some(q as int),
                None => self.prediction(
                    self.store().user_list()[up as int],
                    self.store().item_list()[ip as int],
                ) is None,
            },
    {
        let ghost user_id = self.data.user_list()[up as int];
        let ghost item_id = self.data.item_list()[ip as int];
        proof {
            self.data.lemma_valid();
        }
        match self.orientation {
            Orientation::UserBased => {
                let v = self.data.item_vector_at(ip);
                proof {
                    assert forall|j: int| 0 <= j < v.seq().len() implies self.data.user_list().contains(
                        #[trigger] v.seq()[j].0,
                    ) by {
                        lemma_map_at(v.seq(), j);
                        v.lemma_view();
                        assert(self.data.rating_map().contains_key((v.seq()[j].0, item_id)));
                    }
                }
                self.predict_from(self.data.user_at(up), up, v)
            },
            Orientation::ItemBased => {
                let v = self.data.user_vector_at(up);
                proof {
                    assert forall|j: int| 0 <= j < v.seq().len() implies self.data.item_list().contains(
                        #[trigger] v.seq()[j].0,
                    ) by {
                        lemma_map_at(v.seq(), j);
                        v.lemma_view();
                        assert(self.data.rating_map().contains_key((user_id, v.seq()[j].0)));
                    }
                }
                self.predict_from(self.data.item_at(ip), ip, v)
            },
        }
    }

    /// Predicts the rating of a user for an item as the similarity-weighted
    /// average of the ratings of the selected neighbours.
    pub fn predict(&self, user_id: u32, item_id: u32) -> (r: Result<i128, PredictError>)
        requires
            self.wf(),
        ensures
            r == self.predict_result(user_id, item_id),
    {
        let up = match self.data.user_position(user_id) {
            Some(k) => k,
            None => {
                return Err(PredictError::UserNotFound);
            },
        };
        let ip = match self.data.item_position(item_id) {
            Some(k) => k,
            None => {
                proof {
                    assert(self.data.user_list()[up as int] == user_id);
                }
                return Err(PredictError::ItemNotFound);
            },
        };
        proof {
            assert(self.data.user_list()[up as int] == user_id);
            assert(self.data.item_list()[ip as int] == item_id);
        }
        let found = self.prediction_at(up, ip);
        match found {
            Some(p) => Ok(p),
            None => Err(PredictError::NoNeighbors),
        }
    }

    /// The matrix is right for every pair of entities that does not involve
    /// position `tp`.
    closed spec fn right_except(&self, tp: int) -> bool {
        let ents = entities_of(self.data, self.orientation);
        &&& self.data.valid()
        &&& 0 <= tp < ents.len()
        &&& self.sims@.len() == ents.len()
        &&& forall|a: int| 0 <= a < ents.len() ==> (#[trigger] self.sims@[a])@.len() == ents.len()
        &&& forall|a: int, b: int|
            0 <= a < ents.len() && 0 <= b < ents.len() && a != tp && b != tp ==> (
            #[trigger] self.sims@[a]@[b]) == sim_of(
                self.data,
                self.metric,
                self.orientation,
                ents[a],
                ents[b],
            ) && -SIM_ONE <= self.sims@[a]@[b] <= SIM_ONE
    }

    /// Recomputes the similarities of the entity at position `tp`.
    fn refresh(&mut self, tp: usize)
        requires
            old(self).right_except(tp as int),
        ensures
            final(self).wf(),
            final(self).data == old(self).data,
            final(self).metric == old(self).metric,
            final(self).orientation == old(self).orientation,
            final(self).selection == old(self).selection,
    {
        let ghost ents = entities_of(self.data, self.orientation);
        let row = {
            let v = entity_vector_at(&self.data, self.orientation, tp);
            similarity_row(&self.data, self.metric, self.orientation, v)
        };
        let n = self.sims.len();
        self.sims[tp] = row;
        let mut b: usize = 0;
        while b < n
            invariant
                self.data == old(self).data,
                self.metric == old(self).metric,
                self.orientation == old(self).orientation,
                self.selection == old(self).selection,
                ents == entities_of(self.data, self.orientation),
                self.data.valid(),
                n == ents.len(),
                tp < n,
                b <= n,
                self.sims@.len() == n,
                forall|a: int| 0 <= a < n ==> (#[trigger] self.sims@[a])@.len() == n,
                forall|c: int|
                    0 <= c < n ==> (#[trigger] self.sims@[tp as int]@[c]) == sim_of(
                        self.data,
                        self.metric,
                        self.orientation,
                        ents[tp as int],
                        ents[c],
                    ) && -SIM_ONE <= self.sims@[tp as int]@[c] <= SIM_ONE,
                forall|a: int|
                    0 <= a < b ==> (#[trigger] self.sims@[a]@[tp as int]) == sim_of(
                        self.data,
                        self.metric,
                        self.orientation,
                        ents[a],
                        ents[tp as int],
                    ) && -SIM_ONE <= self.sims@[a]@[tp as int] <= SIM_ONE,
                forall|a: int, c: int|
                    0 <= a < n && 0 <= c < n && a != tp && c != tp ==> (
                    #[trigger] self.sims@[a]@[c]) == sim_of(
                        self.data,
                        self.metric,
                        self.orientation,
                        ents[a],
                        ents[c],
                    ) && -SIM_ONE <= self.sims@[a]@[c] <= SIM_ONE,
            decreases n - b,
        {
            let val = self.sims[tp][b];
            proof {
                lemma_metric_symmetric(
                    self.metric,
                    vec_of(self.data, self.orientation, ents[tp as int]),
                    vec_of(self.data, self.orientation, ents[b as int]),
                    dimension_of(self.data, self.orientation),
                );
            }
            let ghost before = self.sims@;
            self.sims[b][tp] = val;
            proof {
                assert forall|a: int| 0 <= a < n implies (#[trigger] self.sims@[a])@.len() == n by {
                    if a != b {
                        assert(self.sims@[a] == before[a]);
                    }
                }
                assert forall|c: int| 0 <= c < n implies (#[trigger] self.sims@[tp as int]@[c])
                    == sim_of(
                    self.data,
                    self.metric,
                    self.orientation,
                    ents[tp as int],
                    ents[c],
                ) && -SIM_ONE <= self.sims@[tp as int]@[c] <= SIM_ONE by {
                    if tp != b {
                        assert(self.sims@[tp as int] == before[tp as int]);
                    } else if c != tp {
                        assert(self.sims@[tp as int]@[c] == before[tp as int]@[c]);
                    }
                }
                assert forall|a: int| 0 <= a < b + 1 implies (#[trigger] self.sims@[a]@[tp as int])
                    == sim_of(
                    self.data,
                    self.metric,
                    self.orientation,
                    ents[a],
                    ents[tp as int],
                ) && -SIM_ONE <= self.sims@[a]@[tp as int] <= SIM_ONE by {
                    if a != b {
                        assert(self.sims@[a] == before[a]);
                    }
                }
                assert forall|a: int, c: int|
                    0 <= a < n && 0 <= c < n && a != tp && c != tp implies (
                    #[trigger] self.sims@[a]@[c]) == sim_of(
                    self.data,
                    self.metric,
                    self.orientation,
                    ents[a],
                    ents[c],
                ) && -SIM_ONE <= self.sims@[a]@[c] <= SIM_ONE by {
                    if a != b {
                        assert(self.sims@[a] == before[a]);
                    } else {
                        assert(self.sims@[a]@[c] == before[a]@[c]);
                    }
                }
            }
            b = b + 1;
        }
        proof {
            assert forall|a: int, c: int| 0 <= a < n && 0 <= c < n implies (
            #[trigger] self.sims@[a]@[c]) == sim_of(
                self.data,
                self.metric,
                self.orientation,
                ents[a],
                ents[c],
            ) && -SIM_ONE <= self.sims@[a]@[c] <= SIM_ONE by {
                if a == tp {
                } else if c == tp {
                    assert(self.sims@[a]@[tp as int] == sim_of(
                        self.data,
                        self.metric,
                        self.orientation,
                        ents[a],
                        ents[tp as int],
                    ));
                }
            }
        }
    }

    /// Adds a rating to the data handler; when it is added, the similarities
    /// of the user (user-based) or of the item (item-based) are recomputed.
    pub fn add_rating(&mut self, user_id: u32, item_id: u32, rating: Rating) -> (r: bool)
        requires
            old(self).wf(),
        ensures
            final(self).wf(),
            r == (old(self).store().user_list().contains(user_id) && old(self).store().item_list().contains(item_id)),
            r ==> final(self).store().rating_map() == old(self).store().rating_map().insert(
                (user_id, item_id),
                rating,
            ),
            r ==> final(self).store().user_list() == old(self).store().user_list(),
            r ==> final(self).store().item_list() == old(self).store().item_list(),
            !r ==> final(self).store() == old(self).store(),
            final(self).metric() == old(self).metric(),
            final(self).orientation() == old(self).orientation(),
            final(self).selection() == old(self).selection(),
    {
        let ghost d0 = self.data;
        let ok = self.data.add_rating(user_id, item_id, rating);
        if ok {
            let t = match self.orientation {
                Orientation::UserBased => user_id,
                Orientation::ItemBased => item_id,
            };
            let tp = match entity_position(&self.data, self.orientation, t) {
                Some(p) => p,
                None => {
                    // the rating was added, so its user and item are known
                    proof {
                        assert(false);
                    }
                    return ok;
                },
            };
            proof {
                let d1 = self.data;
                let ents = entities_of(d1, self.orientation);
                assert(ents == entities_of(d0, self.orientation));
                assert forall|x: u32| x != t implies #[trigger] vec_of(d1, self.orientation, x)
                    == vec_of(d0, self.orientation, x) by {
                    match self.orientation {
                        Orientation::UserBased => {
                            assert(row_of(d1.rating_map(), x) =~= row_of(d0.rating_map(), x));
                        },
                        Orientation::ItemBased => {
                            assert(column_of(d1.rating_map(), x) =~= column_of(d0.rating_map(), x));
                        },
                    }
                }
                assert forall|a: int, b: int|
                    0 <= a < ents.len() && 0 <= b < ents.len() && a != tp && b != tp implies (
                    #[trigger] self.sims@[a]@[b]) == sim_of(
                    d1,
                    self.metric,
                    self.orientation,
                    ents[a],
                    ents[b],
                ) && -SIM_ONE <= self.sims@[a]@[b] <= SIM_ONE by {
                    assert(crate::data::ids_sorted(ents)) by {
                        d1.lemma_valid();
                    }
                    assert(ents[a] != t) by {
                        d1.lemma_valid();
                        if ents[a] == t {
                            assert(ents[a] == ents[tp as int]);
                        }
                    }
                    assert(ents[b] != t) by {
                        d1.lemma_valid();
                        if ents[b] == t {
                            assert(ents[b] == ents[tp as int]);
                        }
                    }
                    assert(vec_of(d1, self.orientation, ents[a]) == vec_of(d0, self.orientation, ents[a]));
                    assert(vec_of(d1, self.orientation, ents[b]) == vec_of(d0, self.orientation, ents[b]));
                }
                assert(self.right_except(tp as int));
            }
            self.refresh(tp);
        }
        ok
    }

    /// Adds to the matrix the row and the column of entity `e`, new at
    /// position `p`, when the store `d0` the matrix was right for differs
    /// only by `e`.
    fn insert_entity(&mut self, e: u32, p: usize, Ghost(d0): Ghost<D>)
        requires
            old(self).data.valid(),
            matrix_ok(d0, old(self).metric, old(self).orientation, old(self).sims@),
            p <= entities_of(d0, old(self).orientation).len(),
            entities_of(old(self).data, old(self).orientation) == entities_of(
                d0,
                old(self).orientation,
            ).insert(p as int, e),
            !entities_of(d0, old(self).orientation).contains(e),
            forall|x: u32|
                x != e ==> #[trigger] vec_of(old(self).data, old(self).orientation, x) == vec_of(
                    d0,
                    old(self).orientation,
                    x,
                ),
            dimension_of(old(self).data, old(self).orientation) == dimension_of(
                d0,
                old(self).orientation,
            ),
        ensures
            final(self).wf(),
            final(self).data == old(self).data,
            final(self).metric == old(self).metric,
            final(self).orientation == old(self).orientation,
            final(self).selection == old(self).selection,
    {
        let ghost e0 = entities_of(d0, self.orientation);
        let ghost e1 = entities_of(self.data, self.orientation);
        let ghost s0 = self.sims@;
        let row = {
            let v = entity_vector_at(&self.data, self.orientation, p);
            similarity_row(&self.data, self.metric, self.orientation, v)
        };
        assert(e1[p as int] == e);
        let n = self.sims.len();
        let mut b: usize = 0;
        while b < n
            invariant
                self.data == old(self).data,
                self.metric == old(self).metric,
                self.orientation == old(self).orientation,
                self.selection == old(self).selection,
                n == e0.len(),
                p <= n,
                b <= n,
                row@.len() == n + 1,
                self.sims@.len() == n,
                s0.len() == n,
                forall|x: int| 0 <= x < n ==> (#[trigger] s0[x])@.len() == n,
                forall|x: int|
                    0 <= x < b ==> (#[trigger] self.sims@[x])@ == s0[x]@.insert(
                        p as int,
                        row@[if x < p {
                            x
                        } else {
                            x + 1
                        }],
                    ),
                forall|x: int| b <= x < n ==> #[trigger] self.sims@[x] == s0[x],
            decreases n - b,
        {
            let nb = if b < p {
                b
            } else {
                b + 1
            };
            let val = row[nb];
            let ghost before = self.sims@;
            assert(self.sims@[b as int] == s0[b as int]);
            self.sims[b].insert(p, val);
            proof {
                assert forall|x: int| 0 <= x < b + 1 implies (#[trigger] self.sims@[x])@ == s0[x]@.insert(
                    p as int,
                    row@[if x < p {
                        x
                    } else {
                        x + 1
                    }],
                ) by {
                    if x < b {
                        assert(self.sims@[x] == before[x]);
                    }
                }
                assert forall|x: int| b + 1 <= x < n implies #[trigger] self.sims@[x] == s0[x] by {
                    assert(self.sims@[x] == before[x]);
                }
            }
            b = b + 1;
        }
        let ghost s_mid = self.sims@;
        self.sims.insert(p, row);
        proof {
            let s1 = self.sims@;
            let m = self.metric;
            let o = self.orientation;
            let d1 = self.data;
            assert(e1.len() == n + 1);
            assert forall|a: int| 0 <= a < n + 1 implies (#[trigger] s1[a])@.len() == n + 1 by {
                if a < p {
                    assert(s1[a] == s_mid[a]);
                } else if a > p {
                    assert(s1[a] == s_mid[a - 1]);
                }
            }
            assert forall|a: int, c: int| 0 <= a < n + 1 && 0 <= c < n + 1 implies (
            #[trigger] s1[a]@[c]) == sim_of(d1, m, o, e1[a], e1[c]) && -SIM_ONE <= s1[a]@[c]
                <= SIM_ONE by {
                if a == p {
                    assert(s1[a] == row);
                } else {
                    let oa = if a < p {
                        a
                    } else {
                        a - 1
                    };
                    assert(s1[a] == s_mid[oa]);
                    assert(s_mid[oa]@ == s0[oa]@.insert(p as int, row@[a]));
                    assert(e1[a] == e0[oa]);
                    if c == p {
                        lemma_metric_symmetric(
                            m,
                            vec_of(d1, o, e),
                            vec_of(d1, o, e1[a]),
                            dimension_of(d1, o),
                        );
                    } else {
                        let oc = if c < p {
                            c
                        } else {
                            c - 1
                        };
                        assert(e1[c] == e0[oc]);
                        assert(s1[a]@[c] == s0[oa]@[oc]);
                        assert(e0[oa] != e);
                        assert(e0[oc] != e);
                        assert(vec_of(d1, o, e0[oa]) == vec_of(d0, o, e0[oa]));
                        assert(vec_of(d1, o, e0[oc]) == vec_of(d0, o, e0[oc]));
                    }
                }
            }
        }
    }

    /// Adds a user to the data handler; returns `true` if the user was not
    /// known before. The similarities are recomputed where the new user
    /// changes them.
    pub fn add_user(&mut self, user_id: u32) -> (r: bool)
        requires
            old(self).wf(),
        ensures
            final(self).wf(),
            r == !old(self).store().user_list().contains(user_id),
            !r ==> final(self).store() == old(self).store(),
            r ==> inserted(old(self).store().user_list(), final(self).store().user_list(), user_id),
            forall|u: u32| #[trigger]
                final(self).store().user_list().contains(u) == (old(self).store().user_list().contains(u) || u == user_id),
            final(self).store().item_list() == old(self).store().item_list(),
            final(self).store().rating_map() == old(self).store().rating_map(),
            final(self).metric() == old(self).metric(),
            final(self).orientation() == old(self).orientation(),
            final(self).selection() == old(self).selection(),
    {
        let ghost d0 = self.data;
        let added = self.data.add_user(user_id);
        let ghost d1 = self.data;
        if added && self.orientation == Orientation::UserBased {
            let p = match self.data.user_position(user_id) {
                Some(p) => p,
                None => {
                    // the user was just added
                    proof {
                        assert(false);
                    }
                    return added;
                },
            };
            proof {
                let d1 = self.data;
                let q = choose|q: int|
                    0 <= q <= d0.user_list().len() && d1.user_list() == d0.user_list().insert(
                        q,
                        user_id,
                    );
                d1.lemma_valid();
                if q != p {
                    assert(d1.user_list()[q] == user_id);
                }
                assert forall|x: u32| x != user_id implies #[trigger] vec_of(
                    d1,
                    self.orientation,
                    x,
                ) == vec_of(d0, self.orientation, x) by {
                    assert(row_of(d1.rating_map(), x) == row_of(d0.rating_map(), x));
                }
            }
            self.insert_entity(user_id, p, Ghost(d0));
        } else if added {
            let rebuild = self.metric == Metric::Pearson;
            if rebuild {
                self.sims = similarity_matrix(&self.data, self.metric, self.orientation);
            } else {
                proof {
                    let d1 = self.data;
                    assert forall|x: u32| #[trigger] vec_of(d1, self.orientation, x) == vec_of(
                        d0,
                        self.orientation,
                        x,
                    ) by {
                        assert(column_of(d1.rating_map(), x) == column_of(d0.rating_map(), x));
                    }
                    let ents = entities_of(d1, self.orientation);
                    assert(ents == entities_of(d0, self.orientation));
                    assert(self.metric != Metric::Pearson);
                    assert forall|a: int, b: int|
                        0 <= a < ents.len() && 0 <= b < ents.len() implies (
                        #[trigger] self.sims@[a]@[b]) == sim_of(
                        d1,
                        self.metric,
                        self.orientation,
                        ents[a],
                        ents[b],
                    ) && -SIM_ONE <= self.sims@[a]@[b] <= SIM_ONE by {
                        assert(vec_of(d1, self.orientation, ents[a]) == vec_of(
                            d0,
                            self.orientation,
                            ents[a],
                        ));
                        assert(vec_of(d1, self.orientation, ents[b]) == vec_of(
                            d0,
                            self.orientation,
                            ents[b],
                        ));
                    }
                }
            }
        }
        proof {
            if added {
                let q = choose|q: int|
                    0 <= q <= d0.user_list().len() && d1.user_list() == d0.user_list().insert(q, user_id);
                assert(self.data.user_list() == d0.user_list().insert(q, user_id));
                assert(inserted(d0.user_list(), self.store().user_list(), user_id));
            }
        }
        added
    }

    /// Adds an item to the data handler; returns `true` if the item was not
    /// known before. The similarities are recomputed where the new item
    /// changes them.
    pub fn add_item(&mut self, item_id: u32) -> (r: bool)
        requires
            old(self).wf(),
        ensures
            final(self).wf(),
            r == !old(self).store().item_list().contains(item_id),
            !r ==> final(self).store() == old(self).store(),
            r ==> inserted(old(self).store().item_list(), final(self).store().item_list(), item_id),
            forall|i: u32| #[trigger]
                final(self).store().item_list().contains(i) == (old(self).store().item_list().contains(i) || i == item_id),
            final(self).store().user_list() == old(self).store().user_list(),
            final(self).store().rating_map() == old(self).store().rating_map(),
            final(self).metric() == old(self).metric(),
            final(self).orientation() == old(self).orientation(),
            final(self).selection() == old(self).selection(),
    {
        let ghost d0 = self.data;
        let added = self.data.add_item(item_id);
        let ghost d1 = self.data;
        if added && self.orientation == Orientation::ItemBased {
            let p = match self.data.item_position(item_id) {
                Some(p) => p,
                None => {
                    // the item was just added
                    proof {
                        assert(false);
                    }
                    return added;
                },
            };
            proof {
                let d1 = self.data;
                let q = choose|q: int|
                    0 <= q <= d0.item_list().len() && d1.item_list() == d0.item_list().insert(
                        q,
                        item_id,
                    );
                d1.lemma_valid();
                if q != p {
                    assert(d1.item_list()[q] == item_id);
                }
                assert forall|x: u32| x != item_id implies #[trigger] vec_of(
                    d1,
                    self.orientation,
                    x,
                ) == vec_of(d0, self.orientation, x) by {
                    assert(column_of(d1.rating_map(), x) == column_of(d0.rating_map(), x));
                }
            }
            self.insert_entity(item_id, p, Ghost(d0));
        } else if added {
            let rebuild = self.metric == Metric::Pearson;
            if rebuild {
                self.sims = similarity_matrix(&self.data, self.metric, self.orientation);
            } else {
                proof {
                    let d1 = self.data;
                    assert forall|x: u32| #[trigger] vec_of(d1, self.orientation, x) == vec_of(
                        d0,
                        self.orientation,
                        x,
                    ) by {
                        assert(row_of(d1.rating_map(), x) == row_of(d0.rating_map(), x));
                    }
                    let ents = entities_of(d1, self.orientation);
                    assert(ents == entities_of(d0, self.orientation));
                    assert(self.metric != Metric::Pearson);
                    assert forall|a: int, b: int|
                        0 <= a < ents.len() && 0 <= b < ents.len() implies (
                        #[trigger] self.sims@[a]@[b]) == sim_of(
                        d1,
                        self.metric,
                        self.orientation,
                        ents[a],
                        ents[b],
                    ) && -SIM_ONE <= self.sims@[a]@[b] <= SIM_ONE by {
                        assert(vec_of(d1, self.orientation, ents[a]) == vec_of(
                            d0,
                            self.orientation,
                            ents[a],
                        ));
                        assert(vec_of(d1, self.orientation, ents[b]) == vec_of(
                            d0,
                            self.orientation,
                            ents[b],
                        ));
                    }
                }
            }
        }
        proof {
            if added {
                let q = choose|q: int|
                    0 <= q <= d0.item_list().len() && d1.item_list() == d0.item_list().insert(q, item_id);
                assert(self.data.item_list() == d0.item_list().insert(q, item_id));
                assert(inserted(d0.item_list(), self.store().item_list(), item_id));
            }
        }
        added
    }

    /// The stored similarity of two known entities (users for a user-based
    /// recommender, items for an item-based one).
    pub fn get_similarity(&self, a: u32, b: u32) -> (r: Option<i64>)
        requires
            self.wf(),
        ensures
            match r {
                Some(x) => entities_of(self.store(), self.orientation()).contains(a)
                    && entities_of(self.store(), self.orientation()).contains(b) && x == sim_of(
                    self.store(),
                    self.metric(),
                    self.orientation(),
                    a,
                    b,
                ),
                None => !entities_of(self.store(), self.orientation()).contains(a)
                    || !entities_of(self.store(), self.orientation()).contains(b),
            },
            r == self.similarity_lookup(a, b),
    {
        let pa = match entity_position(&self.data, self.orientation, a) {
            Some(p) => p,
            None => {
                return None;
            },
        };
        let pb = match entity_position(&self.data, self.orientation, b) {
            Some(p) => p,
            None => {
                return None;
            },
        };
        proof {
            assert(entities_of(self.data, self.orientation)[pa as int] == a);
            assert(entities_of(self.data, self.orientation)[pb as int] == b);
        }
        Some(self.sims[pa][pb])
    }

    /// An item `i` can be recommended to `u`: `u` is known and has not rated
    /// `i`, and a rating can be predicted.
    pub open spec fn recommendable(&self, u: u32, i: u32) -> bool {
        &&& self.store().user_list().contains(u)
        &&& self.store().item_list().contains(i)
        &&& !self.store().rating_map().contains_key((u, i))
        &&& self.prediction(u, i) is Some
    }

    /// Generates the items `user_id` has not rated, each with its predicted
    /// rating, from the highest prediction down, equal predictions by
    /// decreasing item ID. Items without a prediction are left out.
    pub fn recommend(&self, user_id: u32) -> (r: Vec<(u32, i128)>)
        requires
            self.wf(),
        ensures
            self.is_recommendation(user_id, r@),
    {
        let mut out: Vec<(u32, i128)> = Vec::new();
        let up = match self.data.user_position(user_id) {
            Some(k) => k,
            None => {
                return out;
            },
        };
        let n = self.data.get_num_items();
        let ghost items = self.data.item_list();
        proof {
            self.data.lemma_valid();
        }
        let mut k: usize = 0;
        while k < n
            invariant
                self.wf(),
                up < self.data.user_list().len(),
                self.data.user_list()[up as int] == user_id,
                items == self.data.item_list(),
                crate::data::ids_sorted(items),
                n == items.len(),
                k <= n,
                ranked(out@),
                forall|j: int|
                    0 <= j < out@.len() ==> self.recommendable(user_id, #[trigger] out@[j].0)
                        && self.prediction(user_id, out@[j].0) == Some(out@[j].1 as int)
                        && items.take(k as int).contains(out@[j].0),
                forall|x: int|
                    0 <= x < k && self.recommendable(user_id, #[trigger] items[x]) ==> exists|j: int|
                        0 <= j < out@.len() && out@[j].0 == items[x],
            decreases n - k,
        {
            let item = self.data.item_at(k);
            let rated = self.data.get_rating(user_id, item);
            let ghost out0 = out@;
            proof {
                assert(self.data.user_list().contains(user_id));
                assert(items.contains(item));
                assert forall|j: int| 0 <= j < out0.len() implies (#[trigger] out0[j]).0 != item by {
                    let y = out0[j].0;
                    assert(items.take(k as int).contains(y));
                    let z = choose|z: int| 0 <= z < k && items.take(k as int)[z] == y;
                    assert(items[z] < items[k as int]);
                }
            }
            let ghost mut added: Option<(u32, i128)> = None;
            if rated.is_none() {
                match self.prediction_at(up, k) {
                    Some(p) => {
                        insert_ranked(&mut out, (item, p));
                        proof {
                            added = Some((item, p));
                        }
                    },
                    None => {},
                }
            }
            proof {
                assert(match added {
                    Some(a) => a.0 == item && self.prediction(user_id, item) == Some(a.1 as int)
                        && !self.data.rating_map().contains_key((user_id, item)),
                    None => true,
                });
                assert(self.recommendable(user_id, item) ==> added is Some);
                assert(forall|y: (u32, i128)| #[trigger]
                    out@.contains(y) == (out0.contains(y) || added == Some(y)));
                assert forall|j: int| 0 <= j < out@.len() implies self.recommendable(
                    user_id,
                    #[trigger] out@[j].0,
                ) && self.prediction(user_id, out@[j].0) == Some(out@[j].1 as int) && items.take(
                    k + 1,
                ).contains(out@[j].0) by {
                    assert(out@.contains(out@[j]));
                    if out0.contains(out@[j]) {
                        let j0 = choose|j0: int| 0 <= j0 < out0.len() && out0[j0] == out@[j];
                        assert(items.take(k as int).contains(out0[j0].0));
                        let z = choose|z: int| 0 <= z < k && items.take(k as int)[z] == out0[j0].0;
                        assert(items.take(k + 1)[z] == out0[j0].0);
                    } else {
                        assert(items.take(k + 1)[k as int] == item);
                    }
                }
                assert forall|x: int|
                    0 <= x < k + 1 && self.recommendable(user_id, #[trigger] items[x]) implies exists|j: int|
                    0 <= j < out@.len() && out@[j].0 == items[x] by {
                    if x < k {
                        let j0 = choose|j0: int| 0 <= j0 < out0.len() && out0[j0].0 == items[x];
                        assert(out0.contains(out0[j0]));
                        assert(out@.contains(out0[j0]));
                    } else {
                        if let Some(a) = added {
                            assert(out@.contains(a));
                        }
                    }
                }
            }
            k = k + 1;
        }
        proof {
            assert(items.take(n as int) =~= items);
            assert forall|i: u32| #[trigger] self.recommendable(user_id, i) implies exists|j: int|
                0 <= j < out@.len() && out@[j].0 == i by {
                let x = choose|x: int| 0 <= x < items.len() && items[x] == i;
                assert(self.recommendable(user_id, items[x]));
            }
        }
        out
    }
}

/// `a` comes before `b` in a recommendation: a higher predicted rating, or
/// the same one and a larger item ID.
pub open spec fn ranked_before(a: (u32, i128), b: (u32, i128)) -> bool {
    a.1 > b.1 || (a.1 == b.1 && a.0 > b.0)
}

/// Every entry comes before the entries that follow it.
pub open spec fn ranked(s: Seq<(u32, i128)>) -> bool {
    forall|a: int, b: int| 0 <= a < b < s.len() ==> ranked_before(s[a], s[b])
}

/// Inserts `x` into the ranked list `v` at its place.
fn insert_ranked(v: &mut Vec<(u32, i128)>, x: (u32, i128))
    requires
        ranked(old(v)@),
        forall|j: int| 0 <= j < old(v)@.len() ==> (#[trigger] old(v)@[j]).0 != x.0,
    ensures
        ranked(final(v)@),
        final(v)@.len() == old(v)@.len() + 1,
        forall|y: (u32, i128)| #[trigger] final(v)@.contains(y) == (old(v)@.contains(y) || y == x),
{
    let mut p: usize = 0;
    while p < v.len() && (v[p].1 > x.1 || (v[p].1 == x.1 && v[p].0 > x.0))
        invariant
            p <= v@.len(),
            forall|j: int| 0 <= j < p ==> ranked_before(#[trigger] v@[j], x),
        decreases v@.len() - p,
    {
        p = p + 1;
    }
    let ghost v0 = v@;
    proof {
        assert forall|j: int| p <= j < v0.len() implies ranked_before(x, #[trigger] v0[j]) by {
            assert(v0[p as int].0 != x.0);
            if j > p {
                assert(ranked_before(v0[p as int], v0[j]));
            }
        }
    }
    v.insert(p, x);
    proof {
        let v1 = v@;
        assert(v1 =~= v0.insert(p as int, x));
        assert forall|a: int, b: int| 0 <= a < b < v1.len() implies ranked_before(v1[a], v1[b]) by {
            if b < p {
                assert(v1[a] == v0[a] && v1[b] == v0[b]);
            } else if b == p {
                assert(v1[a] == v0[a]);
            } else if a < p {
                assert(v1[a] == v0[a] && v1[b] == v0[b - 1]);
                assert(ranked_before(v0[a], x));
                assert(ranked_before(x, v0[b - 1]));
            } else if a == p {
                assert(v1[b] == v0[b - 1]);
            } else {
                assert(v1[a] == v0[a - 1] && v1[b] == v0[b - 1]);
            }
        }
        assert forall|y: (u32, i128)| #[trigger] v1.contains(y) == (v0.contains(y) || y == x) by {
            if v1.contains(y) {
                let j = choose|j: int| 0 <= j < v1.len() && v1[j] == y;
                if j < p {
                    assert(v0[j] == y);
                } else if j > p {
                    assert(v0[j - 1] == y);
                }
            }
            if v0.contains(y) {
                let j = choose|j: int| 0 <= j < v0.len() && v0[j] == y;
                if j < p {
                    assert(v1[j] == y);
                } else {
                    assert(v1[j + 1] == y);
                }
            }
            if y == x {
                assert(v1[p as int] == y);
            }
        }
    }
}

/// What every recommender offers: predictions and recommendations, both
/// given by the neighbourhood recommender it is built on.
pub trait Recommender<D: DataHandler> {
    /// The recommender is ready for use.
    spec fn valid(&self) -> bool;

    /// The neighbourhood recommender whose predictions this one gives.
    spec fn engine(&self) -> NeighborhoodRecommender<D>;

    /// Predicts a rating given an user and an item.
    fn predict(&self, user_id: u32, item_id: u32) -> (r: Result<i128, PredictError>)
        requires
            self.valid(),
        ensures
            r == self.engine().predict_result(user_id, item_id),
    ;

    /// Recommends items given an user: the items it has not rated, with
    /// their predicted ratings, sorted by rating.
    fn recommend(&self, user_id: u32) -> (r: Vec<(u32, i128)>)
        requires
            self.valid(),
        ensures
            self.engine().is_recommendation(user_id, r@),
    ;
}

/// An user based threshold neighbors recommender.
pub struct BasicUserRecommender<D: DataHandler> {
    inner: NeighborhoodRecommender<D>,
}

impl<D: DataHandler> BasicUserRecommender<D> {
    /// The underlying neighbourhood recommender.
    pub closed spec fn model(&self) -> NeighborhoodRecommender<D> {
        self.inner
    }

    pub open spec fn wf(&self) -> bool {
        &&& self.model().wf()
        &&& self.model().orientation() == Orientation::UserBased
        &&& self.model().selection() is Threshold
    }

    /// Initializes a new recommender from a data handler, computing and
    /// storing the similarities between users.
    pub fn new(data_handler: D, threshold: i64, similarity: Metric) -> (r: BasicUserRecommender<D>)
        requires
            data_handler.valid(),
        ensures
            r.wf(),
            r.model().store() == data_handler,
            r.model().metric() == similarity,
            r.model().selection() == Selection::Threshold(threshold),
    {
        BasicUserRecommender {
            inner: NeighborhoodRecommender::new(
                data_handler,
                similarity,
                Orientation::UserBased,
                Selection::Threshold(threshold),
            ),
        }
    }

    /// The data handler.
    pub fn data_handler(&self) -> (r: &D)
        ensures
            *r == self.model().store(),
    {
        self.inner.data_handler()
    }

    /// Adds an user to the data handler.
    pub fn add_user(&mut self, user_id: u32) -> (r: bool)
        requires
            old(self).wf(),
        ensures
            final(self).wf(),
            r == !old(self).model().store().user_list().contains(user_id),
            old(self).model().grown_by_user(final(self).model(), user_id, r),
    {
        self.inner.add_user(user_id)
    }

    /// Adds an item to the data handler.
    pub fn add_item(&mut self, item_id: u32) -> (r: bool)
        requires
            old(self).wf(),
        ensures
            final(self).wf(),
            r == !old(self).model().store().item_list().contains(item_id),
            old(self).model().grown_by_item(final(self).model(), item_id, r),
    {
        self.inner.add_item(item_id)
    }

    /// Adds a rating to the data handler and recomputes the similarities of
    /// the user that changed.
    pub fn add_rating(&mut self, user_id: u32, item_id: u32, rating: Rating) -> (r: bool)
        requires
            old(self).wf(),
        ensures
            final(self).wf(),
            old(self).model().rated(final(self).model(), user_id, item_id, rating, r),
    {
        self.inner.add_rating(user_id, item_id, rating)
    }

    /// The stored similarity of two known entities.
    pub fn get_similarity(&self, a: u32, b: u32) -> (r: Option<i64>)
        requires
            self.wf(),
        ensures
            r == self.model().similarity_lookup(a, b),
    {
        self.inner.get_similarity(a, b)
    }
}

impl<D: DataHandler> Recommender<D> for BasicUserRecommender<D> {
    open spec fn valid(&self) -> bool {
        self.wf()
    }

    open spec fn engine(&self) -> NeighborhoodRecommender<D> {
        self.model()
    }

    fn predict(&self, user_id: u32, item_id: u32) -> (r: Result<i128, PredictError>) {
        self.inner.predict(user_id, item_id)
    }

    fn recommend(&self, user_id: u32) -> (r: Vec<(u32, i128)>) {
        self.inner.recommend(user_id)
    }
}

/// An item based threshold neighbors recommender.
pub struct BasicItemRecommender<D: DataHandler> {
    inner: NeighborhoodRecommender<D>,
}

impl<D: DataHandler> BasicItemRecommender<D> {
    /// The underlying neighbourhood recommender.
    pub closed spec fn model(&self) -> NeighborhoodRecommender<D> {
        self.inner
    }

    pub open spec fn wf(&self) -> bool {
        &&& self.model().wf()
        &&& self.model().orientation() == Orientation::ItemBased
        &&& self.model().selection() is Threshold
    }

    /// Initializes a new recommender from a data handler, computing and
    /// storing the similarities between items.
    pub fn new(data_handler: D, threshold: i64, similarity: Metric) -> (r: BasicItemRecommender<D>)
        requires
            data_handler.valid(),
        ensures
            r.wf(),
            r.model().store() == data_handler,
            r.model().metric() == similarity,
            r.model().selection() == Selection::Threshold(threshold),
    {
        BasicItemRecommender {
            inner: NeighborhoodRecommender::new(
                data_handler,
                similarity,
                Orientation::ItemBased,
                Selection::Threshold(threshold),
            ),
        }
    }

    /// The data handler.
    pub fn data_handler(&self) -> (r: &D)
        ensures
            *r == self.model().store(),
    {
        self.inner.data_handler()
    }

    /// Adds an user to the data handler.
    pub fn add_user(&mut self, user_id: u32) -> (r: bool)
        requires
            old(self).wf(),
        ensures
            final(self).wf(),
            r == !old(self).model().store().user_list().contains(user_id),
            old(self).model().grown_by_user(final(self).model(), user_id, r),
    {
        self.inner.add_user(user_id)
    }

    /// Adds an item to the data handler.
    pub fn add_item(&mut self, item_id: u32) -> (r: bool)
        requires
            old(self).wf(),
        ensures
            final(self).wf(),
            r == !old(self).model().store().item_list().contains(item_id),
            old(self).model().grown_by_item(final(self).model(), item_id, r),
    {
        self.inner.add_item(item_id)
    }

    /// Adds a rating to the data handler and recomputes the similarities of
    /// the item that changed.
    pub fn add_rating(&mut self, user_id: u32, item_id: u32, rating: Rating) -> (r: bool)
        requires
            old(self).wf(),
        ensures
            final(self).wf(),
            old(self).model().rated(final(self).model(), user_id, item_id, rating, r),
    {
        self.inner.add_rating(user_id, item_id, rating)
    }

    /// The stored similarity of two known entities.
    pub fn get_similarity(&self, a: u32, b: u32) -> (r: Option<i64>)
        requires
            self.wf(),
        ensures
            r == self.model().similarity_lookup(a, b),
    {
        self.inner.get_similarity(a, b)
    }
}

impl<D: DataHandler> Recommender<D> for BasicItemRecommender<D> {
    open spec fn valid(&self) -> bool {
        self.wf()
    }

    open spec fn engine(&self) -> NeighborhoodRecommender<D> {
        self.model()
    }

    fn predict(&self, user_id: u32, item_id: u32) -> (r: Result<i128, PredictError>) {
        self.inner.predict(user_id, item_id)
    }

    fn recommend(&self, user_id: u32) -> (r: Vec<(u32, i128)>) {
        self.inner.recommend(user_id)
    }
}

/// An user based nearest neighbors recommender.
pub struct KNNUserRecommender<D: DataHandler> {
    inner: NeighborhoodRecommender<D>,
}

impl<D: DataHandler> KNNUserRecommender<D> {
    /// The underlying neighbourhood recommender.
    pub closed spec fn model(&self) -> NeighborhoodRecommender<D> {
        self.inner
    }

    pub open spec fn wf(&self) -> bool {
        &&& self.model().wf()
        &&& self.model().orientation() == Orientation::UserBased
        &&& self.model().selection() is Nearest
    }

    /// Initializes a new recommender from a data handler, computing and
    /// storing the similarities between users.
    pub fn new(data_handler: D, k: usize, similarity: Metric) -> (r: KNNUserRecommender<D>)
        requires
            data_handler.valid(),
        ensures
            r.wf(),
            r.model().store() == data_handler,
            r.model().metric() == similarity,
            r.model().selection() == Selection::Nearest(k),
    {
        KNNUserRecommender {
            inner: NeighborhoodRecommender::new(
                data_handler,
                similarity,
                Orientation::UserBased,
                Selection::Nearest(k),
            ),
        }
    }

    /// The data handler.
    pub fn data_handler(&self) -> (r: &D)
        ensures
            *r == self.model().store(),
    {
        self.inner.data_handler()
    }

    /// Adds an user to the data handler.
    pub fn add_user(&mut self, user_id: u32) -> (r: bool)
        requires
            old(self).wf(),
        ensures
            final(self).wf(),
            r == !old(self).model().store().user_list().contains(user_id),
            old(self).model().grown_by_user(final(self).model(), user_id, r),
    {
        self.inner.add_user(user_id)
    }

    /// Adds an item to the data handler.
    pub fn add_item(&mut self, item_id: u32) -> (r: bool)
        requires
            old(self).wf(),
        ensures
            final(self).wf(),
            r == !old(self).model().store().item_list().contains(item_id),
            old(self).model().grown_by_item(final(self).model(), item_id, r),
    {
        self.inner.add_item(item_id)
    }

    /// Adds a rating to the data handler and recomputes the similarities of
    /// the user that changed.
    pub fn add_rating(&mut self, user_id: u32, item_id: u32, rating: Rating) -> (r: bool)
        requires
            old(self).wf(),
        ensures
            final(self).wf(),
            old(self).model().rated(final(self).model(), user_id, item_id, rating, r),
    {
        self.inner.add_rating(user_id, item_id, rating)
    }

    /// The stored similarity of two known entities.
    pub fn get_similarity(&self, a: u32, b: u32) -> (r: Option<i64>)
        requires
            self.wf(),
        ensures
            r == self.model().similarity_lookup(a, b),
    {
        self.inner.get_similarity(a, b)
    }
}

impl<D: DataHandler> Recommender<D> for KNNUserRecommender<D> {
    open spec fn valid(&self) -> bool {
        self.wf()
    }

    open spec fn engine(&self) -> NeighborhoodRecommender<D> {
        self.model()
    }

    fn predict(&self, user_id: u32, item_id: u32) -> (r: Result<i128, PredictError>) {
        self.inner.predict(user_id, item_id)
    }

    fn recommend(&self, user_id: u32) -> (r: Vec<(u32, i128)>) {
        self.inner.recommend(user_id)
    }
}

/// An item based nearest neighbors recommender.
pub struct KNNItemRecommender<D: DataHandler> {
    inner: NeighborhoodRecommender<D>,
}

impl<D: DataHandler> KNNItemRecommender<D> {
    /// The underlying neighbourhood recommender.
    pub closed spec fn model(&self) -> NeighborhoodRecommender<D> {
        self.inner
    }

    pub open spec fn wf(&self) -> bool {
        &&& self.model().wf()
        &&& self.model().orientation() == Orientation::ItemBased
        &&& self.model().selection() is Nearest
    }

    /// Initializes a new recommender from a data handler, computing and
    /// storing the similarities between items.
    pub fn new(data_handler: D, k: usize, similarity: Metric) -> (r: KNNItemRecommender<D>)
        requires
            data_handler.valid(),
        ensures
            r.wf(),
            r.model().store() == data_handler,
            r.model().metric() == similarity,
            r.model().selection() == Selection::Nearest(k),
    {
        KNNItemRecommender {
            inner: NeighborhoodRecommender::new(
                data_handler,
                similarity,
                Orientation::ItemBased,
                Selection::Nearest(k),
            ),
        }
    }

    /// The data handler.
    pub fn data_handler(&self) -> (r: &D)
        ensures
            *r == self.model().store(),
    {
        self.inner.data_handler()
    }

    /// Adds an user to the data handler.
    pub fn add_user(&mut self, user_id: u32) -> (r: bool)
        requires
            old(self).wf(),
        ensures
            final(self).wf(),
            r == !old(self).model().store().user_list().contains(user_id),
            old(self).model().grown_by_user(final(self).model(), user_id, r),
    {
        self.inner.add_user(user_id)
    }

    /// Adds an item to the data handler.
    pub fn add_item(&mut self, item_id: u32) -> (r: bool)
        requires
            old(self).wf(),
        ensures
            final(self).wf(),
            r == !old(self).model().store().item_list().contains(item_id),
            old(self).model().grown_by_item(final(self).model(), item_id, r),
    {
        self.inner.add_item(item_id)
    }

    /// Adds a rating to the data handler and recomputes the similarities of
    /// the item that changed.
    pub fn add_rating(&mut self, user_id: u32, item_id: u32, rating: Rating) -> (r: bool)
        requires
            old(self).wf(),
        ensures
            final(self).wf(),
            old(self).model().rated(final(self).model(), user_id, item_id, rating, r),
    {
        self.inner.add_rating(user_id, item_id, rating)
    }

    /// The stored similarity of two known entities.
    pub fn get_similarity(&self, a: u32, b: u32) -> (r: Option<i64>)
        requires
            self.wf(),
        ensures
            r == self.model().similarity_lookup(a, b),
    {
        self.inner.get_similarity(a, b)
    }
}

impl<D: DataHandler> Recommender<D> for KNNItemRecommender<D> {
    open spec fn valid(&self) -> bool {
        self.wf()
    }

    open spec fn engine(&self) -> NeighborhoodRecommender<D> {
        self.model()
    }

    fn predict(&self, user_id: u32, item_id: u32) -> (r: Result<i128, PredictError>) {
        self.inner.predict(user_id, item_id)
    }

    fn recommend(&self, user_id: u32) -> (r: Vec<(u32, i128)>) {
        self.inner.recommend(user_id)
    }
}

proof fn lemma_rank_below(ns: Seq<Neighbor>, j: int, m: nat)
    requires
        0 <= j < m <= ns.len(),
    ensures
        count_beating(ns, ns[j], m) < m,
    decreases m,
{
    if m - 1 > j {
        lemma_rank_below(ns, j, (m - 1) as nat);
    } else {
        lemma_count_at_most(ns, ns[j], (m - 1) as nat);
    }
}

proof fn lemma_count_at_most(ns: Seq<Neighbor>, x: Neighbor, m: nat)
    ensures
        count_beating(ns, x, m) <= m,
    decreases m,
{
    if m > 0 {
        lemma_count_at_most(ns, x, (m - 1) as nat);
    }
}

proof fn lemma_sums_agree(ns: Seq<Neighbor>, k: int, thr: int, m: nat)
    requires
        k >= ns.len(),
        m <= ns.len(),
        forall|j: int| 0 <= j < ns.len() ==> (#[trigger] ns[j]).1 > thr,
    ensures
        nearest_sums(ns, k, m) == threshold_sums(ns, thr, m),
    decreases m,
{
    if m > 0 {
        lemma_sums_agree(ns, k, thr, (m - 1) as nat);
        lemma_rank_below(ns, m - 1, ns.len());
        assert(ns[m - 1].1 > thr);
    }
}

/// With `k` at least the number of neighbours, the `k`-nearest prediction is
/// the full weighted average: the one a threshold below the similarity of
/// every neighbour gives.
pub proof fn lemma_nearest_as_threshold<D: DataHandler>(
    knn: NeighborhoodRecommender<D>,
    basic: NeighborhoodRecommender<D>,
    u: u32,
    i: u32,
    k: usize,
    threshold: i64,
)
    requires
        knn.store() == basic.store(),
        knn.metric() == basic.metric(),
        knn.orientation() == basic.orientation(),
        knn.selection() == Selection::Nearest(k),
        basic.selection() == Selection::Threshold(threshold),
        k >= knn.neighbors(u, i).len(),
        forall|j: int|
            0 <= j < knn.neighbors(u, i).len() ==> (#[trigger] knn.neighbors(u, i)[j]).1
                > threshold,
    ensures
        knn.weights(u, i) == basic.weights(u, i),
        knn.prediction(u, i) == basic.prediction(u, i),
{
    let ns = knn.neighbors(u, i);
    assert(ns == basic.neighbors(u, i));
    lemma_sums_agree(ns, k as int, threshold as int, ns.len());
}

/// Two recommenders built alike over equal stores give the same
/// similarities, predictions and recommendable items.
pub proof fn lemma_builds_agree<D: DataHandler>(
    a: NeighborhoodRecommender<D>,
    b: NeighborhoodRecommender<D>, u: u32, i: u32, x: u32, y: u32)
    requires
        a.store() == b.store(),
        a.metric() == b.metric(),
        a.orientation() == b.orientation(),
        a.selection() == b.selection(),
    ensures
        a.similarity_lookup(x, y) == b.similarity_lookup(x, y),
        a.predict_result(u, i) == b.predict_result(u, i),
        a.recommendable(u, i) == b.recommendable(u, i),
{
}

} // verus!
