//! A user-based k-nearest-neighbours recommender over records whose user
//! and item IDs are text.
use crate::data::{ratings_of, BasicDataHandler};
use crate::recommender::{KNNUserRecommender, PredictError, Recommender};
use crate::records::Record;
use crate::similarity::Metric;
use crate::sparse::Rating;
use vstd::prelude::*;
use vstd::utf8::{decode_utf8, encode_utf8};

verus! {

/// `a` comes before `b` in byte order: at the first difference `a` has the
/// smaller byte, or `a` is a proper prefix of `b`.
pub open spec fn bytes_before(a: Seq<u8>, b: Seq<u8>) -> bool
    decreases a.len(),
{
    if a.len() == 0 {
        b.len() > 0
    } else if b.len() == 0 {
        false
    } else if a[0] != b[0] {
        a[0] < b[0]
    } else {
        bytes_before(a.drop_first(), b.drop_first())
    }
}

proof fn lemma_before_irreflexive(a: Seq<u8>, b: Seq<u8>)
    requires
        bytes_before(a, b),
    ensures
        !bytes_before(b, a),
        a != b,
    decreases a.len(),
{
    if a.len() > 0 && b.len() > 0 && a[0] == b[0] {
        lemma_before_irreflexive(a.drop_first(), b.drop_first());
    }
}

proof fn lemma_before_transitive(a: Seq<u8>, b: Seq<u8>, c: Seq<u8>)
    requires
        bytes_before(a, b),
        bytes_before(b, c),
    ensures
        bytes_before(a, c),
    decreases a.len(),
{
    if a.len() > 0 && b.len() > 0 && c.len() > 0 && a[0] == b[0] && b[0] == c[0] {
        lemma_before_transitive(a.drop_first(), b.drop_first(), c.drop_first());
    }
}

proof fn lemma_before_total(a: Seq<u8>, b: Seq<u8>)
    requires
        a != b,
    ensures
        bytes_before(a, b) || bytes_before(b, a),
    decreases a.len(),
{
    if a.len() > 0 && b.len() > 0 && a[0] == b[0] {
        if a.drop_first() == b.drop_first() {
            assert(a =~= seq![a[0]] + a.drop_first());
            assert(b =~= seq![b[0]] + b.drop_first());
        }
        lemma_before_total(a.drop_first(), b.drop_first());
    } else if a.len() == 0 && b.len() == 0 {
        assert(a =~= b);
    }
}

/// Compares two byte strings: negative when `a` comes first, zero when they
/// are equal, positive when `b` comes first.
fn compare_bytes(a: &[u8], b: &[u8]) -> (r: i8)
    ensures
        r < 0 <==> bytes_before(a@, b@),
        r == 0 <==> a@ == b@,
        r > 0 <==> bytes_before(b@, a@),
{
    let mut i: usize = 0;
    assert(a@.skip(0) =~= a@);
    assert(b@.skip(0) =~= b@);
    while i < a.len() && i < b.len()
        invariant
            i <= a@.len(),
            i <= b@.len(),
            a@.take(i as int) == b@.take(i as int),
            bytes_before(a@, b@) == bytes_before(a@.skip(i as int), b@.skip(i as int)),
            bytes_before(b@, a@) == bytes_before(b@.skip(i as int), a@.skip(i as int)),
        decreases a@.len() - i,
    {
        proof {
            assert(a@.skip(i as int)[0] == a@[i as int]);
            assert(b@.skip(i as int)[0] == b@[i as int]);
            assert(a@.skip(i as int).drop_first() =~= a@.skip(i + 1));
            assert(b@.skip(i as int).drop_first() =~= b@.skip(i + 1));
        }
        if a[i] < b[i] {
            proof {
                lemma_before_irreflexive(a@, b@);
            }
            return -1;
        }
        if b[i] < a[i] {
            proof {
                lemma_before_irreflexive(b@, a@);
            }
            return 1;
        }
        proof {
            assert(a@.take(i + 1) =~= a@.take(i as int).push(a@[i as int]));
            assert(b@.take(i + 1) =~= b@.take(i as int).push(b@[i as int]));
        }
        i = i + 1;
    }
    if a.len() == b.len() {
        proof {
            assert(a@ =~= a@.take(i as int));
            assert(b@ =~= b@.take(i as int));
        }
        0
    } else if a.len() < b.len() {
        proof {
            lemma_before_irreflexive(a@, b@);
        }
        -1
    } else {
        proof {
            lemma_before_irreflexive(b@, a@);
        }
        1
    }
}

/// Textual identifiers, each known by the position of its first appearance,
/// and looked up in byte order.
pub struct IdIndex {
    ids: Vec<String>,
    order: Vec<usize>,
}

impl IdIndex {
    /// The identifiers, in order of first appearance.
    pub closed spec fn names(&self) -> Seq<Seq<char>> {
        self.ids@.map_values(|s: String| s@)
    }

    closed spec fn key(&self, p: int) -> Seq<u8> {
        encode_utf8(self.ids@[p]@)
    }

    /// The identifiers are distinct, and `order` lists their positions in
    /// byte order.
    pub closed spec fn wf(&self) -> bool {
        &&& self.order@.len() == self.ids@.len()
        &&& forall|k: int| 0 <= k < self.order@.len() ==> #[trigger] self.order@[k] < self.ids@.len()
        &&& forall|a: int, b: int|
            0 <= a < b < self.order@.len() ==> bytes_before(
                self.key(self.order@[a] as int),
                self.key(self.order@[b] as int),
            )
        &&& forall|p: int| 0 <= p < self.ids@.len() ==> #[trigger] self.listed(p)
    }

    /// Position `p` appears in `order`.
    closed spec fn listed(&self, p: int) -> bool {
        exists|k: int| 0 <= k < self.order@.len() && self.order@[k] == p
    }

    /// The identifiers are distinct.
    pub proof fn lemma_distinct(&self)
        requires
            self.wf(),
        ensures
            forall|a: int, b: int|
                0 <= a < b < self.names().len() ==> self.names()[a] != self.names()[b],
    {
        assert forall|a: int, b: int| 0 <= a < b < self.names().len() implies self.names()[a]
            != self.names()[b] by {
            assert(self.listed(a) && self.listed(b));
            let ka = choose|k: int| 0 <= k < self.order@.len() && self.order@[k] == a;
            let kb = choose|k: int| 0 <= k < self.order@.len() && self.order@[k] == b;
            if ka < kb {
                lemma_before_irreflexive(self.key(a), self.key(b));
            } else {
                lemma_before_irreflexive(self.key(b), self.key(a));
            }
        }
    }

    /// An empty index.
    pub fn new() -> (r: IdIndex)
        ensures
            r.wf(),
            r.names().len() == 0,
    {
        let r = IdIndex { ids: Vec::new(), order: Vec::new() };
        assert(r.names() =~= Seq::<Seq<char>>::empty());
        r
    }

    /// Number of identifiers.
    pub fn len(&self) -> (r: usize)
        ensures
            r == self.names().len(),
    {
        self.ids.len()
    }

    /// The identifier at position `k`.
    pub fn name(&self, k: usize) -> (r: &String)
        requires
            k < self.names().len(),
        ensures
            r@ == self.names()[k as int],
    {
        &self.ids[k]
    }

    /// First place in `order` whose identifier does not come before `id`,
    /// and whether that identifier is `id`.
    fn search(&self, id: &str) -> (r: (usize, bool))
        requires
            self.wf(),
        ensures
            r.0 <= self.order@.len(),
            forall|k: int|
                0 <= k < r.0 ==> bytes_before(
                    #[trigger] self.key(self.order@[k] as int),
                    encode_utf8(id@),
                ),
            forall|k: int|
                r.0 <= k < self.order@.len() ==> !bytes_before(
                    #[trigger] self.key(self.order@[k] as int),
                    encode_utf8(id@),
                ),
            r.1 <==> (r.0 < self.order@.len() && self.key(self.order@[r.0 as int] as int)
                == encode_utf8(id@)),
    {
        let probe = id.as_bytes();
        let mut lo: usize = 0;
        let mut hi: usize = self.order.len();
        while lo < hi
            invariant
                self.wf(),
                probe@ == encode_utf8(id@),
                lo <= hi <= self.order@.len(),
                forall|k: int|
                    0 <= k < lo ==> bytes_before(#[trigger] self.key(self.order@[k] as int), probe@),
                forall|k: int|
                    hi <= k < self.order@.len() ==> !bytes_before(
                        #[trigger] self.key(self.order@[k] as int),
                        probe@,
                    ),
            decreases hi - lo,
        {
            let mid = lo + (hi - lo) / 2;
            let p = self.order[mid];
            let c = compare_bytes(self.ids[p].as_str().as_bytes(), probe);
            if c < 0 {
                proof {
                    assert forall|k: int| 0 <= k < mid + 1 implies bytes_before(
                        #[trigger] self.key(self.order@[k] as int),
                        probe@,
                    ) by {
                        if k < mid {
                            lemma_before_transitive(
                                self.key(self.order@[k] as int),
                                self.key(self.order@[mid as int] as int),
                                probe@,
                            );
                        }
                    }
                }
                lo = mid + 1;
            } else {
                proof {
                    assert forall|k: int| mid <= k < self.order@.len() implies !bytes_before(
                        #[trigger] self.key(self.order@[k] as int),
                        probe@,
                    ) by {
                        if k > mid && bytes_before(self.key(self.order@[k] as int), probe@) {
                            lemma_before_transitive(
                                self.key(self.order@[mid as int] as int),
                                self.key(self.order@[k] as int),
                                probe@,
                            );
                        }
                    }
                }
                hi = mid;
            }
        }
        if lo < self.order.len() {
            let p = self.order[lo];
            let c = compare_bytes(self.ids[p].as_str().as_bytes(), probe);
            (lo, c == 0)
        } else {
            (lo, false)
        }
    }

    /// The position of `id`, if it is known.
    pub fn position(&self, id: &str) -> (r: Option<usize>)
        requires
            self.wf(),
        ensures
            match r {
                Some(k) => k < self.names().len() && self.names()[k as int] == id@,
                None => !self.names().contains(id@),
            },
    {
        let (k, found) = self.search(id);
        if found {
            let p = self.order[k];
            proof {
                broadcast use vstd::utf8::encode_utf8_decode_utf8, vstd::utf8::encode_utf8_valid_utf8;

                assert(self.ids@[p as int]@ == decode_utf8(encode_utf8(self.ids@[p as int]@)));
                assert(id@ == decode_utf8(encode_utf8(id@)));
            }
            Some(p)
        } else {
            proof {
                if self.names().contains(id@) {
                    let p = choose|p: int| 0 <= p < self.names().len() && self.names()[p] == id@;
                    assert(self.listed(p));
                    let j = choose|j: int| 0 <= j < self.order@.len() && self.order@[j] == p;
                    assert(self.key(p) == encode_utf8(id@));
                    if j < k {
                        lemma_before_irreflexive(self.key(p), encode_utf8(id@));
                    } else if j > k {
                        lemma_before_total(self.key(self.order@[k as int] as int), encode_utf8(id@));
                        lemma_before_transitive(
                            encode_utf8(id@),
                            self.key(self.order@[k as int] as int),
                            self.key(p),
                        );
                        lemma_before_irreflexive(encode_utf8(id@), encode_utf8(id@));
                    }
                }
            }
            None
        }
    }

    /// The position of `id`, adding it at the end when it is new.
    pub fn intern(&mut self, id: &str) -> (r: usize)
        requires
            old(self).wf(),
        ensures
            final(self).wf(),
            r < final(self).names().len(),
            final(self).names()[r as int] == id@,
            final(self).names() == (if old(self).names().contains(id@) {
                old(self).names()
            } else {
                old(self).names().push(id@)
            }),
    {
        match self.position(id) {
            Some(k) => k,
            None => {
                let (at, _) = self.search(id);
                let ghost before = self.names();
                let ghost order0 = self.order@;
                let ghost ids0 = self.ids@;
                let n = self.ids.len();
                self.ids.push(id.to_owned());
                self.order.insert(at, n);
                proof {
                    assert(self.names() =~= before.push(id@));
                    assert forall|p: int| 0 <= p < ids0.len() implies encode_utf8(ids0[p]@)
                        != encode_utf8(id@) by {
                        broadcast use vstd::utf8::encode_utf8_decode_utf8, vstd::utf8::encode_utf8_valid_utf8;

                        if encode_utf8(ids0[p]@) == encode_utf8(id@) {
                            assert(decode_utf8(encode_utf8(ids0[p]@)) == ids0[p]@);
                            assert(decode_utf8(encode_utf8(id@)) == id@);
                            assert(before[p] == id@);
                        }
                    }
                    assert forall|p: int| 0 <= p < ids0.len() implies #[trigger] self.key(p) == encode_utf8(
                        ids0[p]@,
                    ) by {
                        assert(self.ids@[p] == ids0[p]);
                    }
                    assert(self.key(n as int) == encode_utf8(id@));
                    assert forall|x: int| 0 <= x < ids0.len() implies #[trigger] self.key(x)
                        == old(self).key(x) by {
                        assert(self.ids@[x] == ids0[x]);
                    }
                    assert forall|x: int, y: int| 0 <= x < y < order0.len() implies bytes_before(
                        old(self).key(order0[x] as int),
                        old(self).key(order0[y] as int),
                    ) by {
                        assert(old(self).order@ == order0);
                    }
                    assert forall|k: int| 0 <= k < self.order@.len() implies #[trigger] self.order@[k]
                        < self.ids@.len() by {
                        if k < at {
                            assert(self.order@[k] == order0[k]);
                        } else if k > at {
                            assert(self.order@[k] == order0[k - 1]);
                        }
                    }
                    assert forall|a: int, b: int| 0 <= a < b < self.order@.len() implies bytes_before(
                        self.key(self.order@[a] as int),
                        self.key(self.order@[b] as int),
                    ) by {
                        let probe = encode_utf8(id@);
                        if b < at {
                            assert(self.order@[a] == order0[a] && self.order@[b] == order0[b]);
                            assert(bytes_before(
                                old(self).key(order0[a] as int),
                                old(self).key(order0[b] as int),
                            ));
                        } else if b == at {
                            assert(self.order@[a] == order0[a]);
                            assert(bytes_before(old(self).key(order0[a] as int), probe));
                        } else if a < at {
                            assert(self.order@[a] == order0[a] && self.order@[b] == order0[b - 1]);
                            assert(bytes_before(old(self).key(order0[a] as int), probe));
                            assert(!bytes_before(old(self).key(order0[b - 1] as int), probe));
                            assert(old(self).key(order0[a] as int) == self.key(order0[a] as int));
                            assert(old(self).key(order0[b - 1] as int) == self.key(
                                order0[b - 1] as int,
                            ));
                            lemma_before_total(self.key(order0[b - 1] as int), probe);
                            lemma_before_transitive(
                                self.key(order0[a] as int),
                                probe,
                                self.key(order0[b - 1] as int),
                            );
                        } else if a == at {
                            assert(self.order@[b] == order0[b - 1]);
                            assert(!bytes_before(old(self).key(order0[b - 1] as int), probe));
                            assert(old(self).key(order0[b - 1] as int) == self.key(
                                order0[b - 1] as int,
                            ));
                            lemma_before_total(self.key(order0[b - 1] as int), probe);
                        } else {
                            assert(self.order@[a] == order0[a - 1] && self.order@[b] == order0[b - 1]);
                            assert(bytes_before(
                                old(self).key(order0[a - 1] as int),
                                old(self).key(order0[b - 1] as int),
                            ));
                        }
                    }
                    assert forall|p: int| 0 <= p < self.ids@.len() implies #[trigger] self.listed(p) by {
                        if p == n {
                            assert(self.order@[at as int] == p);
                        } else {
                            assert(old(self).listed(p));
                            let k = choose|k: int| 0 <= k < order0.len() && order0[k] == p;
                            if k < at {
                                assert(self.order@[k] == p);
                            } else {
                                assert(self.order@[k + 1] == p);
                            }
                        }
                    }
                }
                n
            },
        }
    }
}

/// The distinct values of `s`, in order of first appearance.
pub open spec fn first_appearances(s: Seq<Seq<char>>) -> Seq<Seq<char>>
    decreases s.len(),
{
    if s.len() == 0 {
        Seq::empty()
    } else {
        let prev = first_appearances(s.drop_last());
        if prev.contains(s.last()) {
            prev
        } else {
            prev.push(s.last())
        }
    }
}

/// The values of `s` occur in `first_appearances(s)`, each once.
pub proof fn lemma_first_appearances(s: Seq<Seq<char>>)
    ensures
        forall|x: Seq<char>| #[trigger] first_appearances(s).contains(x) == s.contains(x),
        forall|a: int, b: int|
            0 <= a < b < first_appearances(s).len() ==> first_appearances(s)[a]
                != first_appearances(s)[b],
        first_appearances(s).len() <= s.len(),
    decreases s.len(),
{
    if s.len() > 0 {
        let t = s.drop_last();
        lemma_first_appearances(t);
        let prev = first_appearances(t);
        assert forall|x: Seq<char>| #[trigger] first_appearances(s).contains(x) == s.contains(x) by {
            if s.contains(x) && x != s.last() {
                let j = choose|j: int| 0 <= j < s.len() && s[j] == x;
                assert(t[j] == x);
            }
            if t.contains(x) {
                let j = choose|j: int| 0 <= j < t.len() && t[j] == x;
                assert(s[j] == x);
            }
            if !prev.contains(s.last()) {
                assert(first_appearances(s).last() == s.last());
                if prev.contains(x) {
                    let j = choose|j: int| 0 <= j < prev.len() && prev[j] == x;
                    assert(first_appearances(s)[j] == x);
                }
                if first_appearances(s).contains(x) && x != s.last() {
                    let j = choose|j: int|
                        0 <= j < first_appearances(s).len() && first_appearances(s)[j] == x;
                    assert(prev[j] == x);
                }
            }
            assert(s[s.len() - 1] == s.last());
        }
    }
}

/// The user IDs of the records, in record order.
pub open spec fn user_ids_of(records: Seq<Record>) -> Seq<Seq<char>> {
    records.map_values(|rec: Record| rec.0@)
}

/// The item IDs of the records, in record order.
pub open spec fn item_ids_of(records: Seq<Record>) -> Seq<Seq<char>> {
    records.map_values(|rec: Record| rec.1@)
}

/// Some row names position `p` as its user.
spec fn user_used(rows: Seq<(u32, u32, Rating)>, p: int) -> bool {
    exists|j: int| 0 <= j < rows.len() && rows[j].0 == p
}

/// Some row names position `p` as its item.
spec fn item_used(rows: Seq<(u32, u32, Rating)>, p: int) -> bool {
    exists|j: int| 0 <= j < rows.len() && rows[j].1 == p
}

/// A sorted list of identifiers that holds exactly those below `m` is
/// `0, 1, ..., m - 1`.
proof fn lemma_ids_exactly(s: Seq<u32>, m: int)
    requires
        crate::data::ids_sorted(s),
        0 <= m <= u32::MAX,
        forall|x: u32| #[trigger] s.contains(x) == (x < m),
    ensures
        s.len() == m,
{
    assert forall|i: int| 0 <= i < s.len() implies s[i] == i by {
        lemma_id_at(s, m, i);
    }
    if s.len() > 0 {
        assert(s.contains(s[s.len() - 1]));
        assert(s[s.len() - 1] == s.len() - 1);
    }
    if m > s.len() {
        assert(s.len() < m);
        let x = s.len() as u32;
        assert(s.contains(x));
        let j = choose|j: int| 0 <= j < s.len() && s[j] == x;
        assert(s[j] == j);
    }
}

proof fn lemma_id_at(s: Seq<u32>, m: int, i: int)
    requires
        crate::data::ids_sorted(s),
        forall|x: u32| #[trigger] s.contains(x) == (x < m),
        0 <= i < s.len(),
    ensures
        s[i] == i,
    decreases i,
{
    if i > 0 {
        lemma_id_at(s, m, i - 1);
    }
    assert(s.contains(s[i]));
    if s[i] > i {
        let x = i as u32;
        assert(s.contains(x));
        let j = choose|j: int| 0 <= j < s.len() && s[j] == x;
        if j < i {
            lemma_id_at(s, m, j);
        }
    }
}

/// K-nearest neighbours user based recommender, over text IDs.
pub struct KnnUserRecommender {
    users: IdIndex,
    items: IdIndex,
    inner: KNNUserRecommender<BasicDataHandler>,
}

/// The `(user, item, rating)` rows that `records` become once each ID is
/// replaced by its position.
pub open spec fn indexed_rows(
    users: Seq<Seq<char>>,
    items: Seq<Seq<char>>,
    records: Seq<Record>,
) -> Seq<(u32, u32, Rating)> {
    records.map_values(
        |rec: Record|
            (users.index_of(rec.0@) as u32, items.index_of(rec.1@) as u32, rec.2),
    )
}

impl KnnUserRecommender {
    /// The user IDs, by position.
    pub closed spec fn user_names(&self) -> Seq<Seq<char>> {
        self.users.names()
    }

    /// The item IDs, by position.
    pub closed spec fn item_names(&self) -> Seq<Seq<char>> {
        self.items.names()
    }

    /// The recommender over positions.
    pub closed spec fn model(&self) -> KNNUserRecommender<BasicDataHandler> {
        self.inner
    }

    pub closed spec fn wf(&self) -> bool {
        &&& self.users.wf()
        &&& self.items.wf()
        &&& self.inner.wf()
        &&& self.users.names().len() < u32::MAX
        &&& self.items.names().len() < u32::MAX
        &&& forall|x: u32| #[trigger]
            self.inner.model().store().has_user(x) == (x < self.users.names().len())
        &&& forall|x: u32| #[trigger]
            self.inner.model().store().has_item(x) == (x < self.items.names().len())
    }

    /// A well-formed recommender has distinct user IDs and distinct item
    /// IDs, and its store knows exactly their positions as users and items.
    pub proof fn lemma_wf(&self)
        requires
            self.wf(),
        ensures
            self.model().wf(),
            self.user_names().len() < u32::MAX,
            self.item_names().len() < u32::MAX,
            forall|a: int, b: int|
                0 <= a < b < self.user_names().len() ==> self.user_names()[a]
                    != self.user_names()[b],
            forall|a: int, b: int|
                0 <= a < b < self.item_names().len() ==> self.item_names()[a]
                    != self.item_names()[b],
            forall|x: u32| #[trigger]
                self.model().model().store().has_user(x) == (x < self.user_names().len()),
            forall|x: u32| #[trigger]
                self.model().model().store().has_item(x) == (x < self.item_names().len()),
            self.model().model().store().users().len() == self.user_names().len(),
            self.model().model().store().items().len() == self.item_names().len(),
    {
        self.users.lemma_distinct();
        self.items.lemma_distinct();
        let d = self.inner.model().store();
        self.inner.model().lemma_store();
        d.lemma_wf();
        assert forall|x: u32| #[trigger]
            d.users().contains(x) == (x < self.users.names().len()) by {
            assert(d.has_user(x) == (x < self.users.names().len()));
        }
        assert forall|x: u32| #[trigger]
            d.items().contains(x) == (x < self.items.names().len()) by {
            assert(d.has_item(x) == (x < self.items.names().len()));
        }
        lemma_ids_exactly(d.users(), self.users.names().len() as int);
        lemma_ids_exactly(d.items(), self.items.names().len() as int);
    }

    /// Constructs a new recommender from a slice of records: users and items
    /// are numbered in order of first appearance.
    pub fn from_records(records: &Vec<Record>, similarity: Metric, n_neighbors: usize) -> (r: Self)
        requires
            records@.len() < u32::MAX,
        ensures
            r.wf(),
            r.user_names() == first_appearances(user_ids_of(records@)),
            r.item_names() == first_appearances(item_ids_of(records@)),
            forall|x: u32| #[trigger]
                r.model().model().store().has_user(x) == (x < r.user_names().len()),
            forall|x: u32| #[trigger]
                r.model().model().store().has_item(x) == (x < r.item_names().len()),
            r.model().model().store().users().len() == r.user_names().len(),
            r.model().model().store().items().len() == r.item_names().len(),
            forall|s: Seq<char>| #[trigger]
                r.user_names().contains(s) == (exists|k: int|
                    0 <= k < records@.len() && records@[k].0@ == s),
            forall|s: Seq<char>| #[trigger]
                r.item_names().contains(s) == (exists|k: int|
                    0 <= k < records@.len() && records@[k].1@ == s),
            r.model().model().store().ratings() == ratings_of(
                indexed_rows(r.user_names(), r.item_names(), records@),
            ),
            r.model().model().metric() == similarity,
            r.model().model().selection() == crate::recommender::Selection::Nearest(n_neighbors),
    {
        let mut users = IdIndex::new();
        let mut items = IdIndex::new();
        let mut rows: Vec<(u32, u32, Rating)> = Vec::new();
        let mut k: usize = 0;
        while k < records.len()
            invariant
                k <= records@.len(),
                records@.len() < u32::MAX,
                users.wf(),
                items.wf(),
                users.names().len() <= k,
                items.names().len() <= k,
                rows@.len() == k,
                users.names() == first_appearances(user_ids_of(records@).take(k as int)),
                items.names() == first_appearances(item_ids_of(records@).take(k as int)),
                forall|p: int| 0 <= p < users.names().len() ==> #[trigger] user_used(rows@, p),
                forall|p: int| 0 <= p < items.names().len() ==> #[trigger] item_used(rows@, p),
                forall|s: Seq<char>| #[trigger]
                    users.names().contains(s) == (exists|j: int|
                        0 <= j < k && records@[j].0@ == s),
                forall|s: Seq<char>| #[trigger]
                    items.names().contains(s) == (exists|j: int|
                        0 <= j < k && records@[j].1@ == s),
                forall|j: int|
                    0 <= j < k ==> users.names()[(#[trigger] rows@[j]).0 as int] == records@[j].0@
                        && items.names()[rows@[j].1 as int] == records@[j].1@ && rows@[j].2
                        == records@[j].2 && rows@[j].0 < users.names().len() && rows@[j].1
                        < items.names().len(),
            decreases records@.len() - k,
        {
            let ghost u0 = users.names();
            let ghost i0 = items.names();
            let u = users.intern(records[k].0.as_str());
            let i = items.intern(records[k].1.as_str());
            let ghost rows0 = rows@;
            rows.push((u as u32, i as u32, records[k].2));
            proof {
                let us = user_ids_of(records@);
                let is = item_ids_of(records@);
                assert(us.take(k + 1).drop_last() =~= us.take(k as int));
                assert(is.take(k + 1).drop_last() =~= is.take(k as int));
                assert(us.take(k + 1).last() == records@[k as int].0@);
                assert(is.take(k + 1).last() == records@[k as int].1@);
                assert forall|p: int| 0 <= p < users.names().len() implies #[trigger] user_used(
                    rows@,
                    p,
                ) by {
                    if p < u0.len() {
                        assert(user_used(rows0, p));
                        let j = choose|j: int| 0 <= j < rows0.len() && rows0[j].0 == p;
                        assert(rows@[j] == rows0[j]);
                    } else {
                        assert(!u0.contains(records@[k as int].0@));
                        if u < u0.len() {
                            assert(u0[u as int] == records@[k as int].0@);
                        }
                        assert(rows@[k as int].0 == p);
                    }
                }
                assert forall|p: int| 0 <= p < items.names().len() implies #[trigger] item_used(
                    rows@,
                    p,
                ) by {
                    if p < i0.len() {
                        assert(item_used(rows0, p));
                        let j = choose|j: int| 0 <= j < rows0.len() && rows0[j].1 == p;
                        assert(rows@[j] == rows0[j]);
                    } else {
                        assert(!i0.contains(records@[k as int].1@));
                        if i < i0.len() {
                            assert(i0[i as int] == records@[k as int].1@);
                        }
                        assert(rows@[k as int].1 == p);
                    }
                }
                assert forall|j: int| 0 <= j < k + 1 implies users.names()[(
                #[trigger] rows@[j]).0 as int] == records@[j].0@ && items.names()[rows@[j].1 as int]
                    == records@[j].1@ && rows@[j].2 == records@[j].2 && rows@[j].0
                    < users.names().len() && rows@[j].1 < items.names().len() by {
                    if j < k {
                        if !u0.contains(records@[k as int].0@) {
                            assert(users.names()[rows@[j].0 as int] == u0[rows@[j].0 as int]);
                        }
                        if !i0.contains(records@[k as int].1@) {
                            assert(items.names()[rows@[j].1 as int] == i0[rows@[j].1 as int]);
                        }
                    }
                }
                assert forall|s: Seq<char>| #[trigger]
                    users.names().contains(s) == (exists|j: int|
                        0 <= j < k + 1 && records@[j].0@ == s) by {
                    if users.names().contains(s) && !u0.contains(s) {
                        let p = choose|p: int| 0 <= p < users.names().len() && users.names()[p] == s;
                        assert(p == u0.len());
                    }
                    if u0.contains(s) {
                        let p = choose|p: int| 0 <= p < u0.len() && u0[p] == s;
                        assert(users.names()[p] == s);
                    }
                    if exists|j: int| 0 <= j < k + 1 && records@[j].0@ == s {
                        let j = choose|j: int| 0 <= j < k + 1 && records@[j].0@ == s;
                        if j == k {
                            assert(users.names()[u as int] == s);
                        }
                    }
                }
                assert forall|s: Seq<char>| #[trigger]
                    items.names().contains(s) == (exists|j: int|
                        0 <= j < k + 1 && records@[j].1@ == s) by {
                    if items.names().contains(s) && !i0.contains(s) {
                        let p = choose|p: int| 0 <= p < items.names().len() && items.names()[p] == s;
                        assert(p == i0.len());
                    }
                    if i0.contains(s) {
                        let p = choose|p: int| 0 <= p < i0.len() && i0[p] == s;
                        assert(items.names()[p] == s);
                    }
                    if exists|j: int| 0 <= j < k + 1 && records@[j].1@ == s {
                        let j = choose|j: int| 0 <= j < k + 1 && records@[j].1@ == s;
                        if j == k {
                            assert(items.names()[i as int] == s);
                        }
                    }
                }
            }
            k = k + 1;
        }
        proof {
            assert(user_ids_of(records@).take(records@.len() as int) =~= user_ids_of(records@));
            assert(item_ids_of(records@).take(records@.len() as int) =~= item_ids_of(records@));
            users.lemma_distinct();
            items.lemma_distinct();
            let un = users.names();
            let inames = items.names();
            let expected = indexed_rows(un, inames, records@);
            assert forall|j: int| 0 <= j < records@.len() implies #[trigger] rows@[j] == expected[j] by {
                let p = rows@[j].0 as int;
                let q = rows@[j].1 as int;
                assert(un.contains(records@[j].0@));
                let a = un.index_of(records@[j].0@);
                if a != p {
                    assert(un[a] == un[p]);
                }
                assert(inames.contains(records@[j].1@));
                let b = inames.index_of(records@[j].1@);
                if b != q {
                    assert(inames[b] == inames[q]);
                }
            }
            assert(rows@ =~= expected);
        }
        let data = BasicDataHandler::from_ratings(&rows);
        let inner = KNNUserRecommender::new(data, n_neighbors, similarity);
        proof {
            assert forall|x: u32| #[trigger]
                inner.model().store().has_item(x) == (x < items.names().len()) by {
                if inner.model().store().has_item(x) {
                    let j = choose|j: int| 0 <= j < rows@.len() && rows@[j].1 == x;
                    assert(rows@[j].1 < items.names().len());
                }
                if x < items.names().len() {
                    assert(item_used(rows@, x as int));
                }
            }
            assert forall|x: u32| #[trigger]
                inner.model().store().has_user(x) == (x < users.names().len()) by {
                if inner.model().store().has_user(x) {
                    let j = choose|j: int| 0 <= j < rows@.len() && rows@[j].0 == x;
                    assert(rows@[j].0 < users.names().len());
                }
                if x < users.names().len() {
                    assert(user_used(rows@, x as int));
                }
            }
        }
        let r = KnnUserRecommender { users, items, inner };
        proof {
            r.lemma_wf();
        }
        r
    }

    /// Predicts the rating for an item given by an user.
    ///
    /// Returns an error if the user or item IDs could not be found or if no
    /// neighbour has a positive total similarity.
    pub fn predict(&self, user_id: &str, item_id: &str) -> (r: Result<i128, PredictError>)
        requires
            self.wf(),
        ensures
            (r == Err::<i128, PredictError>(PredictError::UserNotFound)) == !self.user_names().contains(
                user_id@,
            ),
            self.user_names().contains(user_id@) ==> ((r == Err::<i128, PredictError>(
                PredictError::ItemNotFound)) == !self.item_names().contains(item_id@)),
            self.user_names().contains(user_id@) && self.item_names().contains(item_id@) ==> r
                == self.model().model().predict_result(
                self.user_names().index_of(user_id@) as u32,
                self.item_names().index_of(item_id@) as u32,
            ),
    {
        let u = match self.users.position(user_id) {
            Some(k) => k,
            None => {
                return Err(PredictError::UserNotFound);
            },
        };
        let i = match self.items.position(item_id) {
            Some(k) => k,
            None => {
                return Err(PredictError::ItemNotFound);
            },
        };
        proof {
            self.lemma_wf();
            assert(self.inner.model().store().has_user(u as u32));
            assert(self.inner.model().store().has_item(i as u32));
            let un = self.users.names();
            let a = un.index_of(user_id@);
            if a != u {
                assert(un[a] == un[u as int]);
            }
            let inames = self.items.names();
            let b = inames.index_of(item_id@);
            if b != i {
                assert(inames[b] == inames[i as int]);
            }
        }
        self.inner.predict(u as u32, i as u32)
    }

    /// Recommends the items the user has not rated, with their predicted
    /// ratings, by decreasing prediction; empty for an unknown user. Equal
    /// predictions are ordered by the items' positions of first appearance,
    /// the later-appearing item first. Each item comes at most once.
    pub fn recommend(&self, user_id: &str) -> (r: Vec<(String, i128)>)
        requires
            self.wf(),
        ensures
            !self.user_names().contains(user_id@) ==> r@.len() == 0,
            forall|a: int, b: int| 0 <= a < b < r@.len() ==> r@[a].0@ != r@[b].0@,
            self.user_names().contains(user_id@) ==> exists|rec: Seq<(u32, i128)>|
                #[trigger] self.model().model().is_recommendation(
                    self.user_names().index_of(user_id@) as u32,
                    rec,
                ) && rec.len() == r@.len() && forall|j: int|
                    0 <= j < rec.len() ==> (#[trigger] r@[j]).0@ == self.item_names()[rec[j].0 as int]
                        && r@[j].1 == rec[j].1,
    {
        let mut out: Vec<(String, i128)> = Vec::new();
        let u = match self.users.position(user_id) {
            Some(k) => k,
            None => {
                return out;
            },
        };
        proof {
            self.users.lemma_distinct();
            let un = self.users.names();
            let a = un.index_of(user_id@);
            if a != u {
                assert(un[a] == un[u as int]);
            }
        }
        let rec = self.inner.recommend(u as u32);
        let mut j: usize = 0;
        while j < rec.len()
            invariant
                self.wf(),
                self.model().model().is_recommendation(u as u32, rec@),
                j <= rec@.len(),
                out@.len() == j,
                forall|x: int|
                    0 <= x < j ==> (#[trigger] out@[x]).0@ == self.item_names()[rec@[x].0 as int]
                        && out@[x].1 == rec@[x].1,
            decreases rec@.len() - j,
        {
            let (item, p) = rec[j];
            proof {
                assert(self.model().model().recommendable(u as u32, rec@[j as int].0));
                assert(self.inner.model().store().has_item(item));
            }
            let name = self.items.name(item as usize).clone();
            out.push((name, p));
            j = j + 1;
        }
        proof {
            self.lemma_wf();
            let m = self.model().model();
            let uu = u as u32;
            assert forall|a: int, b: int| 0 <= a < b < out@.len() implies out@[a].0@
                != out@[b].0@ by {
                assert(m.recommendable(uu, rec@[a].0));
                assert(m.recommendable(uu, rec@[b].0));
                assert(crate::recommender::ranked_before(rec@[a], rec@[b]));
                if rec@[a].0 == rec@[b].0 {
                    assert(m.prediction(uu, rec@[a].0) == Some(rec@[a].1 as int));
                    assert(m.prediction(uu, rec@[b].0) == Some(rec@[b].1 as int));
                }
                assert(self.inner.model().store().has_item(rec@[a].0));
                assert(self.inner.model().store().has_item(rec@[b].0));
                assert(rec@[a].0 < self.item_names().len());
                assert(rec@[b].0 < self.item_names().len());
            }
        }
        out
    }
}

} // verus!
