//! The data model of the Live services, the leaderboard batching queue and
//! the script settings of club rooms.
use vstd::prelude::*;
use crate::text::{bool_text, bool_to_string, i64_to_string, int_decimal, texts};

verus! {

/// The membership record of an account in a club.
#[allow(non_snake_case)]
#[derive(Debug, Clone)]
pub struct ClubMember {
    pub accountId: String,
    pub clubId: i32,
    pub role: String,
    pub creationTimestamp: i64,
    pub vip: bool,
    pub moderator: bool,
    pub hasFeatured: bool,
    pub pin: bool,
    pub useTag: bool,
}

impl ClubMember {
    /// returns true if the user has joined the club
    pub fn is_a_member(&self) -> (r: bool)
        ensures
            r == (self.role@.len() != 0),
    {
        !self.role.as_str().is_empty()
    }

    /// returns true if the user role in the club is Member
    pub fn is_member(&self) -> (r: bool)
        ensures
            r == (self.role@ == "Member"@),
    {
        self.role == "Member".to_owned()
    }

    /// returns true if the user role in the club is Admin
    pub fn is_admin(&self) -> (r: bool)
        ensures
            r == (self.role@ == "Admin"@),
    {
        self.role == "Admin".to_owned()
    }

    /// returns true if the user role in the club is Creator
    pub fn is_creator(&self) -> (r: bool)
        ensures
            r == (self.role@ == "Creator"@),
    {
        self.role == "Creator".to_owned()
    }

    /// returns true if the user is an admin or the creator of the club
    pub fn is_any_admin(&self) -> (r: bool)
        ensures
            r == (self.role@ == "Admin"@ || self.role@ == "Creator"@),
    {
        self.is_admin() || self.is_creator()
    }

    /// returns true if the user is the creator of the club
    pub fn is_limited_admin(&self) -> (r: bool)
        ensures
            r == (self.role@ == "Creator"@),
    {
        self.is_creator()
    }
}


/// A score and the global leaderboard position it gives, if any.
#[derive(Debug, Clone, Copy, PartialEq, Eq)]
pub struct ScoreToPos {
    pub score: i64,
    pub pos: Option<i32>,
}

impl ScoreToPos {
    /// The score and the position as a pair.
    pub fn get_s_p(&self) -> (r: (i64, Option<i32>))
        ensures
            r == (self.score, self.pos),
    {
        (self.score, self.pos)
    }
}

/// get_lb_positions_by_time response types
#[allow(non_snake_case)]
#[derive(Debug, Clone)]
pub struct RecordsByTime {
    pub groupUid: String,
    pub mapUid: String,
    pub score: i64,
    pub zones: Vec<RecordsByTime_Zone>,
}

#[allow(non_snake_case, non_camel_case_types)]
#[derive(Debug, Clone)]
pub struct RecordsByTime_Zone {
    pub zoneId: String,
    pub zoneName: String,
    pub ranking: RecordsByTime_ZoneRanking,
}

#[allow(non_snake_case, non_camel_case_types)]
#[derive(Debug, Clone, Copy)]
pub struct RecordsByTime_ZoneRanking {
    pub position: i32,
    pub length: i32,
}

/// The global position of a record: the position in its first zone, if it has one.
pub open spec fn global_pos(r: RecordsByTime) -> Option<i32> {
    if r.zones@.len() > 0 {
        Some(r.zones@[0].ranking.position)
    } else {
        None
    }
}

impl RecordsByTime {
    /// The position in the first zone (World), if any.
    pub fn get_global_pos(&self) -> (r: Option<i32>)
        ensures
            r == global_pos(*self),
    {
        if self.zones.len() > 0 {
            Some(self.zones[0].ranking.position)
        } else {
            None
        }
    }
}

/// A record's global position is the position in the first of its zones whenever it has a
/// zone at all, and there is none only for a record without zones.
pub proof fn lemma_global_pos_first_zone(r: RecordsByTime)
    ensures
        r.zones@.len() > 0 ==> global_pos(r) == Some(r.zones@[0].ranking.position),
        global_pos(r) is None <==> r.zones@.len() == 0,
{
}

/// The number of requests a batch of a queue with `n` map uids takes, for a given limit: one
/// request per map uid, at least one if any is queued.
pub open spec fn batch_len(n: nat, limit: nat) -> nat {
    if n == 0 {
        0
    } else if limit == 0 {
        1
    } else if limit < n {
        limit
    } else {
        n
    }
}

/// The hasher state of ahash's maps, declared so that such a map can be a field.
#[verifier::external_type_specification]
#[verifier::external_body]
pub struct ExAhashRandomState(ahash::RandomState);

/// The queued (score, ticket) pairs of each map uid that a queue's map holds.
pub uninterp spec fn uid_queue_entries(q: ahash::HashMap<String, Vec<(i64, u64)>>) -> Map<Seq<char>, Seq<(i64, u64)>>;

/// An empty map (`HashMap::default`, with ahash's `RandomState`). Trusted: it holds nothing.
#[verifier::external_body]
fn queue_empty() -> (r: ahash::HashMap<String, Vec<(i64, u64)>>)
    ensures
        uid_queue_entries(r) =~= Map::empty(),
{
    ahash::HashMap::default()
}

/// `remove`: takes a map uid's entry out of the map. Trusted: the entry, if there was one,
/// and the map without it.
#[verifier::external_body]
fn queue_take_entry(q: &mut ahash::HashMap<String, Vec<(i64, u64)>>, uid: &String) -> (r: Option<Vec<(i64, u64)>>)
    ensures
        uid_queue_entries(*final(q)) == uid_queue_entries(*old(q)).remove(uid@),
        uid_queue_entries(*old(q)).dom().contains(uid@) ==> (r matches Some(v) && v@ == uid_queue_entries(*old(q))[uid@]),
        !uid_queue_entries(*old(q)).dom().contains(uid@) ==> r is None,
{
    q.remove(uid)
}

/// `insert`: the map uid's entry becomes `v`. Trusted: nothing else changes.
#[verifier::external_body]
fn queue_put_entry(q: &mut ahash::HashMap<String, Vec<(i64, u64)>>, uid: String, v: Vec<(i64, u64)>)
    ensures
        uid_queue_entries(*final(q)) == uid_queue_entries(*old(q)).insert(uid@, v@),
{
    q.insert(uid, v);
}

/// Appends a pair to the entry of a map uid, creating the entry if there is none.
fn queue_push_pair(q: &mut ahash::HashMap<String, Vec<(i64, u64)>>, uid: &str, pair: (i64, u64))
    ensures
        uid_queue_entries(*final(q)) == uid_queue_entries(*old(q)).insert(
            uid@,
            (if uid_queue_entries(*old(q)).dom().contains(uid@) {
                uid_queue_entries(*old(q))[uid@].push(pair)
            } else {
                seq![pair]
            }),
        ),
{
    let key = uid.to_owned();
    let mut v = match queue_take_entry(q, &key) {
        Some(v) => v,
        None => Vec::new(),
    };
    v.push(pair);
    queue_put_entry(q, key, v);
    proof {
        assert(uid_queue_entries(*q) =~= uid_queue_entries(*old(q)).insert(
            uid@,
            (if uid_queue_entries(*old(q)).dom().contains(uid@) {
                uid_queue_entries(*old(q))[uid@].push(pair)
            } else {
                seq![pair]
            }),
        ));
    }
}

/// The map uids, in the order in which the map walks its keys (`keys`). Trusted: each map
/// uid of the map exactly once; the order depends on the map's random seed and is not stated.
#[verifier::external_body]
fn queue_uids(q: &ahash::HashMap<String, Vec<(i64, u64)>>) -> (r: Vec<String>)
    ensures
        texts(r@).no_duplicates(),
        texts(r@).to_set() == uid_queue_entries(*q).dom(),
{
    q.keys().cloned().collect()
}

/// Takes the newest pair of a map uid's entry, and says whether the entry is left empty.
/// `None`, and no change, when there is no entry or it is empty.
fn queue_pop_pair(q: &mut ahash::HashMap<String, Vec<(i64, u64)>>, uid: &String) -> (r: Option<((i64, u64), bool)>)
    ensures
        ({
            let e = uid_queue_entries(*old(q));
            if e.dom().contains(uid@) && e[uid@].len() > 0 {
                &&& r == Some((e[uid@].last(), e[uid@].len() == 1))
                &&& uid_queue_entries(*final(q)) == e.insert(uid@, e[uid@].drop_last())
            } else {
                &&& r is None
                &&& uid_queue_entries(*final(q)) == e
            }
        }),
{
    let ghost e = uid_queue_entries(*q);
    match queue_take_entry(q, uid) {
        None => {
            proof {
                assert(uid_queue_entries(*q) =~= e);
            }
            None
        },
        Some(mut v) => {
            let popped = v.pop();
            let now_empty = v.len() == 0;
            queue_put_entry(q, uid.clone(), v);
            proof {
                if e[uid@].len() == 0 {
                    assert(uid_queue_entries(*q) =~= e);
                } else {
                    assert(uid_queue_entries(*q) =~= e.insert(uid@, e[uid@].drop_last()));
                }
            }
            match popped {
                Some(p) => Some((p, now_empty)),
                None => None,
            }
        },
    }
}

/// Removes the entry of a map uid.
fn queue_remove_uid(q: &mut ahash::HashMap<String, Vec<(i64, u64)>>, uid: &String)
    ensures
        uid_queue_entries(*final(q)) == uid_queue_entries(*old(q)).remove(uid@),
{
    let _ = queue_take_entry(q, uid);
}


/// The number of pairs queued for the map uids `ks`.
pub open spec fn queued_total(m: Map<Seq<char>, Seq<(i64, u64)>>, ks: Seq<Seq<char>>) -> nat
    decreases ks.len(),
{
    if ks.len() == 0 {
        0
    } else {
        queued_total(m, ks.drop_last()) + m[ks.last()].len()
    }
}

proof fn lemma_total_congr(m1: Map<Seq<char>, Seq<(i64, u64)>>, m2: Map<Seq<char>, Seq<(i64, u64)>>, ks: Seq<Seq<char>>)
    requires
        forall|i: int| 0 <= i < ks.len() ==> m1[#[trigger] ks[i]].len() == m2[ks[i]].len(),
    ensures
        queued_total(m1, ks) == queued_total(m2, ks),
    decreases ks.len(),
{
    if ks.len() > 0 {
        let p = ks.drop_last();
        assert forall|i: int| 0 <= i < p.len() implies m1[#[trigger] p[i]].len() == m2[p[i]].len() by {
            assert(p[i] == ks[i]);
        }
        lemma_total_congr(m1, m2, p);
        assert(ks.last() == ks[ks.len() - 1]);
    }
}

proof fn lemma_total_split(m: Map<Seq<char>, Seq<(i64, u64)>>, ks: Seq<Seq<char>>, j: int)
    requires
        0 <= j < ks.len(),
    ensures
        queued_total(m, ks) == queued_total(m, ks.remove(j)) + m[ks[j]].len(),
    decreases ks.len(),
{
    if j == ks.len() - 1 {
        assert(ks.remove(j) =~= ks.drop_last());
    } else {
        lemma_total_split(m, ks.drop_last(), j);
        assert(ks.remove(j).drop_last() =~= ks.drop_last().remove(j));
        assert(ks.remove(j).last() == ks.last());
    }
}

/// The entries left once the newest pair of each map uid in `taken` is handed out: those
/// entries lose their last pair, and go when it was their only one.
pub open spec fn after_taking(e: Map<Seq<char>, Seq<(i64, u64)>>, taken: Set<Seq<char>>) -> Map<Seq<char>, Seq<(i64, u64)>> {
    Map::new(
        |k: Seq<char>| e.dom().contains(k) && !(taken.contains(k) && e[k].len() == 1),
        |k: Seq<char>| if taken.contains(k) { e[k].drop_last() } else { e[k] },
    )
}

/// The map uids of a batch.
pub open spec fn batch_uids(r: Seq<(String, i64, u64)>) -> Seq<Seq<char>> {
    r.map_values(|t: (String, i64, u64)| t.0@)
}

/// The queue of leaderboard position requests waiting to be sent in a batch.
/// Each request carries a ticket, by which its answer is handed back.
pub struct BatcherLbPosByTimeQueue {
    /// The queued (score, ticket) pairs of each map uid, oldest first.
    pub queue: ahash::HashMap<String, Vec<(i64, u64)>>,
    pub nb_queued: usize,
    pub nb_in_progress: usize,
    /// The number of batches taken so far.
    pub nb_batches: usize,
    /// The number of requests taken in batches so far.
    pub nb_batched: usize,
    /// The map uids of the queue, each once.
    pub uid_list: Ghost<Seq<Seq<char>>>,
}

impl BatcherLbPosByTimeQueue {
    /// Each map uid of the queue has at least one request, and `nb_queued` counts them all.
    pub open spec fn well_formed(&self) -> bool {
        let e = uid_queue_entries(self.queue);
        &&& self.uid_list@.no_duplicates()
        &&& self.uid_list@.to_set() == e.dom()
        &&& forall|k: Seq<char>| e.dom().contains(k) ==> #[trigger] e[k].len() > 0
        &&& self.nb_queued == queued_total(e, self.uid_list@)
    }

    /// An empty queue.
    pub fn new() -> (r: Self)
        ensures
            r.well_formed(),
            uid_queue_entries(r.queue) == Map::<Seq<char>, Seq<(i64, u64)>>::empty(),
            r.nb_queued == 0,
            r.nb_in_progress == 0,
            r.nb_batches == 0,
            r.nb_batched == 0,
    {
        let r = BatcherLbPosByTimeQueue {
            queue: queue_empty(),
            nb_queued: 0,
            nb_in_progress: 0,
            nb_batches: 0,
            nb_batched: 0,
            uid_list: Ghost(Seq::empty()),
        };
        proof {
            assert(r.uid_list@.to_set() =~= Set::<Seq<char>>::empty());
        }
        r
    }

    /// Queues a request for a map uid, with the ticket by which its answer is handed back.
    pub fn push(&mut self, map_uid: &str, score: i64, ticket: u64)
        requires
            old(self).well_formed(),
            old(self).nb_queued < usize::MAX,
        ensures
            final(self).well_formed(),
            uid_queue_entries(final(self).queue) == uid_queue_entries(old(self).queue).insert(
                map_uid@,
                (if uid_queue_entries(old(self).queue).dom().contains(map_uid@) {
                    uid_queue_entries(old(self).queue)[map_uid@].push((score, ticket))
                } else {
                    seq![(score, ticket)]
                }),
            ),
            final(self).nb_queued == old(self).nb_queued + 1,
            final(self).nb_in_progress == old(self).nb_in_progress,
            final(self).nb_batches == old(self).nb_batches,
            final(self).nb_batched == old(self).nb_batched,
    {
        let ghost e = uid_queue_entries(self.queue);
        let ghost ks = self.uid_list@;
        let ghost present = e.dom().contains(map_uid@);
        self.nb_queued = self.nb_queued + 1;
        queue_push_pair(&mut self.queue, map_uid, (score, ticket));
        proof {
            let e2 = uid_queue_entries(self.queue);
            if present {
                assert(ks.to_set().contains(map_uid@));
                let j = choose|j: int| 0 <= j < ks.len() && ks[j] == map_uid@;
                lemma_total_split(e, ks, j);
                lemma_total_split(e2, ks, j);
                let rest = ks.remove(j);
                assert forall|i: int| 0 <= i < rest.len() implies e[#[trigger] rest[i]].len() == e2[rest[i]].len() by {
                    if i < j {
                        assert(rest[i] == ks[i]);
                    } else {
                        assert(rest[i] == ks[i + 1]);
                    }
                }
                lemma_total_congr(e, e2, rest);
                assert(ks.to_set() =~= e2.dom());
            } else {
                assert(!ks.contains(map_uid@));
                let ks2 = ks.push(map_uid@);
                self.uid_list = Ghost(ks2);
                assert(ks2.drop_last() =~= ks);
                assert forall|i: int| 0 <= i < ks.len() implies e[#[trigger] ks[i]].len() == e2[ks[i]].len() by {
                    assert(ks.to_set().contains(ks[i]));
                }
                lemma_total_congr(e, e2, ks);
                assert(ks2.to_set() =~= e2.dom()) by {
                    assert forall|k: Seq<char>| ks2.to_set().contains(k) implies e2.dom().contains(k) by {
                        if k != map_uid@ {
                            let i = choose|i: int| 0 <= i < ks2.len() && ks2[i] == k;
                            assert(ks.contains(k)) by {
                                assert(ks[i] == k);
                            }
                        }
                    }
                    assert forall|k: Seq<char>| e2.dom().contains(k) implies ks2.to_set().contains(k) by {
                        if k != map_uid@ {
                            assert(ks.contains(k));
                            let i = choose|i: int| 0 <= i < ks.len() && ks[i] == k;
                            assert(ks2[i] == k);
                        } else {
                            assert(ks2[ks.len() as int] == k);
                        }
                    }
                }
                assert(ks2.no_duplicates()) by {
                    assert forall|a: int, b: int| 0 <= a < ks2.len() && 0 <= b < ks2.len() && a != b implies ks2[a] != ks2[b] by {
                        if a < ks.len() && b < ks.len() {
                            assert(ks2[a] == ks[a] && ks2[b] == ks[b]);
                        } else if a < ks.len() {
                            assert(ks2[a] == ks[a]);
                            assert(ks.contains(ks[a]));
                        } else {
                            assert(ks2[b] == ks[b]);
                            assert(ks.contains(ks[b]));
                        }
                    }
                }
            }
        }
    }
}

/// A batch that takes as many requests as there are map uids takes one request of every map
/// uid.
pub proof fn lemma_full_batch_covers(e: Map<Seq<char>, Seq<(i64, u64)>>, r: Seq<(String, i64, u64)>)
    requires
        e.dom().finite(),
        r.len() == e.dom().len(),
        batch_uids(r).no_duplicates(),
        forall|i: int| 0 <= i < r.len() ==> e.dom().contains(#[trigger] r[i].0@),
    ensures
        batch_uids(r).to_set() == e.dom(),
{
    let u = batch_uids(r);
    u.unique_seq_to_set();
    assert(u.to_set().subset_of(e.dom())) by {
        assert forall|k: Seq<char>| u.to_set().contains(k) implies e.dom().contains(k) by {
            let i = choose|i: int| 0 <= i < u.len() && u[i] == k;
            assert(u[i] == r[i].0@);
        }
    }
    vstd::set_lib::lemma_len_subset(u.to_set(), e.dom());
    vstd::set_lib::lemma_subset_equality(u.to_set(), e.dom());
}

/// The requests left for a map uid in `m`, none when it has no entry.
pub open spec fn requests_left(m: Map<Seq<char>, Seq<(i64, u64)>>, k: Seq<char>) -> Seq<(i64, u64)> {
    if m.dom().contains(k) {
        m[k]
    } else {
        Seq::empty()
    }
}

/// Taking a batch loses no request and makes none up: an untaken map uid keeps its requests,
/// a taken one keeps the rest of them with the taken request last, and no map uid appears.
pub proof fn lemma_take_keeps_requests(e: Map<Seq<char>, Seq<(i64, u64)>>, r: Seq<(String, i64, u64)>)
    requires
        forall|k: Seq<char>| e.dom().contains(k) ==> #[trigger] e[k].len() > 0,
        forall|i: int|
            0 <= i < r.len() ==> e.dom().contains(#[trigger] r[i].0@) && (r[i].1, r[i].2) == e[r[i].0@].last(),
    ensures
        ({
            let after = after_taking(e, batch_uids(r).to_set());
            &&& forall|k: Seq<char>| #[trigger] after.dom().contains(k) ==> e.dom().contains(k)
            &&& forall|k: Seq<char>|
                e.dom().contains(k) && !batch_uids(r).contains(k) ==> #[trigger] requests_left(after, k) == e[k]
            &&& forall|i: int|
                0 <= i < r.len() ==> e[#[trigger] r[i].0@] == requests_left(after, r[i].0@).push((r[i].1, r[i].2))
        }),
{
    let s = batch_uids(r).to_set();
    let after = after_taking(e, s);
    assert forall|k: Seq<char>| e.dom().contains(k) && !batch_uids(r).contains(k) implies #[trigger] requests_left(after, k) == e[k] by {
        assert(!s.contains(k));
        assert(after.dom().contains(k));
    }
    assert forall|i: int| 0 <= i < r.len() implies e[#[trigger] r[i].0@] == requests_left(after, r[i].0@).push((r[i].1, r[i].2)) by {
        let k = r[i].0@;
        assert(batch_uids(r)[i] == k);
        assert(s.contains(k));
        let v = e[k];
        assert(v.len() > 0);
        if v.len() == 1 {
            assert(!after.dom().contains(k));
            assert(v =~= Seq::<(i64, u64)>::empty().push(v.last()));
        } else {
            assert(after.dom().contains(k));
            assert(after[k] == v.drop_last());
            assert(v =~= v.drop_last().push(v.last()));
        }
    }
}

/// The (score, ticket) pairs that a batch takes for one map uid, in batch order.
pub open spec fn batch_requests_of(r: Seq<(String, i64, u64)>, k: Seq<char>) -> Seq<(i64, u64)>
    decreases r.len(),
{
    if r.len() == 0 {
        Seq::empty()
    } else if r.last().0@ == k {
        batch_requests_of(r.drop_last(), k).push((r.last().1, r.last().2))
    } else {
        batch_requests_of(r.drop_last(), k)
    }
}

proof fn lemma_batch_requests_of(r: Seq<(String, i64, u64)>, k: Seq<char>)
    requires
        batch_uids(r).no_duplicates(),
    ensures
        !batch_uids(r).contains(k) ==> batch_requests_of(r, k) == Seq::<(i64, u64)>::empty(),
        forall|i: int| 0 <= i < r.len() && #[trigger] r[i].0@ == k ==> batch_requests_of(r, k) == seq![(r[i].1, r[i].2)],
    decreases r.len(),
{
    if r.len() > 0 {
        let p = r.drop_last();
        let n = r.len() - 1;
        assert(batch_uids(p) =~= batch_uids(r).drop_last());
        assert(batch_uids(r)[n] == r.last().0@);
        assert forall|a: int, b: int| 0 <= a < b < batch_uids(p).len() implies batch_uids(p)[a] != batch_uids(p)[b] by {
            assert(batch_uids(p)[a] == batch_uids(r)[a] && batch_uids(p)[b] == batch_uids(r)[b]);
        }
        lemma_batch_requests_of(p, k);
        if batch_uids(p).contains(k) {
            let j = choose|j: int| 0 <= j < batch_uids(p).len() && batch_uids(p)[j] == k;
            assert(batch_uids(r)[j] == k);
        }
        if r.last().0@ == k {
            assert(!batch_uids(p).contains(k));
            assert forall|i: int| 0 <= i < r.len() && #[trigger] r[i].0@ == k implies batch_requests_of(r, k) == seq![(r[i].1, r[i].2)] by {
                if i < n {
                    assert(batch_uids(r)[i] == k);
                }
                assert(Seq::<(i64, u64)>::empty().push((r[i].1, r[i].2)) =~= seq![(r[i].1, r[i].2)]);
            }
        } else {
            assert forall|i: int| 0 <= i < r.len() && #[trigger] r[i].0@ == k implies batch_requests_of(r, k) == seq![(r[i].1, r[i].2)] by {
                assert(i < n);
                assert(p[i] == r[i]);
            }
            if batch_uids(r).contains(k) {
                let j = choose|j: int| 0 <= j < batch_uids(r).len() && batch_uids(r)[j] == k;
                assert(j < n);
                assert(batch_uids(p)[j] == k);
            }
        }
    }
}

/// Taking a batch moves requests, one for one: for every map uid, the requests queued before
/// are, counted with multiplicity, those left queued together with those of the batch.
pub proof fn lemma_take_moves_requests(e: Map<Seq<char>, Seq<(i64, u64)>>, r: Seq<(String, i64, u64)>)
    requires
        forall|k: Seq<char>| e.dom().contains(k) ==> #[trigger] e[k].len() > 0,
        forall|i: int|
            0 <= i < r.len() ==> e.dom().contains(#[trigger] r[i].0@) && (r[i].1, r[i].2) == e[r[i].0@].last(),
        batch_uids(r).no_duplicates(),
    ensures
        forall|k: Seq<char>|
            #[trigger] requests_left(e, k).to_multiset() == requests_left(after_taking(e, batch_uids(r).to_set()), k).to_multiset().add(
                batch_requests_of(r, k).to_multiset(),
            ),
{
    broadcast use vstd::seq_lib::group_to_multiset_ensures;
    broadcast use vstd::multiset::group_multiset_axioms;

    lemma_take_keeps_requests(e, r);
    let after = after_taking(e, batch_uids(r).to_set());
    assert forall|k: Seq<char>|
        #[trigger] requests_left(e, k).to_multiset() == requests_left(after, k).to_multiset().add(
            batch_requests_of(r, k).to_multiset(),
        ) by {
        lemma_batch_requests_of(r, k);
        if batch_uids(r).contains(k) {
            let i = choose|i: int| 0 <= i < batch_uids(r).len() && batch_uids(r)[i] == k;
            assert(r[i].0@ == k);
            let x = (r[i].1, r[i].2);
            let left = requests_left(after, k);
            assert(e[k] == left.push(x));
            assert(seq![x] =~= Seq::<(i64, u64)>::empty().push(x));
            assert(Seq::<(i64, u64)>::empty().to_multiset() =~= vstd::multiset::Multiset::empty());
            assert(left.push(x).to_multiset() =~= left.to_multiset().add(seq![x].to_multiset()));
        } else {
            assert(Seq::<(i64, u64)>::empty().to_multiset() =~= vstd::multiset::Multiset::empty());
            if !e.dom().contains(k) {
                assert(!after.dom().contains(k));
            }
            assert(requests_left(e, k).to_multiset() =~= requests_left(after, k).to_multiset().add(
                vstd::multiset::Multiset::empty(),
            ));
        }
    }
}

proof fn lemma_total_after_update(m: Map<Seq<char>, Seq<(i64, u64)>>, ks: Seq<Seq<char>>, k: Seq<char>, v: Seq<(i64, u64)>)
    requires
        ks.no_duplicates(),
        ks.contains(k),
    ensures
        queued_total(m.insert(k, v), ks) + m[k].len() == queued_total(m, ks) + v.len(),
{
    let m2 = m.insert(k, v);
    let j = choose|j: int| 0 <= j < ks.len() && ks[j] == k;
    lemma_total_split(m, ks, j);
    lemma_total_split(m2, ks, j);
    let rest = ks.remove(j);
    assert forall|i: int| 0 <= i < rest.len() implies m[#[trigger] rest[i]].len() == m2[rest[i]].len() by {
        if i < j {
            assert(rest[i] == ks[i]);
        } else {
            assert(rest[i] == ks[i + 1]);
        }
    }
    lemma_total_congr(m, m2, rest);
}

proof fn lemma_total_after_remove(m: Map<Seq<char>, Seq<(i64, u64)>>, ks: Seq<Seq<char>>, j: int)
    requires
        ks.no_duplicates(),
        0 <= j < ks.len(),
        m[ks[j]].len() == 0,
    ensures
        queued_total(m.remove(ks[j]), ks.remove(j)) == queued_total(m, ks),
{
    let k = ks[j];
    let m2 = m.remove(k);
    lemma_total_split(m, ks, j);
    let rest = ks.remove(j);
    assert forall|i: int| 0 <= i < rest.len() implies m[#[trigger] rest[i]].len() == m2[rest[i]].len() by {
        if i < j {
            assert(rest[i] == ks[i]);
        } else {
            assert(rest[i] == ks[i + 1]);
        }
        assert(rest[i] != k);
    }
    lemma_total_congr(m, m2, rest);
}

proof fn lemma_take_contains(w: Seq<Seq<char>>, t: int, k: Seq<char>)
    requires
        0 <= t < w.len(),
    ensures
        w.take(t + 1).contains(k) <==> (w.take(t).contains(k) || k == w[t]),
{
    let a = w.take(t + 1);
    let b = w.take(t);
    if a.contains(k) {
        let i = choose|i: int| 0 <= i < a.len() && a[i] == k;
        if i < t {
            assert(b[i] == k);
        }
    }
    if b.contains(k) {
        let i = choose|i: int| 0 <= i < b.len() && b[i] == k;
        assert(a[i] == k);
    }
    if k == w[t] {
        assert(a[t] == k);
    }
}

proof fn lemma_no_dup_take(w: Seq<Seq<char>>, t: int)
    requires
        w.no_duplicates(),
        0 <= t <= w.len(),
    ensures
        w.take(t).no_duplicates(),
        t < w.len() ==> !w.take(t).contains(w[t]),
{
    let b = w.take(t);
    if t < w.len() && b.contains(w[t]) {
        let i = choose|i: int| 0 <= i < b.len() && b[i] == w[t];
        assert(w[i] == w[t]);
    }
}

impl BatcherLbPosByTimeQueue {
    /// Takes a batch: the newest request of each of the first map uids, in the map's walk
    /// order, up to `limit` of them (at least one if any is queued). Entries whose only request
    /// was taken go.
    pub fn take_up_to(&mut self, limit: usize) -> (r: Vec<(String, i64, u64)>)
        requires
            old(self).well_formed(),
            old(self).nb_batches < usize::MAX,
            old(self).nb_batched + batch_len(uid_queue_entries(old(self).queue).dom().len(), limit as nat) <= usize::MAX,
        ensures
            final(self).well_formed(),
            r@.len() == batch_len(uid_queue_entries(old(self).queue).dom().len(), limit as nat),
            batch_uids(r@).no_duplicates(),
            forall|i: int|
                0 <= i < r@.len() ==> uid_queue_entries(old(self).queue).dom().contains(#[trigger] r@[i].0@)
                    && (r@[i].1, r@[i].2) == uid_queue_entries(old(self).queue)[r@[i].0@].last(),
            uid_queue_entries(final(self).queue) == after_taking(uid_queue_entries(old(self).queue), batch_uids(r@).to_set()),
            final(self).nb_queued + r@.len() == old(self).nb_queued,
            final(self).nb_in_progress == old(self).nb_in_progress,
            final(self).nb_batches == old(self).nb_batches + 1,
            final(self).nb_batched == old(self).nb_batched + r@.len(),
    {
        let ghost e0 = uid_queue_entries(self.queue);
        let ghost ks = self.uid_list@;
        let uids = queue_uids(&self.queue);
        let ghost w = texts(uids@);
        let n = uids.len();
        proof {
            w.unique_seq_to_set();
        }
        let m: usize = if n == 0 {
            0
        } else if limit == 0 {
            1
        } else if limit < n {
            limit
        } else {
            n
        };
        let mut ret: Vec<(String, i64, u64)> = Vec::new();
        let mut to_rem: Vec<String> = Vec::new();
        let mut t: usize = 0;
        proof {
            assert(batch_uids(ret@) =~= w.take(0));
            assert(texts(to_rem@).to_set() =~= Set::new(|k: Seq<char>| w.take(0).contains(k) && e0[k].len() == 1));
        }
        while t < m
            invariant
                t <= m <= n,
                n == w.len(),
                m == batch_len(e0.dom().len(), limit as nat),
                w == texts(uids@),
                w.no_duplicates(),
                w.to_set() == e0.dom(),
                forall|k: Seq<char>| e0.dom().contains(k) ==> #[trigger] e0[k].len() > 0,
                uid_queue_entries(self.queue).dom() == e0.dom(),
                forall|k: Seq<char>| #[trigger] uid_queue_entries(self.queue).dom().contains(k) ==> uid_queue_entries(self.queue)[k] == (
                    if w.take(t as int).contains(k) {
                        e0[k].drop_last()
                    } else {
                        e0[k]
                    }),
                ret@.len() == t,
                batch_uids(ret@) == w.take(t as int),
                forall|i: int| 0 <= i < t ==> (#[trigger] ret@[i].1, ret@[i].2) == e0[w[i]].last(),
                texts(to_rem@).no_duplicates(),
                texts(to_rem@).to_set() == Set::new(|k: Seq<char>| w.take(t as int).contains(k) && e0[k].len() == 1),
                self.uid_list@ == ks,
                ks.no_duplicates(),
                ks.to_set() == e0.dom(),
                self.nb_queued + t == old(self).nb_queued,
                self.nb_queued == queued_total(uid_queue_entries(self.queue), ks),
                self.nb_in_progress == old(self).nb_in_progress,
                self.nb_batches == old(self).nb_batches,
                self.nb_batched == old(self).nb_batched,
            decreases m - t,
        {
            let ghost cur = uid_queue_entries(self.queue);
            let ghost k = w[t as int];
            proof {
                lemma_no_dup_take(w, t as int);
                assert(w.to_set().contains(k));
                assert(cur.dom().contains(k));
                assert(cur[k] == e0[k]);
                assert(ks.contains(k));
                lemma_total_after_update(cur, ks, k, e0[k].drop_last());
            }
            let popped = queue_pop_pair(&mut self.queue, &uids[t]);
            let ghost rv = ret@;
            let ghost tv = texts(to_rem@);
            match popped {
                Some((pair, now_empty)) => {
                    self.nb_queued = self.nb_queued - 1;
                    ret.push((uids[t].clone(), pair.0, pair.1));
                    if now_empty {
                        to_rem.push(uids[t].clone());
                    }
                },
                None => {},
            }
            proof {
                let t1 = (t + 1) as int;
                assert forall|x: Seq<char>| w.take(t1).contains(x) <==> (w.take(t as int).contains(x) || x == k) by {
                    lemma_take_contains(w, t as int, x);
                }
                assert(batch_uids(ret@) =~= w.take(t1)) by {
                    assert(batch_uids(ret@) =~= batch_uids(rv).push(k));
                    assert(w.take(t1) =~= w.take(t as int).push(k));
                }
                assert forall|i: int| 0 <= i < t1 implies (#[trigger] ret@[i].1, ret@[i].2) == e0[w[i]].last() by {
                    if i < t {
                        assert(ret@[i] == rv[i]);
                    }
                }
                let s_new = Set::new(|x: Seq<char>| w.take(t1).contains(x) && e0[x].len() == 1);
                let s_old = Set::new(|x: Seq<char>| w.take(t as int).contains(x) && e0[x].len() == 1);
                if e0[k].len() == 1 {
                    assert(texts(to_rem@) =~= tv.push(k));
                    assert(!tv.contains(k)) by {
                        if tv.contains(k) {
                            let i = choose|i: int| 0 <= i < tv.len() && tv[i] == k;
                            assert(tv.to_set().contains(k));
                        }
                    }
                    assert(texts(to_rem@).no_duplicates()) by {
                        let tn = texts(to_rem@);
                        assert forall|a: int, b: int| 0 <= a < tn.len() && 0 <= b < tn.len() && a != b implies tn[a] != tn[b] by {
                            if a < tv.len() && b < tv.len() {
                                assert(tn[a] == tv[a] && tn[b] == tv[b]);
                            } else if a < tv.len() {
                                assert(tn[a] == tv[a]);
                                assert(tv.contains(tv[a]));
                            } else {
                                assert(tn[b] == tv[b]);
                                assert(tv.contains(tv[b]));
                            }
                        }
                    }
                    assert(texts(to_rem@).to_set() =~= s_new) by {
                        assert forall|x: Seq<char>| texts(to_rem@).to_set().contains(x) <==> s_new.contains(x) by {
                            let tn = texts(to_rem@);
                            if tn.contains(x) {
                                let i = choose|i: int| 0 <= i < tn.len() && tn[i] == x;
                                if i < tv.len() {
                                    assert(tv[i] == x);
                                    assert(tv.to_set().contains(x));
                                }
                            }
                            if s_new.contains(x) {
                                if x == k {
                                    assert(tn[tv.len() as int] == x);
                                } else {
                                    assert(s_old.contains(x));
                                    assert(tv.to_set().contains(x));
                                    let i = choose|i: int| 0 <= i < tv.len() && tv[i] == x;
                                    assert(tn[i] == x);
                                }
                            }
                        }
                    }
                } else {
                    assert(texts(to_rem@) == tv);
                    assert(texts(to_rem@).to_set() =~= s_new) by {
                        assert forall|x: Seq<char>| s_old.contains(x) <==> s_new.contains(x) by {}
                    }
                }
                assert forall|x: Seq<char>| #[trigger] uid_queue_entries(self.queue).dom().contains(x) implies uid_queue_entries(self.queue)[x] == (
                    if w.take(t1).contains(x) {
                        e0[x].drop_last()
                    } else {
                        e0[x]
                    }) by {
                    if x != k {
                        assert(cur.dom().contains(x));
                    }
                }
            }
            t = t + 1;
        }
        let ghost e1 = uid_queue_entries(self.queue);
        let ghost taken = w.take(m as int).to_set();
        let ghost rem = texts(to_rem@);
        let mut q: usize = 0;
        proof {
            assert(e1.remove_keys(rem.take(0).to_set()) =~= e1);
        }
        while q < to_rem.len()
            invariant
                q <= to_rem@.len(),
                rem == texts(to_rem@),
                rem.no_duplicates(),
                rem.to_set() == Set::new(|k: Seq<char>| w.take(m as int).contains(k) && e0[k].len() == 1),
                e1.dom() == e0.dom(),
                forall|k: Seq<char>| #[trigger] e1.dom().contains(k) ==> e1[k] == (
                    if w.take(m as int).contains(k) {
                        e0[k].drop_last()
                    } else {
                        e0[k]
                    }),
                uid_queue_entries(self.queue) == e1.remove_keys(rem.take(q as int).to_set()),
                self.uid_list@.no_duplicates(),
                self.uid_list@.to_set() == uid_queue_entries(self.queue).dom(),
                self.nb_queued == queued_total(uid_queue_entries(self.queue), self.uid_list@),
                self.nb_queued + m == old(self).nb_queued,
                self.nb_in_progress == old(self).nb_in_progress,
                self.nb_batches == old(self).nb_batches,
                self.nb_batched == old(self).nb_batched,
                m <= w.len(),
                w.to_set() == e0.dom(),
            decreases to_rem@.len() - q,
        {
            let ghost cur = uid_queue_entries(self.queue);
            let ghost ul = self.uid_list@;
            let ghost k = rem[q as int];
            proof {
                assert(rem.to_set().contains(k));
                let wm = w.take(m as int);
                assert(wm.contains(k));
                let i = choose|i: int| 0 <= i < wm.len() && wm[i] == k;
                assert(w[i] == k);
                assert(w.to_set().contains(k));
                lemma_no_dup_take(rem, q as int);
                assert(!rem.take(q as int).to_set().contains(k));
                assert(cur.dom().contains(k));
                assert(cur[k].len() == 0);
                assert(ul.to_set().contains(k));
            }
            queue_remove_uid(&mut self.queue, &to_rem[q]);
            proof {
                let j = choose|j: int| 0 <= j < ul.len() && ul[j] == k;
                lemma_total_after_remove(cur, ul, j);
                let ul2 = ul.remove(j);
                self.uid_list = Ghost(ul2);
                assert(ul2.no_duplicates()) by {
                    assert forall|a: int, b: int| 0 <= a < ul2.len() && 0 <= b < ul2.len() && a != b implies ul2[a] != ul2[b] by {
                        let a0 = if a < j { a } else { a + 1 };
                        let b0 = if b < j { b } else { b + 1 };
                        assert(ul2[a] == ul[a0] && ul2[b] == ul[b0]);
                    }
                }
                assert(ul2.to_set() =~= cur.remove(k).dom()) by {
                    assert forall|x: Seq<char>| ul2.to_set().contains(x) <==> cur.remove(k).dom().contains(x) by {
                        if ul2.contains(x) {
                            let i = choose|i: int| 0 <= i < ul2.len() && ul2[i] == x;
                            let i0 = if i < j { i } else { i + 1 };
                            assert(ul[i0] == x);
                            assert(ul.to_set().contains(x));
                        }
                        if cur.remove(k).dom().contains(x) {
                            assert(ul.to_set().contains(x));
                            let i = choose|i: int| 0 <= i < ul.len() && ul[i] == x;
                            assert(i != j);
                            let i2 = if i < j { i } else { i - 1 };
                            assert(ul2[i2] == x);
                        }
                    }
                }
                let q1 = (q + 1) as int;
                assert(rem.take(q1).to_set() =~= rem.take(q as int).to_set().insert(k)) by {
                    assert forall|x: Seq<char>| rem.take(q1).contains(x) <==> (rem.take(q as int).contains(x) || x == k) by {
                        lemma_take_contains(rem, q as int, x);
                    }
                }
                assert(uid_queue_entries(self.queue) =~= e1.remove_keys(rem.take(q1).to_set()));
            }
            q = q + 1;
        }
        proof {
            let f = uid_queue_entries(self.queue);
            let s = batch_uids(ret@).to_set();
            assert(rem.take(to_rem@.len() as int) =~= rem);
            assert(s =~= taken);
            assert(f =~= after_taking(e0, s)) by {
                assert forall|x: Seq<char>| f.dom().contains(x) <==> after_taking(e0, s).dom().contains(x) by {
                    if e0.dom().contains(x) && s.contains(x) && e0[x].len() == 1 {
                        assert(rem.to_set().contains(x));
                    }
                }
            }
            assert(batch_uids(ret@).no_duplicates()) by {
                lemma_no_dup_take(w, m as int);
            }
            assert forall|i: int| 0 <= i < ret@.len() implies e0.dom().contains(#[trigger] ret@[i].0@)
                && (ret@[i].1, ret@[i].2) == e0[ret@[i].0@].last() by {
                assert(batch_uids(ret@)[i] == ret@[i].0@);
                assert(w.take(m as int)[i] == w[i]);
                assert(w.to_set().contains(w[i]));
            }
            assert forall|k: Seq<char>| f.dom().contains(k) implies #[trigger] f[k].len() > 0 by {
                if s.contains(k) {
                    assert(e0[k].len() != 1);
                }
            }
        }
        self.nb_batches = self.nb_batches + 1;
        self.nb_batched = self.nb_batched + m;
        ret
    }
}

#[allow(non_snake_case, non_camel_case_types)]
#[derive(Debug, Clone)]
pub struct MapInfos {
    pub mapList: Vec<MapInfo>,
    pub itemCount: i32,
}

/// get_map_info response types
#[allow(non_snake_case, non_camel_case_types)]
#[derive(Debug, Clone, PartialEq)]
pub struct MapInfo {
    pub uid: String,
    pub mapId: String,
    pub name: String,
    pub author: String,
    pub submitter: String,
    pub authorTime: i64,
    pub goldTime: i64,
    pub silverTime: i64,
    pub bronzeTime: i64,
    pub nbLaps: i32,
    pub valid: bool,
    pub downloadUrl: String,
    pub thumbnailUrl: String,
    pub uploadTimestamp: i64,
    pub updateTimestamp: i64,
    pub fileSize: Option<i32>,
    pub public: bool,
    pub favorite: bool,
    pub playable: bool,
    /// usually blank or same as mapType
    pub mapStyle: String,
    /// Typically "TrackMania\\TM_Race"
    pub mapType: String,
    pub collectionName: String,
}

/// get_group_surround response types
#[allow(non_snake_case, non_camel_case_types)]
#[derive(Debug, Clone)]
pub struct RecordsSurround {
    pub groupUid: String,
    pub mapUid: String,
    pub tops: Vec<RecordsSurround_Top>,
}

#[allow(non_snake_case, non_camel_case_types)]
#[derive(Debug, Clone)]
pub struct RecordsSurround_Top {
    pub zoneId: String,
    pub zoneName: String,
    pub top: Vec<RecordsSurround_TopEntry>,
}

#[allow(non_snake_case, non_camel_case_types)]
#[derive(Debug, Clone)]
pub struct RecordsSurround_TopEntry {
    pub accountId: String,
    pub zoneId: String,
    pub zoneName: String,
    pub position: i32,
    pub score: u32,
    pub timestamp: Option<i64>,
}

/// Map Group Leaderboard response types
#[allow(non_snake_case, non_camel_case_types)]
#[derive(Debug, Clone)]
pub struct MapGroupLeaderboard {
    pub groupUid: String,
    pub mapUid: String,
    /// If the map doesn't exist, this has `top` as an empty array for zone World
    pub tops: Vec<MapGroupLeaderboard_Top>,
}

#[allow(non_snake_case, non_camel_case_types)]
#[derive(Debug, Clone)]
pub struct MapGroupLeaderboard_Top {
    pub zoneId: String,
    pub zoneName: String,
    pub top: Vec<MapGroupLeaderboard_TopEntry>,
}

#[allow(non_snake_case, non_camel_case_types)]
#[derive(Debug, Clone)]
pub struct MapGroupLeaderboard_TopEntry {
    pub accountId: String,
    pub zoneId: String,
    pub zoneName: String,
    pub position: i32,
    /// Can be negative if map has secret records
    pub score: i64,
}

/// TOTD/Royal response types
#[allow(non_snake_case, non_camel_case_types)]
#[derive(Debug, Clone)]
pub struct MonthlyCampaign_List {
    pub monthList: Vec<MonthlyCampaign_Month>,
    pub itemCount: i32,
    pub nextRequestTimestamp: i64,
    pub relativeNextRequest: i64,
}

#[allow(non_snake_case, non_camel_case_types)]
#[derive(Debug, Clone)]
pub struct MonthlyCampaign_Month {
    pub year: i32,
    pub month: i32,
    pub lastDay: i32,
    pub days: Vec<MonthlyCampaign_Day>,
    pub media: MonthlyCampaign_Media,
}

#[allow(non_snake_case, non_camel_case_types)]
#[derive(Debug, Clone)]
pub struct MonthlyCampaign_Day {
    pub campaignId: i32,
    pub mapUid: String,
    pub day: i32,
    pub monthDay: i32,
    pub seasonUid: String,
    pub leaderboardGroup: Option<String>,
    pub startTimestamp: i64,
    pub endTimestamp: i64,
    pub relativeStart: i64,
    pub relativeEnd: i64,
}

#[allow(non_snake_case, non_camel_case_types)]
#[derive(Debug, Clone)]
pub struct MonthlyCampaign_Media {
    pub buttonBackgroundUrl: String,
    pub buttonForegroundUrl: String,
    pub decalUrl: String,
    pub popUpBackgroundUrl: String,
    pub popUpImageUrl: String,
    pub liveButtonBackgroundUrl: String,
    pub liveButtonForegroundUrl: String,
}

#[allow(non_snake_case, non_camel_case_types)]
#[derive(Debug, Clone)]
pub struct ClubActivityList {
    pub activityList: Vec<ClubActivity>,
    pub maxPage: i32,
    pub itemCount: i32,
}

#[allow(non_snake_case, non_camel_case_types)]
#[derive(Debug, Clone)]
pub struct ClubActivity {
    pub id: i32,
    pub name: String,
    pub activityType: String,
    pub activityId: i32,
    pub targetActivityId: i32,
    pub campaignId: i32,
    pub position: i32,
    pub public: bool,
    pub active: bool,
    pub externalId: i32,
    pub featured: bool,
    pub password: bool,
    pub itemsCount: i32,
    pub clubId: i32,
    pub editionTimestamp: i64,
    pub creatorAccountId: String,
    pub latestEditorAccountId: String,
    pub mediaUrl: String,
    pub mediaUrlPngLarge: String,
    pub mediaUrlPngMedium: String,
    pub mediaUrlPngSmall: String,
    pub mediaUrlDds: String,
    pub mediaTheme: String,
}

#[allow(non_snake_case, non_camel_case_types)]
#[derive(Debug, Clone)]
pub struct ClubInfo {
    pub id: i32,
    pub name: String,
    pub tag: String,
    pub description: String,
    pub authorAccountId: String,
    pub latestEditorAccountId: String,
    pub iconUrl: String,
    pub iconUrlPngLarge: String,
    pub iconUrlPngMedium: String,
    pub iconUrlPngSmall: String,
    pub iconUrlDds: String,
    pub logoUrl: String,
    pub decalUrl: String,
    pub decalUrlPngLarge: String,
    pub decalUrlPngMedium: String,
    pub decalUrlPngSmall: String,
    pub decalUrlDds: String,
    pub screen16x9Url: String,
    pub screen16x9UrlPngLarge: String,
    pub screen16x9UrlPngMedium: String,
    pub screen16x9UrlPngSmall: String,
    pub screen16x9UrlDds: String,
    pub screen64x41Url: String,
    pub screen64x41UrlPngLarge: String,
    pub screen64x41UrlPngMedium: String,
    pub screen64x41UrlPngSmall: String,
    pub screen64x41UrlDds: String,
    pub decalSponsor4x1Url: String,
    pub decalSponsor4x1UrlPngLarge: String,
    pub decalSponsor4x1UrlPngMedium: String,
    pub decalSponsor4x1UrlPngSmall: String,
    pub decalSponsor4x1UrlDds: String,
    pub screen8x1Url: String,
    pub screen8x1UrlPngLarge: String,
    pub screen8x1UrlPngMedium: String,
    pub screen8x1UrlPngSmall: String,
    pub screen8x1UrlDds: String,
    pub screen16x1Url: String,
    pub screen16x1UrlPngLarge: String,
    pub screen16x1UrlPngMedium: String,
    pub screen16x1UrlPngSmall: String,
    pub screen16x1UrlDds: String,
    pub verticalUrl: String,
    pub verticalUrlPngLarge: String,
    pub verticalUrlPngMedium: String,
    pub verticalUrlPngSmall: String,
    pub verticalUrlDds: String,
    pub backgroundUrl: String,
    pub backgroundUrlJpgLarge: String,
    pub backgroundUrlJpgMedium: String,
    pub backgroundUrlJpgSmall: String,
    pub backgroundUrlDds: String,
    pub creationTimestamp: i64,
    pub popularityLevel: i32,
    pub state: String,
    pub featured: bool,
    pub walletUid: String,
    pub metadata: String,
    pub editionTimestamp: i64,
    pub iconTheme: String,
    pub decalTheme: String,
    pub screen16x9Theme: String,
    pub screen64x41Theme: String,
    pub screen8x1Theme: String,
    pub screen16x1Theme: String,
    pub verticalTheme: String,
    pub backgroundTheme: String,
    pub verified: bool,
}

#[allow(non_snake_case, non_camel_case_types)]
#[derive(Debug, Clone)]
pub struct ClubCampaignById {
    pub clubDecalUrl: String,
    pub campaignId: i32,
    pub activityId: i32,
    pub campaign: ClubCampaign,
    pub popularityLevel: i32,
    pub publicationTimestamp: i64,
    pub creationTimestamp: i64,
    pub creatorAccountId: String,
    pub latestEditorAccountId: String,
    pub id: i32,
    pub clubId: i32,
    pub clubName: String,
    pub name: String,
    pub mapsCount: i32,
    pub mediaUrl: String,
    pub mediaUrlPngLarge: String,
    pub mediaUrlPngMedium: String,
    pub mediaUrlPngSmall: String,
    pub mediaUrlDds: String,
    pub mediaTheme: String,
}

#[allow(non_snake_case, non_camel_case_types)]
#[derive(Debug, Clone)]
pub struct ClubCampaign {
    pub id: i32,
    pub seasonUid: String,
    pub name: String,
    pub color: String,
    pub useCase: i32,
    pub clubId: i32,
    pub leaderboardGroupUid: String,
    pub publicationTimestamp: i64,
    pub startTimestamp: i64,
    pub endTimestamp: i64,
    pub rankingSentTimestamp: Option<i64>,
    pub year: i32,
    pub week: i32,
    pub day: i32,
    pub monthYear: i32,
    pub month: i32,
    pub monthDay: i32,
    pub published: bool,
    pub playlist: Vec<ClubCampaign_PlaylistEntry>,
    pub latestSeasons: Vec<ClubCampaign_LatestSeason>,
    pub categories: Vec<ClubCampaign_Category>,
    pub media: ClubCampaign_Media,
    pub editionTimestamp: i64,
}

#[allow(non_snake_case, non_camel_case_types)]
#[derive(Debug, Clone)]
pub struct ClubCampaign_PlaylistEntry {
    pub id: i32,
    pub position: i32,
    pub mapUid: String,
}

#[allow(non_snake_case, non_camel_case_types)]
#[derive(Debug, Clone)]
pub struct ClubCampaign_LatestSeason {
    pub uid: String,
    pub name: String,
    pub startTimestamp: i64,
    pub endTimestamp: i64,
    pub relativeStart: i64,
    pub relativeEnd: i64,
    pub campaignId: i32,
    pub active: bool,
}

#[allow(non_snake_case, non_camel_case_types)]
#[derive(Debug, Clone)]
pub struct ClubCampaign_Category {
    pub position: i32,
    pub length: i32,
    pub name: String,
}

#[allow(non_snake_case, non_camel_case_types)]
#[derive(Debug, Clone)]
pub struct ClubCampaign_Media {
    pub buttonBackgroundUrl: String,
    pub buttonForegroundUrl: String,
    pub decalUrl: String,
    pub popUpBackgroundUrl: String,
    pub popUpImageUrl: String,
    pub liveButtonBackgroundUrl: String,
    pub liveButtonForegroundUrl: String,
}

#[allow(non_snake_case, non_camel_case_types)]
#[derive(Debug, Clone)]
pub struct ClubCampaignList {
    pub clubCampaignList: Vec<ClubCampaignById>,
    pub maxPage: i32,
    pub itemCount: i32,
}

#[allow(non_snake_case, non_camel_case_types)]
#[derive(Debug, Clone)]
pub struct ClubRoom_Room_ForEdit {
    pub name: String,
    pub region: String,
    pub maxPlayersPerServer: i32,
    pub maps: Vec<String>,
    pub script: String,
    pub scalable: bool,
    /// cannot be changed after creation
    pub password: bool,
    pub settings: Vec<ClubRoom_ScriptSetting>,
}

#[allow(non_snake_case, non_camel_case_types)]
#[derive(Debug, Clone)]
pub struct ClubList {
    pub clubList: Vec<ClubInfo>,
    pub maxPage: u32,
    pub clubCount: u32,
}

/// A script setting of a club room: a key, its value as text, and the value's type.
#[allow(non_camel_case_types)]
#[derive(Debug, Clone)]
pub struct ClubRoom_ScriptSetting {
    pub key: String,
    pub value: String,
    /// The type of the value: "text", "integer", "boolean" or "float".
    pub setting_type: String,
}

impl ClubRoom_ScriptSetting {
    /// A text setting.
    pub fn text(key: &str, value: &str) -> (r: Self)
        ensures
            r.key@ == key@,
            r.value@ == value@,
            r.setting_type@ == "text"@,
    {
        ClubRoom_ScriptSetting { key: key.to_owned(), value: value.to_owned(), setting_type: "text".to_owned() }
    }

    /// An integer setting, its value in decimal.
    pub fn integer(key: &str, value: i32) -> (r: Self)
        ensures
            r.key@ == key@,
            r.value@ == int_decimal(value as int),
            r.setting_type@ == "integer"@,
    {
        ClubRoom_ScriptSetting {
            key: key.to_owned(),
            value: i64_to_string(value as i64),
            setting_type: "integer".to_owned(),
        }
    }

    /// A boolean setting, its value `true` or `false`.
    pub fn boolean(key: &str, value: bool) -> (r: Self)
        ensures
            r.key@ == key@,
            r.value@ == bool_text(value),
            r.setting_type@ == "boolean"@,
    {
        ClubRoom_ScriptSetting {
            key: key.to_owned(),
            value: bool_to_string(value),
            setting_type: "boolean".to_owned(),
        }
    }

    pub fn time_limit(value: i32) -> (r: Self)
        ensures
            r.key@ == "S_TimeLimit"@,
            r.value@ == int_decimal(value as int),
            r.setting_type@ == "integer"@,
    {
        Self::integer("S_TimeLimit", value)
    }

    pub fn chat_time(value: i32) -> (r: Self)
        ensures
            r.key@ == "S_ChatTime"@,
            r.value@ == int_decimal(value as int),
            r.setting_type@ == "integer"@,
    {
        Self::integer("S_ChatTime", value)
    }

    /// Url of the image displayed during the track loading screen
    pub fn loading_screen_image_url(value: &str) -> (r: Self)
        ensures
            r.key@ == "S_LoadingScreenImageUrl"@,
            r.value@ == value@,
            r.setting_type@ == "text"@,
    {
        Self::text("S_LoadingScreenImageUrl", value)
    }

    pub fn delay_before_next_map(value: i32) -> (r: Self)
        ensures
            r.key@ == "S_DelayBeforeNextMap"@,
            r.value@ == int_decimal(value as int),
            r.setting_type@ == "integer"@,
    {
        Self::integer("S_DelayBeforeNextMap", value)
    }

    pub fn warm_up_nb(value: i32) -> (r: Self)
        ensures
            r.key@ == "S_WarmUpNb"@,
            r.value@ == int_decimal(value as int),
            r.setting_type@ == "integer"@,
    {
        Self::integer("S_WarmUpNb", value)
    }

    pub fn warm_up_duration(value: i32) -> (r: Self)
        ensures
            r.key@ == "S_WarmUpDuration"@,
            r.value@ == int_decimal(value as int),
            r.setting_type@ == "integer"@,
    {
        Self::integer("S_WarmUpDuration", value)
    }

    pub fn disable_go_to_map(value: bool) -> (r: Self)
        ensures
            r.key@ == "S_DisableGoToMap"@,
            r.value@ == bool_text(value),
            r.setting_type@ == "boolean"@,
    {
        Self::boolean("S_DisableGoToMap", value)
    }

    /// Url of the image displayed on the checkpoints ground. Override the image set in the Club.
    pub fn deco_image_url_checkpoint(value: &str) -> (r: Self)
        ensures
            r.key@ == "S_DecoImageUrl_Checkpoint"@,
            r.value@ == value@,
            r.setting_type@ == "text"@,
    {
        Self::text("S_DecoImageUrl_Checkpoint", value)
    }

    /// Url of the image displayed on the block border. Override the image set in the Club.
    pub fn deco_image_url_sponsor_4x1(value: &str) -> (r: Self)
        ensures
            r.key@ == "S_DecoImageUrl_DecalSponsor4x1"@,
            r.value@ == value@,
            r.setting_type@ == "text"@,
    {
        Self::text("S_DecoImageUrl_DecalSponsor4x1", value)
    }

    /// Url of the image displayed below the podium and big screen. Override the image set in the Club.
    pub fn deco_image_url_screen_16x1(value: &str) -> (r: Self)
        ensures
            r.key@ == "S_DecoImageUrl_Screen16x1"@,
            r.value@ == value@,
            r.setting_type@ == "text"@,
    {
        Self::text("S_DecoImageUrl_Screen16x1", value)
    }

    /// Url of the image displayed on the two big screens. Override the image set in the Club.
    pub fn deco_image_url_screen_16x9(value: &str) -> (r: Self)
        ensures
            r.key@ == "S_DecoImageUrl_Screen16x9"@,
            r.value@ == value@,
            r.setting_type@ == "text"@,
    {
        Self::text("S_DecoImageUrl_Screen16x9", value)
    }

    /// Url of the image displayed on the bleachers. Override the image set in the Club.
    pub fn deco_image_url_screen_8x1(value: &str) -> (r: Self)
        ensures
            r.key@ == "S_DecoImageUrl_Screen8x1"@,
            r.value@ == value@,
            r.setting_type@ == "text"@,
    {
        Self::text("S_DecoImageUrl_Screen8x1", value)
    }

    /// default: `/api/club/room/:ServerLogin/whoami`
    /// Url of the API route to get the deco image url. You can replace ":ServerLogin" with a login from a server in another club to use its images.
    pub fn deco_image_url_who_am_i(value: &str) -> (r: Self)
        ensures
            r.key@ == "S_DecoImageUrl_WhoAmIUrl"@,
            r.value@ == value@,
            r.setting_type@ == "text"@,
    {
        Self::text("S_DecoImageUrl_WhoAmIUrl", value)
    }
}

/// The (map uid, score) pairs of a batch, as the positions request takes them: each score
/// as a `u32`.
pub fn batch_uid_scores(batch: &Vec<(String, i64, u64)>) -> (r: Vec<(String, u32)>)
    requires
        forall|i: int| 0 <= i < batch@.len() ==> (#[trigger] batch@[i].1 as u32) != 0,
    ensures
        r@.len() == batch@.len(),
        forall|i: int|
            0 <= i < batch@.len() ==> #[trigger] r@[i].0@ == batch@[i].0@ && r@[i].1 == batch@[i].1 as u32,
{
    let mut r: Vec<(String, u32)> = Vec::new();
    let mut i: usize = 0;
    while i < batch.len()
        invariant
            i <= batch@.len(),
            r@.len() == i,
            forall|j: int| 0 <= j < i ==> #[trigger] r@[j].0@ == batch@[j].0@ && r@[j].1 == batch@[j].1 as u32,
        decreases batch@.len() - i,
    {
        #[verifier::truncate]
        let score = batch[i].1 as u32;
        r.push((batch[i].0.clone(), score));
        i = i + 1;
    }
    r
}

/// The position that the answer to a positions request gives for a map uid: that of the
/// last record of the map that has a global position.
pub open spec fn last_position(resp: Seq<RecordsByTime>, uid: Seq<char>) -> Option<i32>
    decreases resp.len(),
{
    if resp.len() == 0 {
        None
    } else if resp.last().mapUid@ == uid && global_pos(resp.last()) is Some {
        global_pos(resp.last())
    } else {
        last_position(resp.drop_last(), uid)
    }
}

/// The positions that a lookup map holds, by map uid.
pub uninterp spec fn position_lookup_entries(l: ahash::HashMap<String, i32>) -> Map<Seq<char>, i32>;

/// An empty map (`HashMap::default`, with ahash's `RandomState`). Trusted: it holds nothing.
#[verifier::external_body]
fn positions_empty() -> (r: ahash::HashMap<String, i32>)
    ensures
        position_lookup_entries(r) =~= Map::empty(),
{
    ahash::HashMap::default()
}

/// `insert`. Trusted: the map uid now maps to the position, and nothing else changes.
#[verifier::external_body]
fn positions_insert(l: &mut ahash::HashMap<String, i32>, uid: String, pos: i32)
    ensures
        position_lookup_entries(*final(l)) == position_lookup_entries(*old(l)).insert(uid@, pos),
{
    l.insert(uid, pos);
}

/// `get`. Trusted: the position of the map uid, if the map has one.
#[verifier::external_body]
fn positions_get(l: &ahash::HashMap<String, i32>, uid: &String) -> (r: Option<i32>)
    ensures
        position_lookup_entries(*l).dom().contains(uid@) ==> r == Some(position_lookup_entries(*l)[uid@]),
        !position_lookup_entries(*l).dom().contains(uid@) ==> r is None,
{
    match l.get(uid) {
        Some(p) => Some(*p),
        None => None,
    }
}

/// The positions of the records of an answer that have one, by map uid; a later record
/// replaces an earlier one.
pub open spec fn positions_of(resp: Seq<RecordsByTime>) -> Map<Seq<char>, i32>
    decreases resp.len(),
{
    if resp.len() == 0 {
        Map::empty()
    } else {
        let m = positions_of(resp.drop_last());
        match global_pos(resp.last()) {
            Some(p) => m.insert(resp.last().mapUid@, p),
            None => m,
        }
    }
}

proof fn lemma_positions_of(resp: Seq<RecordsByTime>, uid: Seq<char>)
    ensures
        positions_of(resp).dom().contains(uid) <==> last_position(resp, uid) is Some,
        positions_of(resp).dom().contains(uid) ==> last_position(resp, uid) == Some(positions_of(resp)[uid]),
    decreases resp.len(),
{
    if resp.len() > 0 {
        lemma_positions_of(resp.drop_last(), uid);
    }
}

/// The lookup of the positions of an answer.
fn position_lookup(resp: &Vec<RecordsByTime>) -> (r: ahash::HashMap<String, i32>)
    ensures
        position_lookup_entries(r) == positions_of(resp@),
{
    let mut lookup = positions_empty();
    let mut i: usize = 0;
    proof {
        assert(resp@.take(0) =~= Seq::<RecordsByTime>::empty());
    }
    while i < resp.len()
        invariant
            i <= resp@.len(),
            position_lookup_entries(lookup) == positions_of(resp@.take(i as int)),
        decreases resp@.len() - i,
    {
        proof {
            assert(resp@.take(i + 1).drop_last() =~= resp@.take(i as int));
            assert(resp@.take(i + 1).last() == resp@[i as int]);
        }
        match resp[i].get_global_pos() {
            Some(p) => positions_insert(&mut lookup, resp[i].mapUid.clone(), p),
            None => {},
        }
        i = i + 1;
    }
    proof {
        assert(resp@.take(resp@.len() as int) =~= resp@);
    }
    lookup
}

/// Matches the answer to a positions request with the requests of a batch: for each request,
/// its ticket and its score with the position found for its map uid.
pub fn batch_results(batch: &Vec<(String, i64, u64)>, resp: &Vec<RecordsByTime>) -> (r: Vec<(u64, ScoreToPos)>)
    ensures
        r@.len() == batch@.len(),
        forall|i: int|
            0 <= i < batch@.len() ==> #[trigger] r@[i] == (
                batch@[i].2,
                ScoreToPos { score: batch@[i].1, pos: last_position(resp@, batch@[i].0@) },
            ),
{
    let lookup = position_lookup(resp);
    let mut r: Vec<(u64, ScoreToPos)> = Vec::new();
    let mut i: usize = 0;
    while i < batch.len()
        invariant
            i <= batch@.len(),
            position_lookup_entries(lookup) == positions_of(resp@),
            r@.len() == i,
            forall|j: int|
                0 <= j < i ==> #[trigger] r@[j] == (
                    batch@[j].2,
                    ScoreToPos { score: batch@[j].1, pos: last_position(resp@, batch@[j].0@) },
                ),
        decreases batch@.len() - i,
    {
        let pos = positions_get(&lookup, &batch[i].0);
        proof {
            lemma_positions_of(resp@, batch@[i as int].0@);
        }
        r.push((batch[i].2, ScoreToPos { score: batch[i].1, pos }));
        i = i + 1;
    }
    r
}

/// The position a batch hands back for a map uid: the position in the first zone of the last
/// record of the answer for that map that has a zone.
pub proof fn lemma_batch_position_from_answer(resp: Seq<RecordsByTime>, uid: Seq<char>, i: int)
    requires
        0 <= i < resp.len(),
        resp[i].mapUid@ == uid,
        resp[i].zones@.len() > 0,
        forall|j: int| i < j < resp.len() && #[trigger] resp[j].mapUid@ == uid ==> resp[j].zones@.len() == 0,
    ensures
        last_position(resp, uid) == Some(resp[i].zones@[0].ranking.position),
    decreases resp.len(),
{
    if i < resp.len() - 1 {
        let p = resp.drop_last();
        assert(resp.last() == resp[resp.len() - 1]);
        assert forall|j: int| i < j < p.len() && #[trigger] p[j].mapUid@ == uid implies p[j].zones@.len() == 0 by {
            assert(p[j] == resp[j]);
        }
        assert(p[i] == resp[i]);
        lemma_batch_position_from_answer(p, uid, i);
    } else {
        assert(resp.last() == resp[i]);
    }
}

/// No position is handed back for a map uid when no record of the answer for it has a zone.
pub proof fn lemma_batch_position_none(resp: Seq<RecordsByTime>, uid: Seq<char>)
    requires
        forall|j: int| 0 <= j < resp.len() && #[trigger] resp[j].mapUid@ == uid ==> resp[j].zones@.len() == 0,
    ensures
        last_position(resp, uid) is None,
    decreases resp.len(),
{
    if resp.len() > 0 {
        let p = resp.drop_last();
        assert(resp.last() == resp[resp.len() - 1]);
        assert forall|j: int| 0 <= j < p.len() && #[trigger] p[j].mapUid@ == uid implies p[j].zones@.len() == 0 by {
            assert(p[j] == resp[j]);
        }
        lemma_batch_position_none(p, uid);
    }
}

/// In a well-formed queue, `nb_queued` is the number of requests queued over all map uids,
/// and every map uid has at least one.
pub proof fn lemma_queue_count(q: &BatcherLbPosByTimeQueue)
    requires
        q.well_formed(),
    ensures
        q.nb_queued == queued_total(uid_queue_entries(q.queue), q.uid_list@),
        q.uid_list@.to_set() == uid_queue_entries(q.queue).dom(),
        q.uid_list@.no_duplicates(),
        forall|k: Seq<char>| #[trigger] uid_queue_entries(q.queue).dom().contains(k) ==> uid_queue_entries(q.queue)[k].len() > 0,
{
}

impl BatcherLbPosByTimeQueue {
    /// Counts the requests of a batch as in progress.
    pub fn start_batch(&mut self, batch_size: usize)
        requires
            old(self).nb_in_progress + batch_size <= usize::MAX,
        ensures
            final(self).nb_in_progress == old(self).nb_in_progress + batch_size,
            final(self).queue == old(self).queue,
            final(self).nb_queued == old(self).nb_queued,
            final(self).nb_batches == old(self).nb_batches,
            final(self).nb_batched == old(self).nb_batched,
            final(self).uid_list == old(self).uid_list,
            old(self).well_formed() ==> final(self).well_formed(),
    {
        self.nb_in_progress = self.nb_in_progress + batch_size;
    }

    /// Counts the requests of a batch as done.
    pub fn finish_batch(&mut self, batch_size: usize)
        requires
            old(self).nb_in_progress >= batch_size,
        ensures
            final(self).nb_in_progress == old(self).nb_in_progress - batch_size,
            final(self).queue == old(self).queue,
            final(self).nb_queued == old(self).nb_queued,
            final(self).nb_batches == old(self).nb_batches,
            final(self).nb_batched == old(self).nb_batched,
            final(self).uid_list == old(self).uid_list,
            old(self).well_formed() ==> final(self).well_formed(),
    {
        self.nb_in_progress = self.nb_in_progress - batch_size;
    }
}

} // verus!
