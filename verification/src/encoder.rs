//! The encode cache and the bookkeeping of the background encoder worker.
//!
//! Per cache key — (item index, target width, target height) — an artifact
//! is absent, pending, or present. A request on an absent key marks it
//! pending and enqueues one job; a request on a pending or present key
//! changes nothing, so at most one encode is ever in flight per key.
//! Draining the result queue moves keys from pending to present; a global
//! clear resets everything. The worker itself runs outside the library and
//! exchanges messages only over the two queues.

use vstd::prelude::*;
use std::sync::mpsc::{Receiver, Sender};
use image::DynamicImage;
use ratatui_image::protocol::StatefulProtocol;

verus! {

/// Identifies one encoded artifact: item index and target cell size.
#[derive(PartialEq, Eq, Structural, Clone, Copy, Hash, Debug)]
pub struct CacheKey {
    pub index: usize,
    pub width: u16,
    pub height: u16,
}

/// A job for the worker: the item, its raw image, and the target size.
pub struct EncodeRequest {
    pub index: usize,
    pub image: DynamicImage,
    pub width: u16,
    pub height: u16,
}

/// A finished encode: the key fields and the renderable protocol object.
pub struct EncodeResult {
    pub index: usize,
    pub width: u16,
    pub height: u16,
    pub protocol: StatefulProtocol,
}

pub open spec fn key_of(r: EncodeResult) -> CacheKey {
    CacheKey { index: r.index, width: r.width, height: r.height }
}

pub fn result_key(r: &EncodeResult) -> (k: CacheKey)
    ensures
        k == key_of(*r),
{
    CacheKey { index: r.index, width: r.width, height: r.height }
}

/// The cache and the in-flight bookkeeping, as the contracts see them.
#[verifier::ext_equal]
pub struct EncoderModel {
    pub cache: Map<CacheKey, StatefulProtocol>,
    pub pending: Set<CacheKey>,
}

/// A key with neither a cached artifact nor an in-flight job: only such a
/// key lets a request hand the worker a new job.
pub open spec fn would_enqueue(m: EncoderModel, k: CacheKey) -> bool {
    !m.cache.dom().contains(k) && !m.pending.contains(k)
}

/// What one request does to the model.
pub open spec fn request_transition(m: EncoderModel, k: CacheKey) -> EncoderModel {
    if would_enqueue(m, k) {
        EncoderModel { cache: m.cache, pending: m.pending.insert(k) }
    } else {
        m
    }
}

/// What storing one drained result does to the model.
pub open spec fn apply_result(m: EncoderModel, r: EncodeResult) -> EncoderModel {
    EncoderModel {
        cache: m.cache.insert(key_of(r), r.protocol),
        pending: m.pending.remove(key_of(r)),
    }
}

/// What draining a whole sequence of results does, in arrival order.
pub open spec fn drain_all(m: EncoderModel, rs: Seq<EncodeResult>) -> EncoderModel
    decreases rs.len(),
{
    if rs.len() == 0 {
        m
    } else {
        apply_result(drain_all(m, rs.drop_last()), rs.last())
    }
}

/// The protocol of the last result for a key within a drained batch.
pub open spec fn last_protocol_for(rs: Seq<EncodeResult>, k: CacheKey) -> Option<StatefulProtocol>
    decreases rs.len(),
{
    if rs.len() == 0 {
        None
    } else if key_of(rs.last()) == k {
        Some(rs.last().protocol)
    } else {
        last_protocol_for(rs.drop_last(), k)
    }
}

/// Requesting a key twice enqueues one job: the first request leaves the
/// key pending, after which no request on it can enqueue, and a second
/// request leaves the model exactly as it was.
pub proof fn lemma_request_dedup(m: EncoderModel, k: CacheKey)
    ensures
        !would_enqueue(request_transition(m, k), k),
        request_transition(request_transition(m, k), k) == request_transition(m, k),
{
}

/// Round trip through the worker: after a drain, a key holds exactly the
/// protocol of the last completed job for that key; a key with no completed
/// job keeps what it had, so results never mix across keys, and a present
/// entry stays present.
pub proof fn lemma_drain_round_trip(m: EncoderModel, rs: Seq<EncodeResult>, k: CacheKey)
    ensures
        match last_protocol_for(rs, k) {
            Some(p) => drain_all(m, rs).cache.dom().contains(k) && drain_all(m, rs).cache[k] == p,
            None => (drain_all(m, rs).cache.dom().contains(k) <==> m.cache.dom().contains(k)) && (
            m.cache.dom().contains(k) ==> drain_all(m, rs).cache[k] == m.cache[k]),
        },
    decreases rs.len(),
{
    if rs.len() > 0 {
        lemma_drain_round_trip(m, rs.drop_last(), k);
    }
}

/// Draining never marks a key pending: in-flight marks come only from
/// requests, and every drained result clears its own key's mark.
pub proof fn lemma_drain_shrinks_pending(m: EncoderModel, rs: Seq<EncodeResult>, k: CacheKey)
    ensures
        drain_all(m, rs).pending.contains(k) ==> m.pending.contains(k),
    decreases rs.len(),
{
    if rs.len() > 0 {
        lemma_drain_shrinks_pending(m, rs.drop_last(), k);
    }
}

/// An emptied cache answers no lookup and counts zero entries.
pub proof fn lemma_cleared_cache(m: EncoderModel, k: CacheKey)
    requires
        m.cache == Map::<CacheKey, StatefulProtocol>::empty(),
    ensures
        !m.cache.dom().contains(k),
        m.cache.dom().len() == 0,
{
    assert(m.cache.dom() =~= Set::<CacheKey>::empty());
}

/// Relies on std::sync::mpsc::Sender::send: delivers the request into the
/// worker's queue; a send error (the worker is gone) is ignored, as the
/// result of such a job could never be drained anyway.
#[verifier::external_body]
fn send_request(tx: &Sender<EncodeRequest>, req: EncodeRequest) {
    let _ = tx.send(req);
}

/// Relies on std::sync::mpsc::Receiver::try_recv: returns a queued result
/// without blocking, or nothing when the queue is empty or disconnected.
/// Which result arrives, if any, depends on the worker, so nothing is
/// promised of the value.
#[verifier::external_body]
fn try_recv_result(rx: &Receiver<EncodeResult>) -> (r: Option<EncodeResult>) {
    match rx.try_recv() {
        Ok(res) => Some(res),
        Err(_) => None,
    }
}

/// Background image encoder front end: owns the cache and the in-flight
/// set, and talks to the worker only through the two queues.
pub struct ImageEncoder {
    tx: Sender<EncodeRequest>,
    rx: Receiver<EncodeResult>,
    cache_keys: Vec<CacheKey>,
    cache_vals: Vec<StatefulProtocol>,
    pending: Vec<CacheKey>,
}

impl View for ImageEncoder {
    type V = EncoderModel;

    closed spec fn view(&self) -> EncoderModel {
        EncoderModel {
            cache: Map::new(
                |k: CacheKey| self.cache_keys@.contains(k),
                |k: CacheKey| self.cache_vals@[self.cache_keys@.index_of(k)],
            ),
            pending: self.pending@.to_set(),
        }
    }
}

/// Linear search for a key; the cache is small (one entry per visible cell
/// size ever requested).
fn find_key(keys: &Vec<CacheKey>, key: CacheKey) -> (r: Option<usize>)
    ensures
        match r {
            Some(i) => i < keys@.len() && keys@[i as int] == key,
            None => !keys@.contains(key),
        },
{
    let mut i: usize = 0;
    while i < keys.len()
        invariant
            i <= keys@.len(),
            forall|j: int| 0 <= j < i ==> keys@[j] != key,
        decreases keys@.len() - i,
    {
        if keys[i] == key {
            return Some(i);
        }
        i += 1;
    }
    None
}

impl ImageEncoder {
    /// The bookkeeping invariant: no key twice, one value per key.
    pub closed spec fn wf(&self) -> bool {
        &&& self.cache_keys@.no_duplicates()
        &&& self.pending@.no_duplicates()
        &&& self.cache_keys@.len() == self.cache_vals@.len()
    }

    /// A fresh encoder over the two queue endpoints the caller created
    /// together with the worker: nothing cached, nothing pending.
    pub fn new(tx: Sender<EncodeRequest>, rx: Receiver<EncodeResult>) -> (e: ImageEncoder)
        ensures
            e.wf(),
            e@.cache == Map::<CacheKey, StatefulProtocol>::empty(),
            e@.pending == Set::<CacheKey>::empty(),
    {
        let e = ImageEncoder {
            tx,
            rx,
            cache_keys: Vec::new(),
            cache_vals: Vec::new(),
            pending: Vec::new(),
        };
        proof {
            assert(e@.cache =~= Map::<CacheKey, StatefulProtocol>::empty());
            assert(e@.pending =~= Set::<CacheKey>::empty());
        }
        e
    }

    /// Requests an encode unless the key is already present or pending: the
    /// deduplication that keeps at most one job in flight per key. Only on a
    /// miss does the body enqueue a job and mark the key pending.
    pub fn request_encode(&mut self, index: usize, image: DynamicImage, width: u16, height: u16)
        requires
            old(self).wf(),
        ensures
            final(self).wf(),
            final(self)@ == request_transition(old(self)@, CacheKey { index, width, height }),
    {
        let key = CacheKey { index, width, height };
        if find_key(&self.cache_keys, key).is_some() {
            assert(self@ =~= request_transition(old(self)@, key));
            return ;
        }
        if find_key(&self.pending, key).is_some() {
            assert(self@ =~= request_transition(old(self)@, key));
            return ;
        }
        self.pending.push(key);
        send_request(&self.tx, EncodeRequest { index, image, width, height });
        proof {
            let before = old(self).pending@;
            let after = self.pending@;
            assert(after.drop_last() =~= before);
            assert forall|k2: CacheKey| after.to_set().contains(k2) implies before.to_set().insert(
                key,
            ).contains(k2) by {
                let j = choose|j: int| 0 <= j < after.len() && after[j] == k2;
                if j < before.len() {
                    assert(before[j] == k2);
                }
            }
            assert forall|k2: CacheKey| before.to_set().insert(key).contains(k2) implies after.to_set().contains(
                k2,
            ) by {
                if k2 == key {
                    assert(after[after.len() - 1] == k2);
                } else {
                    let j = choose|j: int| 0 <= j < before.len() && before[j] == k2;
                    assert(after[j] == k2);
                }
            }
            assert(self.pending@.to_set() =~= old(self).pending@.to_set().insert(key));
            assert(self@.cache =~= old(self)@.cache);
            assert(self@ =~= request_transition(old(self)@, key));
        }
    }

    /// Stores one drained result: the key stops being pending and its
    /// artifact becomes (or replaces) the present entry.
    fn store_result(&mut self, result: EncodeResult)
        requires
            old(self).wf(),
        ensures
            final(self).wf(),
            final(self)@ == apply_result(old(self)@, result),
    {
        let key = result_key(&result);
        match find_key(&self.pending, key) {
            Some(i) => {
                self.pending.remove(i);
                proof {
                    let before = old(self).pending@;
                    let after = self.pending@;
                    assert(after.no_duplicates()) by {
                        assert forall|a: int, b: int|
                            0 <= a < b < after.len() implies after[a] != after[b] by {
                            if b < i {
                            } else if a < i {
                                assert(after[b] == before[b + 1]);
                            } else {
                                assert(after[a] == before[a + 1] && after[b] == before[b + 1]);
                            }
                        }
                    }
                    assert(after.to_set() =~= before.to_set().remove(key)) by {
                        assert forall|k: CacheKey| after.to_set().contains(k) implies before.to_set()
                            .remove(key).contains(k) by {
                            let j = choose|j: int| 0 <= j < after.len() && after[j] == k;
                            if j < i {
                                assert(before[j] == k);
                            } else {
                                assert(before[j + 1] == k);
                            }
                            assert(k != key);
                        }
                        assert forall|k: CacheKey| before.to_set().remove(key).contains(
                            k,
                        ) implies after.to_set().contains(k) by {
                            let j = choose|j: int| 0 <= j < before.len() && before[j] == k;
                            if j < i {
                                assert(after[j] == k);
                            } else if j > i {
                                assert(after[j - 1] == k);
                            }
                        }
                    }
                }
            },
            None => {
                proof {
                    assert(self.pending@.to_set() =~= old(self).pending@.to_set().remove(key));
                }
            },
        }
        let ghost mid = *self;
        match find_key(&self.cache_keys, key) {
            Some(i) => {
                self.cache_keys.remove(i);
                self.cache_vals.remove(i);
                proof {
                    lemma_removed_key(mid.cache_keys@, mid.cache_vals@, self.cache_keys@, self.cache_vals@, i as int);
                }
            },
            None => {},
        }
        let ghost mid2 = *self;
        assert(!mid2.cache_keys@.contains(key));
        self.cache_keys.push(key);
        self.cache_vals.push(result.protocol);
        proof {
            assert(self.cache_keys@.drop_last() =~= mid2.cache_keys@);
            assert(self.cache_keys@.no_duplicates());
            lemma_pushed_key(mid2.cache_keys@, mid2.cache_vals@, key, result.protocol);
            assert(self@.cache =~= mid2@.cache.insert(key, result.protocol));
            assert(mid2@.cache =~= old(self)@.cache.remove(key));
            assert(self@.cache =~= old(self)@.cache.insert(key, result.protocol));
            assert(self@.pending =~= old(self)@.pending.remove(key));
            assert(self@ =~= apply_result(old(self)@, result));
        }
    }

    /// Drains every result the worker has finished, without blocking, and
    /// stores each under its own key: some batch of results, in arrival
    /// order, is applied to the model.
    pub fn poll_results(&mut self)
        requires
            old(self).wf(),
        ensures
            final(self).wf(),
            exists|rs: Seq<EncodeResult>| final(self)@ == drain_all(old(self)@, rs),
    {
        let ghost m0 = self@;
        let ghost mut rs: Seq<EncodeResult> = Seq::empty();
        // The drain is bounded only to convince the termination check; a
        // worker cannot outrun it.
        let mut budget: usize = usize::MAX;
        loop
            invariant
                self.wf(),
                self@ == drain_all(m0, rs),
            ensures
                self.wf(),
                self@ == drain_all(m0, rs),
            decreases budget,
        {
            if budget == 0 {
                break ;
            }
            budget -= 1;
            match try_recv_result(&self.rx) {
                Some(result) => {
                    let ghost prev = rs;
                    proof {
                        rs = rs.push(result);
                        assert(rs.drop_last() =~= prev);
                    }
                    self.store_result(result);
                },
                None => {
                    break ;
                },
            }
        }
        proof {
            assert(self@ == drain_all(old(self)@, rs));
        }
    }

    /// Pure lookup: the present artifact for the key, handed out as an
    /// exclusive borrow so a draw call can advance its internal state. Only
    /// that one artifact can change through the borrow; every other entry
    /// and the pending set stay as they were.
    pub fn get_cached(&mut self, index: usize, width: u16, height: u16) -> (r: Option<
        &mut StatefulProtocol,
    >)
        requires
            old(self).wf(),
        ensures
            final(self).wf(),
            ({
                let k = CacheKey { index, width, height };
                match r {
                    Some(p) => {
                        &&& old(self)@.cache.dom().contains(k)
                        &&& *p == old(self)@.cache[k]
                        &&& final(self)@.cache[k] == *final(p)
                        &&& forall|k2: CacheKey|
                            #[trigger] final(self)@.cache.dom().contains(k2) <==> old(
                                self,
                            )@.cache.dom().contains(k2)
                        &&& forall|k2: CacheKey|
                            k2 != k && old(self)@.cache.dom().contains(k2)
                                ==> #[trigger] final(self)@.cache[k2] == old(self)@.cache[k2]
                        &&& final(self)@.pending == old(self)@.pending
                    },
                    None => {
                        &&& !old(self)@.cache.dom().contains(k)
                        &&& final(self)@ == old(self)@
                    },
                }
            }),
    {
        let key = CacheKey { index, width, height };
        match find_key(&self.cache_keys, key) {
            Some(i) => {
                proof {
                    lemma_unique_index(self.cache_keys@, key, i as int);
                    assert forall|k2: CacheKey|
                        #[trigger] self.cache_keys@.contains(k2) && k2 != key implies 0
                        <= self.cache_keys@.index_of(k2) < self.cache_keys@.len()
                        && self.cache_keys@[self.cache_keys@.index_of(k2)] == k2
                        && self.cache_keys@.index_of(k2) != i by {
                        let j = choose|j: int|
                            0 <= j < self.cache_keys@.len() && self.cache_keys@[j] == k2;
                        assert(self.cache_keys@[j] == k2);
                    }
                }
                let p = &mut self.cache_vals[i];
                Some(p)
            },
            None => {
                proof {
                    assert(self@ =~= old(self)@);
                }
                None
            },
        }
    }

    /// Drops every present artifact and every pending mark; jobs already
    /// with the worker are not cancelled, their late results simply arrive
    /// into an empty cache.
    pub fn clear_cache(&mut self)
        requires
            old(self).wf(),
        ensures
            final(self).wf(),
            final(self)@.cache == Map::<CacheKey, StatefulProtocol>::empty(),
            final(self)@.pending == Set::<CacheKey>::empty(),
    {
        self.cache_keys.clear();
        self.cache_vals.clear();
        self.pending.clear();
        proof {
            assert(self@.cache =~= Map::<CacheKey, StatefulProtocol>::empty());
            assert(self@.pending =~= Set::<CacheKey>::empty());
        }
    }

    /// How many artifacts are present.
    pub fn cache_len(&self) -> (n: usize)
        requires
            self.wf(),
        ensures
            n == self@.cache.dom().len(),
    {
        proof {
            assert(self@.cache.dom() =~= self.cache_keys@.to_set());
            self.cache_keys@.unique_seq_to_set();
        }
        self.cache_keys.len()
    }
}

/// In a duplicate-free key sequence, `index_of` finds the one position a
/// key sits at.
proof fn lemma_unique_index(keys: Seq<CacheKey>, key: CacheKey, i: int)
    requires
        keys.no_duplicates(),
        0 <= i < keys.len(),
        keys[i] == key,
    ensures
        keys.contains(key),
        keys.index_of(key) == i,
{
    assert(keys.contains(key));
    let j = keys.index_of(key);
    assert(0 <= j < keys.len() && keys[j] == key);
}

/// Removing position `i` removes exactly that key from the keyed view.
proof fn lemma_removed_key(
    keys: Seq<CacheKey>,
    vals: Seq<StatefulProtocol>,
    keys2: Seq<CacheKey>,
    vals2: Seq<StatefulProtocol>,
    i: int,
)
    requires
        keys.no_duplicates(),
        keys.len() == vals.len(),
        0 <= i < keys.len(),
        keys2 == keys.remove(i),
        vals2 == vals.remove(i),
    ensures
        keys2.no_duplicates(),
        Map::new(
            |k: CacheKey| keys2.contains(k),
            |k: CacheKey| vals2[keys2.index_of(k)],
        ) =~= Map::new(
            |k: CacheKey| keys.contains(k),
            |k: CacheKey| vals[keys.index_of(k)],
        ).remove(keys[i]),
{
    assert(keys2.no_duplicates()) by {
        assert forall|a: int, b: int| 0 <= a < b < keys2.len() implies keys2[a] != keys2[b] by {
            if b < i {
            } else if a < i {
                assert(keys2[b] == keys[b + 1]);
            } else {
                assert(keys2[a] == keys[a + 1] && keys2[b] == keys[b + 1]);
            }
        }
    }
    let m2 = Map::new(|k: CacheKey| keys2.contains(k), |k: CacheKey| vals2[keys2.index_of(k)]);
    let m1 = Map::new(|k: CacheKey| keys.contains(k), |k: CacheKey| vals[keys.index_of(k)]);
    assert forall|k: CacheKey| keys2.contains(k) implies keys.contains(k) && k != keys[i] by {
        let j = choose|j: int| 0 <= j < keys2.len() && keys2[j] == k;
        if j < i {
            assert(keys[j] == k);
        } else {
            assert(keys[j + 1] == k);
        }
    }
    assert forall|k: CacheKey| keys.contains(k) && k != keys[i] implies keys2.contains(k) by {
        let j = choose|j: int| 0 <= j < keys.len() && keys[j] == k;
        if j < i {
            assert(keys2[j] == k);
        } else {
            assert(keys2[j - 1] == k);
        }
    }
    assert forall|k: CacheKey| keys2.contains(k) implies m2[k] == m1[k] by {
        let j = choose|j: int| 0 <= j < keys2.len() && keys2[j] == k;
        lemma_unique_index(keys2, k, j);
        if j < i {
            lemma_unique_index(keys, k, j);
        } else {
            lemma_unique_index(keys, k, j + 1);
        }
    }
}

/// Pushing a fresh key appends exactly one entry to the keyed view.
proof fn lemma_pushed_key(
    keys: Seq<CacheKey>,
    vals: Seq<StatefulProtocol>,
    key: CacheKey,
    v: StatefulProtocol,
)
    requires
        keys.no_duplicates(),
        keys.len() == vals.len(),
        !keys.contains(key),
    ensures
        Map::new(
            |k: CacheKey| keys.push(key).contains(k),
            |k: CacheKey| vals.push(v)[keys.push(key).index_of(k)],
        ) =~= Map::new(
            |k: CacheKey| keys.contains(k),
            |k: CacheKey| vals[keys.index_of(k)],
        ).insert(key, v),
{
    let keys2 = keys.push(key);
    let vals2 = vals.push(v);
    assert(keys2.no_duplicates()) by {
        assert forall|a: int, b: int| 0 <= a < b < keys2.len() implies keys2[a] != keys2[b] by {
            if b == keys2.len() - 1 {
                assert(keys2[a] == keys[a]);
                assert(keys.contains(keys[a]));
            }
        }
    }
    assert forall|k: CacheKey| keys2.contains(k) implies keys.contains(k) || k == key by {
        let j = choose|j: int| 0 <= j < keys2.len() && keys2[j] == k;
        if j < keys.len() {
            assert(keys[j] == k);
        }
    }
    assert forall|k: CacheKey| keys.contains(k) implies keys2.contains(k) by {
        let j = choose|j: int| 0 <= j < keys.len() && keys[j] == k;
        assert(keys2[j] == k);
    }
    assert(keys2[keys.len() as int] == key);
    assert(keys2.contains(key));
    lemma_unique_index(keys2, key, keys.len() as int);
    assert forall|k: CacheKey| keys.contains(k) implies vals2[keys2.index_of(k)] == vals[keys.index_of(
        k,
    )] by {
        let j = choose|j: int| 0 <= j < keys.len() && keys[j] == k;
        lemma_unique_index(keys, k, j);
        lemma_unique_index(keys2, k, j);
    }
}

} // verus!
