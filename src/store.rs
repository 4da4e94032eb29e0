//! Per-feed time series of bound records, answering "latest" and "first at or
//! after a time" queries. A batch is applied as one step under `&mut`, so no
//! reader holds the store while part of a batch is in.
use vstd::prelude::*;
use crate::message::{
    bind_proofs, bound, BindingError, Message, MessageIdentifier, MessageState, MessageType,
    RawMessage, RequestTime, Slot, WormholeMerkleMessageProof, time_lt,
};

verus! {

/// Two records that belong to the same series at the same slot.
pub open spec fn same_slot_key(a: MessageState, b: MessageState) -> bool {
    a.id@ == b.id@ && a.slot == b.slot
}

/// What every reachable store content satisfies: each record is well formed,
/// and a series holds at most one record per slot.
pub open spec fn store_ok(s: Set<MessageState>) -> bool {
    &&& forall|e: MessageState| s.contains(e) ==> e.wf()
    &&& forall|a: MessageState, b: MessageState|
        s.contains(a) && s.contains(b) && same_slot_key(a, b) ==> a == b
}

/// Records that a request may return, by publish time.
pub open spec fn admits(when: RequestTime, e: MessageState) -> bool {
    match when {
        RequestTime::Latest => true,
        RequestTime::FirstAfter(t) => e.publish_time >= t,
    }
}

/// `a` is at least as good an answer to `when` as `b`: not older for `Latest`,
/// not newer for `FirstAfter`.
pub open spec fn ranks_over(when: RequestTime, a: MessageState, b: MessageState) -> bool {
    match when {
        RequestTime::Latest => !time_lt(a.spec_time(), b.spec_time()),
        RequestTime::FirstAfter(_) => !time_lt(b.spec_time(), a.spec_time()),
    }
}

/// `e` answers `when` for series `k` of `s`: the newest record of the series
/// for `Latest`; for `FirstAfter(t)` the oldest one published at or after `t`.
pub open spec fn is_answer(
    s: Set<MessageState>,
    k: (Seq<u8>, MessageType),
    when: RequestTime,
    e: MessageState,
) -> bool {
    &&& s.contains(e)
    &&& e.id@ == k
    &&& admits(when, e)
    &&& forall|x: MessageState|
        s.contains(x) && x.id@ == k && admits(when, x) ==> ranks_over(when, e, x)
}

/// Some record of series `k` of `s` is admitted by `when`.
pub open spec fn has_answer(s: Set<MessageState>, k: (Seq<u8>, MessageType), when: RequestTime) -> bool {
    exists|x: MessageState| s.contains(x) && x.id@ == k && admits(when, x)
}

/// `s` with `r` in place of the record of its series at its slot, if any.
pub open spec fn upsert(s: Set<MessageState>, r: MessageState) -> Set<MessageState> {
    s.filter(|e: MessageState| !same_slot_key(e, r)).insert(r)
}

/// `s` after the records of `batch` are upserted in order.
pub open spec fn apply_batch(s: Set<MessageState>, batch: Seq<MessageState>) -> Set<MessageState>
    decreases batch.len(),
{
    if batch.len() == 0 {
        s
    } else {
        upsert(apply_batch(s, batch.drop_last()), batch.last())
    }
}

/// Retention configuration: records within `slot_window` slots of
/// `current_slot` and at most `max_age` seconds older than `now` are kept.
#[derive(Clone, Copy, Debug)]
pub struct RetentionPolicy {
    pub current_slot: u64,
    pub slot_window: u64,
    pub now: i64,
    pub max_age: u64,
}

pub open spec fn within_retention(p: RetentionPolicy, e: MessageState) -> bool {
    &&& p.current_slot - e.slot < p.slot_window
    &&& p.now - e.publish_time <= p.max_age
}

/// Pruning keeps `e` of `s`: it is within retention, or it is what `Latest`
/// answers for its series.
pub open spec fn retained(s: Set<MessageState>, p: RetentionPolicy, e: MessageState) -> bool {
    within_retention(p, e) || is_answer(s, e.id@, RequestTime::Latest, e)
}

/// The records of every series. Its content is the set `self@`; the order of
/// `entries` carries no meaning, and queries rank records by `MessageTime`.
pub struct TimeSeriesStore {
    entries: Vec<MessageState>,
}

impl View for TimeSeriesStore {
    type V = Set<MessageState>;

    closed spec fn view(&self) -> Set<MessageState> {
        Set::new(|e: MessageState| self.entries@.contains(e))
    }
}

impl TimeSeriesStore {
    pub closed spec fn wf(&self) -> bool {
        &&& forall|i: int| 0 <= i < self.entries@.len() ==> (#[trigger] self.entries@[i]).wf()
        &&& forall|i: int, j: int|
            0 <= i < self.entries@.len() && 0 <= j < self.entries@.len() && i != j
                ==> !same_slot_key(#[trigger] self.entries@[i], #[trigger] self.entries@[j])
    }

    proof fn lemma_wf_store_ok(&self)
        requires
            self.wf(),
        ensures
            store_ok(self@),
    {
        assert forall|a: MessageState, b: MessageState|
            self@.contains(a) && self@.contains(b) && same_slot_key(a, b) implies a == b by {
            let i = choose|i: int| 0 <= i < self.entries@.len() && self.entries@[i] == a;
            let j = choose|j: int| 0 <= j < self.entries@.len() && self.entries@[j] == b;
            assert(i == j);
        }
        assert forall|e: MessageState| self@.contains(e) implies e.wf() by {
            let i = choose|i: int| 0 <= i < self.entries@.len() && self.entries@[i] == e;
        }
    }

    pub fn new() -> (r: TimeSeriesStore)
        ensures
            r.wf(),
            r@ == Set::<MessageState>::empty(),
    {
        let r = TimeSeriesStore { entries: Vec::new() };
        assert(r@ =~= Set::<MessageState>::empty());
        r
    }

    /// Index of the record of series `id` at `slot`, if there is one.
    fn find(&self, id: &MessageIdentifier, slot: u64) -> (r: Option<usize>)
        ensures
            match r {
                None => forall|j: int|
                    0 <= j < self.entries@.len() ==> !((#[trigger] self.entries@[j]).id@ == id@
                        && self.entries@[j].slot == slot),
                Some(i) => i < self.entries@.len() && self.entries@[i as int].id@ == id@
                    && self.entries@[i as int].slot == slot,
            },
    {
        let n = self.entries.len();
        let mut i: usize = 0;
        while i < n
            invariant
                n == self.entries@.len(),
                i <= n,
                forall|j: int|
                    0 <= j < i ==> !((#[trigger] self.entries@[j]).id@ == id@
                        && self.entries@[j].slot == slot),
            decreases n - i,
        {
            if self.entries[i].slot == slot && self.entries[i].id.eq(id) {
                return Some(i);
            }
            i = i + 1;
        }
        None
    }

    /// Puts `r` into its series, replacing the record at the same slot.
    fn upsert_one(&mut self, r: MessageState)
        requires
            old(self).wf(),
            r.wf(),
        ensures
            final(self).wf(),
            final(self)@ == upsert(old(self)@, r),
    {
        let ghost before = self.entries@;
        match self.find(&r.id, r.slot) {
            None => {
                self.entries.push(r);
                proof {
                    let after = self.entries@;
                    assert(after =~= before.push(r));
                    assert forall|e: MessageState|
                        #[trigger] self@.contains(e) == upsert(old(self)@, r).contains(e) by {
                        if before.contains(e) {
                            let j = choose|j: int| 0 <= j < before.len() && before[j] == e;
                            assert(after[j] == e);
                        }
                        if after.contains(e) && e != r {
                            let j = choose|j: int| 0 <= j < after.len() && after[j] == e;
                            assert(before[j] == e);
                        }
                        if e == r {
                            assert(after[before.len() as int] == r);
                        }
                    }
                    assert(self@ =~= upsert(old(self)@, r));
                }
            },
            Some(i) => {
                self.entries.remove(i);
                self.entries.push(r);
                proof {
                    let after = self.entries@;
                    let n = before.len();
                    assert(after =~= before.remove(i as int).push(r));
                    assert forall|j: int| 0 <= j < n - 1 implies #[trigger] after[j] == before[
                        if j < i { j } else { j + 1 }] by {}
                    assert forall|e: MessageState|
                        #[trigger] self@.contains(e) == upsert(old(self)@, r).contains(e) by {
                        if before.contains(e) && !same_slot_key(e, r) {
                            let j = choose|j: int| 0 <= j < before.len() && before[j] == e;
                            assert(j != i);
                            let k = if j < i { j } else { j - 1 };
                            assert(after[k] == e);
                        }
                        if after.contains(e) && e != r {
                            let k = choose|k: int| 0 <= k < after.len() && after[k] == e;
                            let j = if k < i { k } else { k + 1 };
                            assert(before[j] == e);
                            assert(j != i);
                        }
                        if e == r {
                            assert(after[n - 1] == r);
                        }
                    }
                    assert(self@ =~= upsert(old(self)@, r));
                }
            },
        }
    }

    /// Upserts every record of a batch, in order, as one step.
    pub fn upsert_batch(&mut self, records: Vec<MessageState>)
        requires
            old(self).wf(),
            forall|i: int| 0 <= i < records@.len() ==> (#[trigger] records@[i]).wf(),
        ensures
            final(self).wf(),
            store_ok(final(self)@),
            final(self)@ == apply_batch(old(self)@, records@),
    {
        let ghost batch = records@;
        let ghost start = self@;
        let mut records = records;
        let ghost mut k: int = 0;
        while records.len() > 0
            invariant
                self.wf(),
                k <= batch.len(),
                0 <= k,
                records@ == batch.subrange(k, batch.len() as int),
                self@ == apply_batch(start, batch.subrange(0, k)),
                forall|i: int| 0 <= i < batch.len() ==> (#[trigger] batch[i]).wf(),
            decreases records@.len(),
        {
            let r = records.remove(0);
            proof {
                assert(batch[k] == r);
                assert(batch.subrange(0, k + 1).drop_last() =~= batch.subrange(0, k));
            }
            self.upsert_one(r);
            proof {
                k = k + 1;
            }
        }
        proof {
            assert(batch.subrange(0, k) =~= batch);
            self.lemma_wf_store_ok();
        }
    }

    /// No record of the series of entry `i` is newer than it.
    fn is_newest_at(&self, i: usize) -> (r: bool)
        requires
            i < self.entries@.len(),
        ensures
            r == forall|j: int|
                0 <= j < self.entries@.len() && (#[trigger] self.entries@[j]).id@
                    == self.entries@[i as int].id@ ==> !time_lt(
                    self.entries@[i as int].spec_time(),
                    self.entries@[j].spec_time(),
                ),
    {
        let n = self.entries.len();
        let t = self.entries[i].time();
        let mut j: usize = 0;
        while j < n
            invariant
                n == self.entries@.len(),
                i < n,
                j <= n,
                t == self.entries@[i as int].spec_time(),
                forall|k: int|
                    0 <= k < j && (#[trigger] self.entries@[k]).id@ == self.entries@[i as int].id@
                        ==> !time_lt(t, self.entries@[k].spec_time()),
            decreases n - j,
        {
            if self.entries[j].id.eq(&self.entries[i].id) && t.is_before(&self.entries[j].time()) {
                return false;
            }
            j = j + 1;
        }
        true
    }

    /// Binds each decoded record of the batch at `slot` to its inclusion proof
    /// and commits the whole batch; when binding fails nothing is committed.
    pub fn ingest(
        &mut self,
        records: Vec<(Message, RawMessage)>,
        proofs: Vec<WormholeMerkleMessageProof>,
        slot: Slot,
    ) -> (r: Result<(), BindingError>)
        requires
            old(self).wf(),
        ensures
            final(self).wf(),
            r is Err <==> records@.len() != proofs@.len(),
            r is Err ==> final(self)@ == old(self)@,
            r is Ok ==> exists|states: Seq<MessageState>|
                {
                    &&& states.len() == records@.len()
                    &&& forall|i: int|
                        0 <= i < states.len() ==> bound(
                            #[trigger] records@[i],
                            proofs@[i],
                            slot,
                            states[i],
                        )
                    &&& final(self)@ == apply_batch(old(self)@, states)
                },
    {
        match bind_proofs(records, proofs, slot) {
            Err(e) => Err(e),
            Ok(states) => {
                let ghost batch = states@;
                proof {
                    assert forall|i: int| 0 <= i < batch.len() implies (#[trigger] batch[i]).wf() by {
                        assert(bound(records@[i], proofs@[i], slot, batch[i]));
                    }
                }
                self.upsert_batch(states);
                Ok(())
            },
        }
    }

    /// Evicts the records outside the retention window, except the newest
    /// record of each series.
    pub fn prune(&mut self, policy: &RetentionPolicy)
        requires
            old(self).wf(),
        ensures
            final(self).wf(),
            store_ok(final(self)@),
            final(self)@ == old(self)@.filter(|e: MessageState| retained(old(self)@, *policy, e)),
    {
        let ghost before = self.entries@;
        let ghost s0 = self@;
        let n = self.entries.len();
        let mut keep: Vec<bool> = Vec::new();
        let mut i: usize = 0;
        while i < n
            invariant
                n == self.entries@.len(),
                self.entries@ == before,
                self@ == s0,
                self.wf(),
                i <= n,
                keep@.len() == i,
                forall|k: int| 0 <= k < i ==> #[trigger] keep@[k] == retained(s0, *policy, before[k]),
            decreases n - i,
        {
            let e = &self.entries[i];
            let in_window = (policy.current_slot as i128) - (e.slot as i128)
                < policy.slot_window as i128 && (policy.now as i128) - (e.publish_time as i128)
                <= policy.max_age as i128;
            let newest = self.is_newest_at(i);
            proof {
                let ei = before[i as int];
                assert(self@.contains(ei));
                if newest {
                    assert forall|x: MessageState|
                        s0.contains(x) && x.id@ == ei.id@ && admits(RequestTime::Latest, x)
                        implies ranks_over(RequestTime::Latest, ei, x) by {
                        let j = choose|j: int| 0 <= j < before.len() && before[j] == x;
                        assert(before[j] == x);
                    }
                } else {
                    let j = choose|j: int|
                        0 <= j < before.len() && (#[trigger] before[j]).id@ == ei.id@ && time_lt(
                            ei.spec_time(),
                            before[j].spec_time(),
                        );
                    assert(s0.contains(before[j]));
                }
            }
            keep.push(in_window || newest);
            i = i + 1;
        }
        let mut rest: Vec<MessageState> = Vec::new();
        std::mem::swap(&mut rest, &mut self.entries);
        let mut k: usize = 0;
        while rest.len() > 0
            invariant
                n == before.len(),
                keep@.len() == n,
                forall|m: int| 0 <= m < n ==> #[trigger] keep@[m] == retained(s0, *policy, before[m]),
                forall|m: int, m2: int|
                    0 <= m < n && 0 <= m2 < n && m != m2 ==> !same_slot_key(
                        #[trigger] before[m],
                        #[trigger] before[m2],
                    ),
                forall|m: int| 0 <= m < n ==> (#[trigger] before[m]).wf(),
                k <= n,
                k + rest@.len() == n,
                rest@ == before.subrange(k as int, n as int),
                forall|e: MessageState|
                    #[trigger] self.entries@.contains(e) <==> exists|m: int|
                        0 <= m < k && keep@[m] && #[trigger] before[m] == e,
                self.wf(),
            decreases rest@.len(),
        {
            let e = rest.remove(0);
            proof {
                assert(before[k as int] == e);
            }
            let ghost prev = self.entries@;
            if keep[k] {
                self.entries.push(e);
                proof {
                    assert forall|i: int, j: int|
                        0 <= i < self.entries@.len() && 0 <= j < self.entries@.len() && i != j
                            implies !same_slot_key(
                        #[trigger] self.entries@[i],
                        #[trigger] self.entries@[j],
                    ) by {
                        if i == prev.len() || j == prev.len() {
                            let o = if i == prev.len() { j } else { i };
                            assert(prev.contains(self.entries@[o]));
                            let m = choose|m: int|
                                0 <= m < k && keep@[m] && #[trigger] before[m] == self.entries@[o];
                            assert(before[m] == self.entries@[o]);
                        } else {
                            assert(prev[i] == self.entries@[i]);
                            assert(prev[j] == self.entries@[j]);
                        }
                    }
                    assert forall|i: int| 0 <= i < self.entries@.len() implies (
                    #[trigger] self.entries@[i]).wf() by {
                        if i < prev.len() {
                            assert(prev[i] == self.entries@[i]);
                        }
                    }
                }
            }
            proof {
                assert forall|x: MessageState|
                    #[trigger] self.entries@.contains(x) <==> exists|m: int|
                        0 <= m < k + 1 && keep@[m] && #[trigger] before[m] == x by {
                    if self.entries@.contains(x) {
                        if prev.contains(x) {
                            let m = choose|m: int| 0 <= m < k && keep@[m] && #[trigger] before[m] == x;
                            assert(0 <= m < k + 1 && keep@[m] && before[m] == x);
                        } else {
                            let i = choose|i: int| 0 <= i < self.entries@.len() && self.entries@[i] == x;
                            assert(i == prev.len());
                            assert(0 <= k < k + 1 && keep@[k as int] && before[k as int] == x);
                        }
                    }
                    if exists|m: int| 0 <= m < k + 1 && keep@[m] && #[trigger] before[m] == x {
                        let m = choose|m: int| 0 <= m < k + 1 && keep@[m] && #[trigger] before[m] == x;
                        if m < k {
                            assert(prev.contains(x));
                            let i = choose|i: int| 0 <= i < prev.len() && prev[i] == x;
                            assert(self.entries@[i] == x);
                        } else {
                            assert(self.entries@[prev.len() as int] == x);
                        }
                    }
                }
            }
            k = k + 1;
        }
        proof {
            self.lemma_wf_store_ok();
        }
    }

    /// The record of series `id` that answers `when`, if the series has one.
    pub fn query(&self, id: &MessageIdentifier, when: RequestTime) -> (r: Option<&MessageState>)
        requires
            self.wf(),
        ensures
            r is None <==> !has_answer(self@, id@, when),
            r matches Some(e) ==> is_answer(self@, id@, when, *e),
    {
        let n = self.entries.len();
        let mut best: Option<usize> = None;
        let mut i: usize = 0;
        while i < n
            invariant
                n == self.entries@.len(),
                i <= n,
                match best {
                    None => forall|j: int|
                        0 <= j < i ==> !((#[trigger] self.entries@[j]).id@ == id@ && admits(
                            when,
                            self.entries@[j],
                        )),
                    Some(b) => {
                        &&& b < i
                        &&& self.entries@[b as int].id@ == id@
                        &&& admits(when, self.entries@[b as int])
                        &&& forall|j: int|
                            0 <= j < i && (#[trigger] self.entries@[j]).id@ == id@ && admits(
                                when,
                                self.entries@[j],
                            ) ==> ranks_over(when, self.entries@[b as int], self.entries@[j])
                    },
                },
            decreases n - i,
        {
            let e = &self.entries[i];
            let admitted = match when {
                RequestTime::Latest => true,
                RequestTime::FirstAfter(t) => e.publish_time >= t,
            };
            if admitted && e.id.eq(id) {
                match best {
                    None => {
                        best = Some(i);
                    },
                    Some(b) => {
                        let current = self.entries[b].time();
                        let better = match when {
                            RequestTime::Latest => current.is_before(&e.time()),
                            RequestTime::FirstAfter(_) => e.time().is_before(&current),
                        };
                        if better {
                            best = Some(i);
                        }
                    },
                }
            }
            i = i + 1;
        }
        match best {
            None => {
                proof {
                    if has_answer(self@, id@, when) {
                        let x = choose|x: MessageState|
                            self@.contains(x) && x.id@ == id@ && admits(when, x);
                        let j = choose|j: int| 0 <= j < self.entries@.len() && self.entries@[j] == x;
                        assert(self.entries@[j] == x);
                    }
                }
                None
            },
            Some(b) => {
                proof {
                    let e = self.entries@[b as int];
                    assert(self@.contains(e));
                    assert forall|x: MessageState|
                        self@.contains(x) && x.id@ == id@ && admits(when, x) implies ranks_over(
                        when,
                        e,
                        x,
                    ) by {
                        let j = choose|j: int| 0 <= j < self.entries@.len() && self.entries@[j] == x;
                        assert(self.entries@[j] == x);
                    }
                }
                Some(&self.entries[b])
            },
        }
    }
}

} // verus!

verus! {

/// Some record of `b` belongs to series `k`.
#[verifier::opaque]
pub open spec fn in_batch_keys(b: Seq<MessageState>, k: (Seq<u8>, MessageType)) -> bool {
    exists|i: int| 0 <= i < b.len() && (#[trigger] b[i]).id@ == k
}

/// `x` is a record of `b` that no later record of its series follows.
#[verifier::opaque]
pub open spec fn is_last_of_series(b: Seq<MessageState>, x: MessageState) -> bool {
    exists|i: int|
        0 <= i < b.len() && #[trigger] b[i] == x && forall|j: int|
            i < j < b.len() ==> (#[trigger] b[j]).id@ != x.id@
}

/// Pruning never evicts the record that `Latest` answers for a series, and
/// that record still answers `Latest` afterwards.
#[verifier::rlimit(10)]
pub proof fn lemma_prune_keeps_latest(
    s: Set<MessageState>,
    p: RetentionPolicy,
    k: (Seq<u8>, MessageType),
    e: MessageState,
)
    requires
        is_answer(s, k, RequestTime::Latest, e),
    ensures
        is_answer(s.filter(|x: MessageState| retained(s, p, x)), k, RequestTime::Latest, e),
{
}

/// Once a batch is applied, every record of it that no later record of the
/// same series and slot replaces is in the store: a batch is never seen in part.
#[verifier::rlimit(10)]
pub proof fn lemma_batch_visible(s: Set<MessageState>, batch: Seq<MessageState>, i: int)
    requires
        0 <= i < batch.len(),
        forall|j: int| i < j < batch.len() ==> !same_slot_key(#[trigger] batch[j], batch[i]),
    ensures
        apply_batch(s, batch).contains(batch[i]),
    decreases batch.len(),
{
    if i < batch.len() - 1 {
        let prefix = batch.drop_last();
        assert forall|j: int| i < j < prefix.len() implies !same_slot_key(
            #[trigger] prefix[j],
            prefix[i],
        ) by {
            assert(prefix[j] == batch[j]);
        }
        lemma_batch_visible(s, prefix, i);
        assert(!same_slot_key(batch[i], batch.last()));
    }
}

#[verifier::rlimit(20)]
proof fn lemma_keys_step(batch: Seq<MessageState>, k: (Seq<u8>, MessageType))
    requires
        batch.len() > 0,
    ensures
        in_batch_keys(batch, k) <==> (in_batch_keys(batch.drop_last(), k) || batch.last().id@ == k),
{
    reveal(in_batch_keys);
    let prefix = batch.drop_last();
    let n = batch.len() - 1;
    if in_batch_keys(batch, k) {
        let i = choose|i: int| 0 <= i < batch.len() && (#[trigger] batch[i]).id@ == k;
        if i < n {
            assert(prefix[i] == batch[i]);
        }
    }
    if in_batch_keys(prefix, k) {
        let i = choose|i: int| 0 <= i < prefix.len() && (#[trigger] prefix[i]).id@ == k;
        assert(batch[i] == prefix[i]);
    }
    if batch.last().id@ == k {
        assert(batch[n] == batch.last());
    }
}

#[verifier::rlimit(20)]
proof fn lemma_last_step(batch: Seq<MessageState>, x: MessageState)
    requires
        batch.len() > 0,
    ensures
        is_last_of_series(batch, x) <==> (x == batch.last() || (is_last_of_series(
            batch.drop_last(),
            x,
        ) && x.id@ != batch.last().id@)),
{
    reveal(is_last_of_series);
    let prefix = batch.drop_last();
    let r = batch.last();
    let n = batch.len() - 1;
    if is_last_of_series(batch, x) {
        let i = choose|i: int|
            0 <= i < batch.len() && #[trigger] batch[i] == x && forall|j: int|
                i < j < batch.len() ==> (#[trigger] batch[j]).id@ != x.id@;
        if i < n {
            assert(batch[n] == r);
            assert(prefix[i] == x);
            assert forall|j: int| i < j < prefix.len() implies (#[trigger] prefix[j]).id@
                != x.id@ by {
                assert(prefix[j] == batch[j]);
            }
        }
    }
    if x == r {
        assert(batch[n] == x);
    }
    if is_last_of_series(prefix, x) && x.id@ != r.id@ {
        let i = choose|i: int|
            0 <= i < prefix.len() && #[trigger] prefix[i] == x && forall|j: int|
                i < j < prefix.len() ==> (#[trigger] prefix[j]).id@ != x.id@;
        assert(batch[i] == x);
        assert forall|j: int| i < j < batch.len() implies (#[trigger] batch[j]).id@ != x.id@ by {
            if j < n {
                assert(prefix[j] == batch[j]);
            }
        }
    }
}

#[verifier::rlimit(20)]
proof fn lemma_last_in_batch(batch: Seq<MessageState>, x: MessageState, slot: u64)
    requires
        is_last_of_series(batch, x),
        forall|i: int| 0 <= i < batch.len() ==> (#[trigger] batch[i]).slot == slot,
    ensures
        x.slot == slot,
        in_batch_keys(batch, x.id@),
{
    reveal(is_last_of_series);
    reveal(in_batch_keys);
    let i = choose|i: int|
        0 <= i < batch.len() && #[trigger] batch[i] == x && forall|j: int|
            i < j < batch.len() ==> (#[trigger] batch[j]).id@ != x.id@;
    assert(batch[i].id@ == x.id@);
}

/// What a batch whose records all carry `slot` leaves in the store: the records
/// not at that slot of a series the batch touches, and the last record of each
/// series of the batch.
#[verifier::rlimit(20)]
pub proof fn lemma_single_slot_batch(s: Set<MessageState>, batch: Seq<MessageState>, slot: u64, x: MessageState)
    requires
        forall|i: int| 0 <= i < batch.len() ==> (#[trigger] batch[i]).slot == slot,
    ensures
        apply_batch(s, batch).contains(x) <==> ((s.contains(x) && !(x.slot == slot
            && in_batch_keys(batch, x.id@))) || is_last_of_series(batch, x)),
    decreases batch.len(),
{
    if batch.len() == 0 {
        reveal(in_batch_keys);
        reveal(is_last_of_series);
    } else {
        let prefix = batch.drop_last();
        assert forall|i: int| 0 <= i < prefix.len() implies (#[trigger] prefix[i]).slot == slot by {
            assert(prefix[i] == batch[i]);
        }
        lemma_single_slot_batch(s, prefix, slot, x);
        lemma_keys_step(batch, x.id@);
        lemma_last_step(batch, x);
        if is_last_of_series(prefix, x) {
            lemma_last_in_batch(prefix, x, slot);
        }
    }
}

/// Applying the same batch, whose records all carry one slot, a second time
/// changes nothing: the store holds the same records.
#[verifier::rlimit(20)]
pub proof fn lemma_batch_idempotent(s: Set<MessageState>, batch: Seq<MessageState>, slot: u64)
    requires
        forall|i: int| 0 <= i < batch.len() ==> (#[trigger] batch[i]).slot == slot,
    ensures
        apply_batch(apply_batch(s, batch), batch) == apply_batch(s, batch),
{
    let once = apply_batch(s, batch);
    assert forall|x: MessageState| #[trigger] apply_batch(once, batch).contains(x) == once.contains(x) by {
        lemma_single_slot_batch(s, batch, slot, x);
        lemma_single_slot_batch(once, batch, slot, x);
        if is_last_of_series(batch, x) {
            lemma_last_in_batch(batch, x, slot);
        }
    }
    assert(apply_batch(once, batch) =~= once);
}

/// In a store content that `store_ok` describes, a request has at most one
/// answer per series, so `query` is fully determined.
#[verifier::rlimit(20)]
pub proof fn lemma_answer_unique(
    s: Set<MessageState>,
    k: (Seq<u8>, MessageType),
    when: RequestTime,
    a: MessageState,
    b: MessageState,
)
    requires
        store_ok(s),
        is_answer(s, k, when, a),
        is_answer(s, k, when, b),
    ensures
        a == b,
{
    assert(ranks_over(when, a, b) && ranks_over(when, b, a));
    assert(same_slot_key(a, b));
}

} // verus!
