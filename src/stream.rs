//! An append-only log with consumer groups, pending entries and acknowledgment.
//!
//! `DurableStream` is an in-memory form of the stream contract: `StreamModel` states what
//! append, group creation, read, acknowledgment, claim and trim do, and the proofs in
//! `laws` hold of every well-formed model. The worker and notifier processes keep their
//! topics in Redis, whose stream commands provide these semantics; this type is where
//! they are stated and checked, not the store those processes run against.
use vstd::prelude::*;

verus! {

/// One appended entry: its identifier and its serialized payload.
#[derive(Debug)]
pub struct StreamEntry {
    pub id: u64,
    pub data: String,
}

impl StreamEntry {
    pub fn copy(&self) -> (r: StreamEntry)
        ensures
            r == *self,
    {
        StreamEntry { id: self.id, data: self.data.clone() }
    }
}

/// An entry delivered to a consumer of a group and not yet acknowledged.
#[derive(Debug)]
pub struct PendingEntry {
    pub id: u64,
    pub consumer: String,
    pub delivered_at: u64,
}

impl PendingEntry {
    pub fn copy(&self) -> (r: PendingEntry)
        ensures
            r == *self,
    {
        PendingEntry { id: self.id, consumer: self.consumer.clone(), delivered_at: self.delivered_at }
    }
}

/// A named cursor over the stream.
pub struct ConsumerGroup {
    pub name: String,
    pub last_delivered: u64,
    pub pending: Vec<PendingEntry>,
}

/// Abstract state of a consumer group.
pub struct GroupModel {
    pub name: String,
    pub last_delivered: u64,
    pub pending: Seq<PendingEntry>,
}

/// Abstract state of the whole stream.
pub struct StreamModel {
    pub entries: Seq<StreamEntry>,
    pub next_id: u64,
    pub groups: Seq<GroupModel>,
}

impl View for ConsumerGroup {
    type V = GroupModel;

    open spec fn view(&self) -> GroupModel {
        GroupModel { name: self.name, last_delivered: self.last_delivered, pending: self.pending@ }
    }
}

/// The durable stream. Entry identifiers start at 1 and strictly increase; 0 denotes
/// the origin from which a new group starts.
pub struct DurableStream {
    entries: Vec<StreamEntry>,
    next_id: u64,
    groups: Vec<ConsumerGroup>,
}

/// Errors reported by stream operations.
#[derive(Clone, Copy, Debug, PartialEq, Eq, Structural)]
pub enum StreamError {
    /// Every identifier has been handed out.
    IdsExhausted,
    /// The named consumer group does not exist.
    NoSuchGroup,
}

pub open spec fn entries_increasing(s: Seq<StreamEntry>) -> bool {
    forall|i: int, j: int| 0 <= i < j < s.len() ==> #[trigger] s[i].id < #[trigger] s[j].id
}

pub open spec fn pending_increasing(p: Seq<PendingEntry>) -> bool {
    forall|i: int, j: int| 0 <= i < j < p.len() ==> #[trigger] p[i].id < #[trigger] p[j].id
}

impl GroupModel {
    pub open spec fn wf_below(self, next_id: u64) -> bool {
        &&& self.last_delivered < next_id
        &&& pending_increasing(self.pending)
        &&& forall|k: int|
            0 <= k < self.pending.len() ==> 1 <= #[trigger] self.pending[k].id <= self.last_delivered
    }
}

/// Position of the first group named `name`, or `gs.len()` when there is none.
pub open spec fn group_index(gs: Seq<GroupModel>, name: Seq<char>) -> nat
    decreases gs.len(),
{
    if gs.len() == 0 {
        0
    } else if gs[0].name@ == name {
        0
    } else {
        1 + group_index(gs.drop_first(), name)
    }
}

/// Position of the pending entry with identifier `id`, or `p.len()` when there is none.
pub open spec fn pending_index(p: Seq<PendingEntry>, id: u64) -> nat
    decreases p.len(),
{
    if p.len() == 0 {
        0
    } else if p[0].id == id {
        0
    } else {
        1 + pending_index(p.drop_first(), id)
    }
}

/// Number of leading entries whose identifier is at most `last`.
pub open spec fn skip_count(s: Seq<StreamEntry>, last: u64) -> nat
    decreases s.len(),
{
    if s.len() == 0 {
        0
    } else if s[0].id > last {
        0
    } else {
        1 + skip_count(s.drop_first(), last)
    }
}

pub open spec fn min_int(a: int, b: int) -> int {
    if a <= b { a } else { b }
}

impl StreamModel {
    pub open spec fn wf(self) -> bool {
        &&& 1 <= self.next_id
        &&& entries_increasing(self.entries)
        &&& forall|i: int|
            0 <= i < self.entries.len() ==> 1 <= #[trigger] self.entries[i].id < self.next_id
        &&& forall|i: int, j: int|
            0 <= i < j < self.groups.len() ==> #[trigger] self.groups[i].name@
                != #[trigger] self.groups[j].name@
        &&& forall|i: int| 0 <= i < self.groups.len() ==> #[trigger] self.groups[i].wf_below(self.next_id)
    }

    pub open spec fn has_group(self, name: Seq<char>) -> bool {
        group_index(self.groups, name) < self.groups.len()
    }

    pub open spec fn group(self, name: Seq<char>) -> GroupModel {
        self.groups[group_index(self.groups, name) as int]
    }

    /// Appending adds one entry carrying the next identifier.
    pub open spec fn append_spec(self, data: String) -> StreamModel {
        StreamModel {
            entries: self.entries.push(StreamEntry { id: self.next_id, data }),
            next_id: (self.next_id + 1) as u64,
            groups: self.groups,
        }
    }

    /// Creating a group that is absent adds it at the origin; otherwise nothing changes.
    pub open spec fn ensure_group_spec(self, name: String) -> StreamModel {
        if self.has_group(name@) {
            self
        } else {
            StreamModel {
                groups: self.groups.push(GroupModel { name, last_delivered: 0, pending: seq![] }),
                ..self
            }
        }
    }

    /// Index of the first entry that the group has not been delivered yet.
    pub open spec fn read_start(self, name: Seq<char>) -> int {
        skip_count(self.entries, self.group(name).last_delivered) as int
    }

    /// The entries a read hands out: the oldest undelivered ones, at most `count`.
    pub open spec fn read_result(self, name: Seq<char>, count: usize) -> Seq<StreamEntry> {
        let k = self.read_start(name);
        self.entries.subrange(k, k + min_int(count as int, self.entries.len() - k))
    }

    /// A read records each returned entry as pending for `consumer` and moves the cursor
    /// past the last of them.
    pub open spec fn read_spec(self, name: Seq<char>, consumer: String, count: usize, now: u64) -> StreamModel {
        let gi = group_index(self.groups, name) as int;
        let g = self.groups[gi];
        let r = self.read_result(name, count);
        let g2 = GroupModel {
            name: g.name,
            last_delivered: if r.len() > 0 { r.last().id } else { g.last_delivered },
            pending: g.pending + deliveries(r, consumer, now),
        };
        StreamModel { groups: self.groups.update(gi, g2), ..self }
    }

    pub open spec fn is_pending(self, name: Seq<char>, id: u64) -> bool {
        self.has_group(name) && pending_index(self.group(name).pending, id) < self.group(name).pending.len()
    }

    /// What `ack` returns: 1 when the entry was pending for the group, else 0.
    pub open spec fn ack_count(self, name: Seq<char>, id: u64) -> nat {
        if self.is_pending(name, id) { 1 } else { 0 }
    }

    /// Acknowledging drops the entry from the group's pending list, if it is there.
    pub open spec fn ack_spec(self, name: Seq<char>, id: u64) -> StreamModel {
        if self.is_pending(name, id) {
            let gi = group_index(self.groups, name) as int;
            let g = self.groups[gi];
            let g2 = GroupModel { pending: g.pending.remove(pending_index(g.pending, id) as int), ..g };
            StreamModel { groups: self.groups.update(gi, g2), ..self }
        } else {
            self
        }
    }

    /// Claiming hands every pending entry idle for at least `min_idle` over to `consumer`.
    pub open spec fn claim_spec(self, name: Seq<char>, consumer: String, now: u64, min_idle: u64) -> StreamModel {
        let gi = group_index(self.groups, name) as int;
        let g = self.groups[gi];
        let g2 = GroupModel { pending: reclaimed(g.pending, consumer, now, min_idle), ..g };
        StreamModel { groups: self.groups.update(gi, g2), ..self }
    }

    /// Trimming keeps the newest `max_len` entries; pending lists are left as they are.
    pub open spec fn trim_spec(self, max_len: usize) -> StreamModel {
        if self.entries.len() > max_len {
            StreamModel {
                entries: self.entries.subrange(self.entries.len() - max_len, self.entries.len() as int),
                ..self
            }
        } else {
            self
        }
    }

    pub open spec fn trim_count(self, max_len: usize) -> int {
        if self.entries.len() > max_len { self.entries.len() - max_len } else { 0 }
    }
}

/// Pending records for entries delivered to `consumer` at time `now`.
pub open spec fn deliveries(r: Seq<StreamEntry>, consumer: String, now: u64) -> Seq<PendingEntry> {
    r.map_values(|e: StreamEntry| PendingEntry { id: e.id, consumer, delivered_at: now })
}

/// A pending entry is idle once `min_idle` has passed since its delivery.
pub open spec fn is_idle(p: PendingEntry, now: u64, min_idle: u64) -> bool {
    p.delivered_at + min_idle <= now
}

/// Identifiers of the idle pending entries, in pending order.
pub open spec fn idle_ids(p: Seq<PendingEntry>, now: u64, min_idle: u64) -> Seq<u64>
    decreases p.len(),
{
    if p.len() == 0 {
        seq![]
    } else {
        let prev = idle_ids(p.drop_last(), now, min_idle);
        if is_idle(p.last(), now, min_idle) {
            prev.push(p.last().id)
        } else {
            prev
        }
    }
}

/// The pending list after the idle entries were handed to `consumer` at `now`.
pub open spec fn reclaimed(p: Seq<PendingEntry>, consumer: String, now: u64, min_idle: u64) -> Seq<PendingEntry> {
    Seq::new(
        p.len(),
        |i: int|
            if is_idle(p[i], now, min_idle) {
                PendingEntry { id: p[i].id, consumer, delivered_at: now }
            } else {
                p[i]
            },
    )
}

impl DurableStream {
    pub closed spec fn model(&self) -> StreamModel {
        StreamModel {
            entries: self.entries@,
            next_id: self.next_id,
            groups: self.groups@.map_values(|g: ConsumerGroup| g@),
        }
    }

    pub open spec fn wf(&self) -> bool {
        self.model().wf()
    }

    /// An empty stream with no groups.
    pub fn new() -> (r: DurableStream)
        ensures
            r.wf(),
            r.model().entries.len() == 0,
            r.model().groups.len() == 0,
            r.model().next_id == 1,
    {
        let r = DurableStream { entries: Vec::new(), next_id: 1, groups: Vec::new() };
        assert(r.model().groups =~= Seq::<GroupModel>::empty());
        r
    }

    /// Appends `data` and returns its new identifier, larger than every earlier one.
    pub fn append(&mut self, data: String) -> (r: Result<u64, StreamError>)
        requires
            old(self).wf(),
        ensures
            final(self).wf(),
            old(self).model().next_id < u64::MAX ==> r == Ok::<u64, StreamError>(
                old(self).model().next_id,
            ) && final(self).model() == old(self).model().append_spec(data),
            r is Ok ==> forall|i: int|
                0 <= i < old(self).model().entries.len() ==> #[trigger] old(self).model().entries[i].id
                    < r->Ok_0,
            old(self).model().next_id == u64::MAX ==> r == Err::<u64, StreamError>(
                StreamError::IdsExhausted,
            ) && final(self).model() == old(self).model(),
    {
        if self.next_id == u64::MAX {
            return Err(StreamError::IdsExhausted);
        }
        let id = self.next_id;
        let ghost old_model = self.model();
        self.entries.push(StreamEntry { id, data });
        self.next_id = id + 1;
        proof {
            let m = self.model();
            assert(m.groups =~= old_model.groups);
            assert forall|i: int| 0 <= i < m.groups.len() implies #[trigger] m.groups[i].wf_below(
                m.next_id,
            ) by {
                assert(old_model.groups[i].wf_below(old_model.next_id));
            }
            assert(m == old_model.append_spec(data));
        }
        Ok(id)
    }

    fn find_group(&self, name: &String) -> (r: usize)
        ensures
            r == group_index(self.model().groups, name@),
    {
        let ghost gs = self.model().groups;
        let mut i: usize = 0;
        assert(gs.subrange(0, gs.len() as int) =~= gs);
        while i < self.groups.len()
            invariant
                i <= self.groups.len(),
                gs == self.model().groups,
                group_index(gs, name@) == i + group_index(gs.subrange(i as int, gs.len() as int), name@),
            decreases self.groups.len() - i,
        {
            assert(gs.subrange(i as int, gs.len() as int).drop_first() =~= gs.subrange(i + 1, gs.len() as int));
            if self.groups[i].name == *name {
                return i;
            }
            i = i + 1;
        }
        assert(gs.subrange(i as int, gs.len() as int).len() == 0);
        i
    }

    fn skip_delivered(&self, last: u64) -> (k: usize)
        ensures
            k == skip_count(self.entries@, last),
    {
        let ghost es = self.entries@;
        let mut k: usize = 0;
        assert(es.subrange(0, es.len() as int) =~= es);
        while k < self.entries.len() && self.entries[k].id <= last
            invariant
                k <= self.entries.len(),
                es == self.entries@,
                skip_count(es, last) == k + skip_count(es.subrange(k as int, es.len() as int), last),
            decreases self.entries.len() - k,
        {
            assert(es.subrange(k as int, es.len() as int).drop_first() =~= es.subrange(k + 1, es.len() as int));
            k = k + 1;
        }
        if k < self.entries.len() {
            assert(es.subrange(k as int, es.len() as int)[0] == es[k as int]);
        } else {
            assert(es.subrange(k as int, es.len() as int).len() == 0);
        }
        k
    }

    /// Hands `consumer` up to `count` entries that the group has not been delivered yet,
    /// oldest first, and records them as pending at time `now`.
    pub fn read(&mut self, name: &String, consumer: &String, count: usize, now: u64) -> (r: Result<Vec<StreamEntry>, StreamError>)
        requires
            old(self).wf(),
        ensures
            final(self).wf(),
            !old(self).model().has_group(name@) ==> r == Err::<Vec<StreamEntry>, StreamError>(
                StreamError::NoSuchGroup,
            ) && final(self).model() == old(self).model(),
            old(self).model().has_group(name@) ==> r is Ok && r->Ok_0@ == old(self).model().read_result(
                name@,
                count,
            ) && final(self).model() == old(self).model().read_spec(name@, *consumer, count, now),
    {
        let gi = self.find_group(name);
        if gi >= self.groups.len() {
            return Err(StreamError::NoSuchGroup);
        }
        let ghost m0 = self.model();
        let ghost es = self.entries@;
        proof {
            lemma_group_index_absent(m0.groups, name@);
            assert(m0.groups[gi as int] == self.groups@[gi as int]@);
        }
        let mut g = self.groups.remove(gi);
        let ghost g0 = g@;
        assert(g0 == m0.groups[gi as int]);
        let last = g.last_delivered;
        let k = self.skip_delivered(last);
        proof {
            lemma_skip_count(es, last);
        }
        let mut out: Vec<StreamEntry> = Vec::new();
        let mut j: usize = k;
        while j < self.entries.len() && out.len() < count
            invariant
                k <= j <= self.entries.len(),
                es == self.entries@,
                out@ == es.subrange(k as int, j as int),
                out.len() <= count,
                g.pending@ == g0.pending + deliveries(out@, *consumer, now),
                g.name == g0.name,
                g.last_delivered == g0.last_delivered,
            decreases self.entries.len() - j,
        {
            let e = self.entries[j].copy();
            let ghost out0 = out@;
            g.pending.push(PendingEntry { id: e.id, consumer: consumer.clone(), delivered_at: now });
            out.push(e);
            proof {
                assert(out@ =~= es.subrange(k as int, j + 1));
                assert(deliveries(out@, *consumer, now) =~= deliveries(out0, *consumer, now).push(
                    PendingEntry { id: e.id, consumer: *consumer, delivered_at: now },
                ));
                assert(g.pending@ =~= g0.pending + deliveries(out@, *consumer, now));
            }
            j = j + 1;
        }
        if out.len() > 0 {
            g.last_delivered = out[out.len() - 1].id;
        }
        let ghost g1 = g@;
        self.groups.insert(gi, g);
        proof {
            let r = m0.read_result(name@, count);
            assert(r =~= out@);
            let m = self.model();
            assert(self.groups@ =~= old(self).groups@.update(gi as int, self.groups@[gi as int]));
            assert(m.groups =~= m0.groups.update(gi as int, g1));
            assert(m == m0.read_spec(name@, *consumer, count, now));
            assert(m0.groups[gi as int].wf_below(m0.next_id));
            let p = g1.pending;
            let n0 = g0.pending.len();
            assert forall|a: int, b: int| 0 <= a < b < p.len() implies #[trigger] p[a].id < #[trigger] p[b].id by {
                if b >= n0 {
                    assert(p[b].id == r[b - n0].id);
                    assert(r[b - n0] == es[k + b - n0]);
                    if a >= n0 {
                        assert(p[a].id == r[a - n0].id);
                        assert(r[a - n0] == es[k + a - n0]);
                    } else {
                        assert(p[a] == g0.pending[a]);
                    }
                } else {
                    assert(p[a] == g0.pending[a]);
                    assert(p[b] == g0.pending[b]);
                }
            }
            assert forall|c: int| 0 <= c < p.len() implies 1 <= #[trigger] p[c].id <= g1.last_delivered by {
                if c >= n0 {
                    assert(p[c].id == r[c - n0].id);
                    assert(r[c - n0] == es[k + c - n0]);
                    assert(r.last() == es[k + r.len() - 1]);
                } else {
                    assert(p[c] == g0.pending[c]);
                    if r.len() > 0 {
                        assert(r.last() == es[k + r.len() - 1]);
                    }
                }
            }
            if r.len() > 0 {
                assert(r.last() == es[k + r.len() - 1]);
            }
            assert(g1.wf_below(m.next_id));
            assert forall|i: int| 0 <= i < m.groups.len() implies #[trigger] m.groups[i].wf_below(m.next_id) by {
                if i != gi {
                    assert(m.groups[i] == m0.groups[i]);
                }
            }
            assert forall|a: int, b: int| 0 <= a < b < m.groups.len() implies #[trigger] m.groups[a].name@
                != #[trigger] m.groups[b].name@ by {
                assert(m.groups[a].name == m0.groups[a].name);
                assert(m.groups[b].name == m0.groups[b].name);
            }
        }
        Ok(out)
    }

    /// Acknowledges entry `id` for the group. Returns 1 when it was pending there and 0
    /// otherwise (already acknowledged, never delivered, unknown group); never fails.
    pub fn ack(&mut self, name: &String, id: u64) -> (r: u64)
        requires
            old(self).wf(),
        ensures
            final(self).wf(),
            r == old(self).model().ack_count(name@, id),
            final(self).model() == old(self).model().ack_spec(name@, id),
    {
        let gi = self.find_group(name);
        if gi >= self.groups.len() {
            return 0;
        }
        let ghost m0 = self.model();
        proof {
            lemma_group_index_absent(m0.groups, name@);
            assert(m0.groups[gi as int] == self.groups@[gi as int]@);
        }
        let mut g = self.groups.remove(gi);
        let ghost g0 = g@;
        let ghost p0 = g0.pending;
        let mut i: usize = 0;
        assert(p0.subrange(0, p0.len() as int) =~= p0);
        while i < g.pending.len() && g.pending[i].id != id
            invariant
                i <= g.pending.len(),
                g@ == g0,
                g.pending@ == p0,
                pending_index(p0, id) == i + pending_index(p0.subrange(i as int, p0.len() as int), id),
            decreases g.pending.len() - i,
        {
            assert(p0.subrange(i as int, p0.len() as int).drop_first() =~= p0.subrange(i + 1, p0.len() as int));
            i = i + 1;
        }
        if i < g.pending.len() {
            assert(p0.subrange(i as int, p0.len() as int)[0] == p0[i as int]);
        } else {
            assert(p0.subrange(i as int, p0.len() as int).len() == 0);
        }
        let found = i < g.pending.len();
        if found {
            g.pending.remove(i);
        }
        let ghost g1 = g@;
        self.groups.insert(gi, g);
        proof {
            let m = self.model();
            assert(self.groups@ =~= old(self).groups@.update(gi as int, self.groups@[gi as int]));
            assert(m.groups =~= m0.groups.update(gi as int, g1));
            assert(m0.groups[gi as int].wf_below(m0.next_id));
            if found {
                let p = g1.pending;
                assert(p =~= p0.remove(i as int));
                assert forall|a: int, b: int| 0 <= a < b < p.len() implies #[trigger] p[a].id < #[trigger] p[b].id by {
                    let a0 = if a < i { a } else { a + 1 };
                    let b0 = if b < i { b } else { b + 1 };
                    assert(p[a] == p0[a0]);
                    assert(p[b] == p0[b0]);
                }
                assert forall|c: int| 0 <= c < p.len() implies 1 <= #[trigger] p[c].id <= g1.last_delivered by {
                    let c0 = if c < i { c } else { c + 1 };
                    assert(p[c] == p0[c0]);
                }
                assert(m == m0.ack_spec(name@, id));
            } else {
                assert(g1 == g0);
                assert(m.groups =~= m0.groups);
            }
            assert forall|j: int| 0 <= j < m.groups.len() implies #[trigger] m.groups[j].wf_below(m.next_id) by {
                if j != gi {
                    assert(m.groups[j] == m0.groups[j]);
                }
            }
            assert forall|a: int, b: int| 0 <= a < b < m.groups.len() implies #[trigger] m.groups[a].name@
                != #[trigger] m.groups[b].name@ by {
                assert(m.groups[a].name == m0.groups[a].name);
                assert(m.groups[b].name == m0.groups[b].name);
            }
        }
        if found { 1 } else { 0 }
    }

    /// Hands every pending entry of the group that has been idle for at least `min_idle`
    /// over to `consumer`, restarting its idle time at `now`, and returns their identifiers.
    pub fn claim_idle(&mut self, name: &String, consumer: &String, now: u64, min_idle: u64) -> (r: Result<Vec<u64>, StreamError>)
        requires
            old(self).wf(),
        ensures
            final(self).wf(),
            !old(self).model().has_group(name@) ==> r == Err::<Vec<u64>, StreamError>(
                StreamError::NoSuchGroup,
            ) && final(self).model() == old(self).model(),
            old(self).model().has_group(name@) ==> r is Ok && r->Ok_0@ == idle_ids(
                old(self).model().group(name@).pending,
                now,
                min_idle,
            ) && final(self).model() == old(self).model().claim_spec(name@, *consumer, now, min_idle),
    {
        let gi = self.find_group(name);
        if gi >= self.groups.len() {
            return Err(StreamError::NoSuchGroup);
        }
        let ghost m0 = self.model();
        proof {
            lemma_group_index_absent(m0.groups, name@);
            assert(m0.groups[gi as int] == self.groups@[gi as int]@);
        }
        let mut g = self.groups.remove(gi);
        let ghost g0 = g@;
        let ghost p0 = g0.pending;
        let mut fresh: Vec<PendingEntry> = Vec::new();
        let mut ids: Vec<u64> = Vec::new();
        let mut i: usize = 0;
        while i < g.pending.len()
            invariant
                i <= g.pending.len(),
                g@ == g0,
                g.pending@ == p0,
                fresh@ == reclaimed(p0, *consumer, now, min_idle).subrange(0, i as int),
                ids@ == idle_ids(p0.subrange(0, i as int), now, min_idle),
            decreases g.pending.len() - i,
        {
            let p = &g.pending[i];
            let idle = now >= p.delivered_at && now - p.delivered_at >= min_idle;
            assert(idle == is_idle(p0[i as int], now, min_idle));
            assert(p0.subrange(0, i + 1).drop_last() =~= p0.subrange(0, i as int));
            if idle {
                fresh.push(PendingEntry { id: p.id, consumer: consumer.clone(), delivered_at: now });
                ids.push(p.id);
            } else {
                fresh.push(p.copy());
            }
            assert(fresh@ =~= reclaimed(p0, *consumer, now, min_idle).subrange(0, i + 1));
            i = i + 1;
        }
        assert(p0.subrange(0, p0.len() as int) =~= p0);
        assert(fresh@ =~= reclaimed(p0, *consumer, now, min_idle));
        g.pending = fresh;
        let ghost g1 = g@;
        self.groups.insert(gi, g);
        proof {
            let m = self.model();
            assert(self.groups@ =~= old(self).groups@.update(gi as int, self.groups@[gi as int]));
            assert(m.groups =~= m0.groups.update(gi as int, g1));
            assert(m == m0.claim_spec(name@, *consumer, now, min_idle));
            assert(m0.groups[gi as int].wf_below(m0.next_id));
            let q = g1.pending;
            assert forall|a: int, b: int| 0 <= a < b < q.len() implies #[trigger] q[a].id < #[trigger] q[b].id by {
                assert(q[a].id == p0[a].id);
                assert(q[b].id == p0[b].id);
            }
            assert forall|c: int| 0 <= c < q.len() implies 1 <= #[trigger] q[c].id <= g1.last_delivered by {
                assert(q[c].id == p0[c].id);
            }
            assert forall|j: int| 0 <= j < m.groups.len() implies #[trigger] m.groups[j].wf_below(m.next_id) by {
                if j != gi {
                    assert(m.groups[j] == m0.groups[j]);
                }
            }
            assert forall|a: int, b: int| 0 <= a < b < m.groups.len() implies #[trigger] m.groups[a].name@
                != #[trigger] m.groups[b].name@ by {
                assert(m.groups[a].name == m0.groups[a].name);
                assert(m.groups[b].name == m0.groups[b].name);
            }
        }
        Ok(ids)
    }

    /// Discards the oldest entries so that at most `max_len` remain, whatever their
    /// acknowledgment state, and returns how many were discarded.
    pub fn trim(&mut self, max_len: usize) -> (r: usize)
        requires
            old(self).wf(),
        ensures
            final(self).wf(),
            r == old(self).model().trim_count(max_len),
            final(self).model() == old(self).model().trim_spec(max_len),
    {
        let n = self.entries.len();
        if n <= max_len {
            return 0;
        }
        let ghost es = self.entries@;
        let start = n - max_len;
        let mut kept: Vec<StreamEntry> = Vec::new();
        let mut j: usize = start;
        while j < n
            invariant
                start <= j <= n,
                n == self.entries.len(),
                es == self.entries@,
                kept@ == es.subrange(start as int, j as int),
            decreases n - j,
        {
            kept.push(self.entries[j].copy());
            assert(kept@ =~= es.subrange(start as int, j + 1));
            j = j + 1;
        }
        self.entries = kept;
        proof {
            let m = self.model();
            assert forall|a: int, b: int| 0 <= a < b < m.entries.len() implies #[trigger] m.entries[a].id
                < #[trigger] m.entries[b].id by {
                assert(m.entries[a] == es[a + start]);
                assert(m.entries[b] == es[b + start]);
            }
            assert forall|i: int| 0 <= i < m.entries.len() implies 1 <= #[trigger] m.entries[i].id < m.next_id by {
                assert(m.entries[i] == es[i + start]);
            }
            assert(m.groups == old(self).model().groups);
        }
        start
    }

    /// Number of entries currently held.
    pub fn len(&self) -> (r: usize)
        ensures
            r == self.model().entries.len(),
    {
        self.entries.len()
    }

    /// The entry with identifier `id`, if it is still held.
    pub fn entry(&self, id: u64) -> (r: Option<StreamEntry>)
        ensures
            r.is_some() <==> exists|i: int| 0 <= i < self.model().entries.len() && #[trigger] self.model().entries[i].id == id,
            r.is_some() ==> r.unwrap().id == id && self.model().entries.contains(r.unwrap()),
    {
        let mut i: usize = 0;
        while i < self.entries.len()
            invariant
                i <= self.entries.len(),
                forall|k: int| 0 <= k < i ==> #[trigger] self.entries@[k].id != id,
            decreases self.entries.len() - i,
        {
            if self.entries[i].id == id {
                assert(self.model().entries[i as int].id == id);
                return Some(self.entries[i].copy());
            }
            i = i + 1;
        }
        None
    }

    /// Identifiers pending for the group, oldest delivery position first; `None` when the
    /// group does not exist.
    pub fn pending_ids(&self, name: &String) -> (r: Option<Vec<u64>>)
        ensures
            r.is_some() == self.model().has_group(name@),
            r.is_some() ==> r.unwrap()@ == self.model().group(name@).pending.map_values(|p: PendingEntry| p.id),
    {
        let gi = self.find_group(name);
        if gi >= self.groups.len() {
            return None;
        }
        let ghost p0 = self.groups@[gi as int].pending@;
        assert(self.model().group(name@).pending == p0);
        let mut out: Vec<u64> = Vec::new();
        let mut i: usize = 0;
        while i < self.groups[gi].pending.len()
            invariant
                gi < self.groups.len(),
                p0 == self.groups@[gi as int].pending@,
                i <= p0.len(),
                out@ == p0.subrange(0, i as int).map_values(|p: PendingEntry| p.id),
            decreases p0.len() - i,
        {
            out.push(self.groups[gi].pending[i].id);
            assert(out@ =~= p0.subrange(0, i + 1).map_values(|p: PendingEntry| p.id));
            i = i + 1;
        }
        assert(p0.subrange(0, p0.len() as int) =~= p0);
        Some(out)
    }

    /// Creates the group at the origin when it is absent; returns whether it was created.
    pub fn ensure_group(&mut self, name: &String) -> (created: bool)
        requires
            old(self).wf(),
        ensures
            final(self).wf(),
            created == !old(self).model().has_group(name@),
            final(self).model() == old(self).model().ensure_group_spec(*name),
    {
        let gi = self.find_group(name);
        if gi < self.groups.len() {
            return false;
        }
        let ghost old_model = self.model();
        self.groups.push(ConsumerGroup { name: name.clone(), last_delivered: 0, pending: Vec::new() });
        proof {
            lemma_group_index_absent(old_model.groups, name@);
            let m = self.model();
            assert(m.groups =~= old_model.groups.push(GroupModel { name: *name, last_delivered: 0, pending: seq![] }));
        }
        true
    }
}

/// `skip_count` splits an ordered log into the entries at or below `last` and those above.
pub proof fn lemma_skip_count(s: Seq<StreamEntry>, last: u64)
    requires
        entries_increasing(s),
    ensures
        skip_count(s, last) <= s.len(),
        forall|i: int| 0 <= i < skip_count(s, last) ==> #[trigger] s[i].id <= last,
        forall|i: int| skip_count(s, last) <= i < s.len() ==> #[trigger] s[i].id > last,
    decreases s.len(),
{
    if s.len() > 0 && s[0].id <= last {
        let t = s.drop_first();
        assert forall|a: int, b: int| 0 <= a < b < t.len() implies #[trigger] t[a].id < #[trigger] t[b].id by {
            assert(t[a] == s[a + 1]);
            assert(t[b] == s[b + 1]);
        }
        lemma_skip_count(t, last);
        assert forall|i: int| 0 <= i < skip_count(s, last) implies #[trigger] s[i].id <= last by {
            if i > 0 {
                assert(s[i] == t[i - 1]);
            }
        }
        assert forall|i: int| skip_count(s, last) <= i < s.len() implies #[trigger] s[i].id > last by {
            assert(s[i] == t[i - 1]);
        }
    } else if s.len() > 0 {
        assert forall|i: int| 0 <= i < s.len() implies #[trigger] s[i].id > last by {
            if i > 0 {
                assert(s[0].id < s[i].id);
            }
        }
    }
}

/// When `group_index` is the length, no group carries the name; otherwise it points at one.
pub proof fn lemma_group_index_absent(gs: Seq<GroupModel>, name: Seq<char>)
    ensures
        group_index(gs, name) <= gs.len(),
        group_index(gs, name) < gs.len() ==> gs[group_index(gs, name) as int].name@ == name,
        forall|k: int| 0 <= k < group_index(gs, name) ==> #[trigger] gs[k].name@ != name,
    decreases gs.len(),
{
    if gs.len() > 0 && gs[0].name@ != name {
        lemma_group_index_absent(gs.drop_first(), name);
        assert forall|k: int| 0 <= k < group_index(gs, name) implies #[trigger] gs[k].name@ != name by {
            if k > 0 {
                assert(gs[k] == gs.drop_first()[k - 1]);
            }
        }
    }
}

} // verus!
