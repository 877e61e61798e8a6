//! Properties of the durable stream that hold across operations.
use vstd::prelude::*;

use crate::stream::{
    deliveries, group_index, idle_ids, is_idle, lemma_group_index_absent, lemma_skip_count,
    pending_index, reclaimed, skip_count, GroupModel, PendingEntry,
    StreamEntry, StreamModel,
};

verus! {

/// `group_index` is the first position carrying the name, or the length.
proof fn lemma_group_index_unique(gs: Seq<GroupModel>, name: Seq<char>, k: int)
    requires
        0 <= k <= gs.len(),
        k < gs.len() ==> gs[k].name@ == name,
        forall|j: int| 0 <= j < k ==> #[trigger] gs[j].name@ != name,
    ensures
        group_index(gs, name) == k,
    decreases gs.len(),
{
    if gs.len() > 0 && k > 0 {
        assert(gs[0].name@ != name);
        assert forall|j: int| 0 <= j < k - 1 implies #[trigger] gs.drop_first()[j].name@ != name by {
            assert(gs.drop_first()[j] == gs[j + 1]);
        }
        lemma_group_index_unique(gs.drop_first(), name, k - 1);
    }
}

/// Replacing a group by one of the same name leaves every lookup where it was.
proof fn lemma_group_index_update(gs: Seq<GroupModel>, i: int, g: GroupModel, name: Seq<char>)
    requires
        0 <= i < gs.len(),
        g.name@ == gs[i].name@,
    ensures
        group_index(gs.update(i, g), name) == group_index(gs, name),
{
    lemma_group_index_absent(gs, name);
    let k = group_index(gs, name) as int;
    let t = gs.update(i, g);
    assert forall|j: int| 0 <= j < k implies #[trigger] t[j].name@ != name by {
        assert(gs[j].name@ != name);
    }
    lemma_group_index_unique(t, name, k);
}

/// `pending_index` is the first position carrying the identifier, or the length.
proof fn lemma_pending_index(p: Seq<PendingEntry>, id: u64)
    ensures
        pending_index(p, id) <= p.len(),
        pending_index(p, id) < p.len() ==> p[pending_index(p, id) as int].id == id,
        forall|j: int| 0 <= j < pending_index(p, id) ==> #[trigger] p[j].id != id,
    decreases p.len(),
{
    if p.len() > 0 && p[0].id != id {
        lemma_pending_index(p.drop_first(), id);
        assert forall|j: int| 0 <= j < pending_index(p, id) implies #[trigger] p[j].id != id by {
            if j > 0 {
                assert(p[j] == p.drop_first()[j - 1]);
            }
        }
    }
}

proof fn lemma_pending_index_unique(p: Seq<PendingEntry>, id: u64, k: int)
    requires
        0 <= k <= p.len(),
        k < p.len() ==> p[k].id == id,
        forall|j: int| 0 <= j < k ==> #[trigger] p[j].id != id,
    ensures
        pending_index(p, id) == k,
    decreases p.len(),
{
    if p.len() > 0 && k > 0 {
        assert(p[0].id != id);
        assert forall|j: int| 0 <= j < k - 1 implies #[trigger] p.drop_first()[j].id != id by {
            assert(p.drop_first()[j] == p[j + 1]);
        }
        lemma_pending_index_unique(p.drop_first(), id, k - 1);
    }
}

/// An identifier is pending exactly when some pending record carries it.
proof fn lemma_pending_iff(p: Seq<PendingEntry>, id: u64)
    ensures
        (pending_index(p, id) < p.len()) == (exists|j: int| 0 <= j < p.len() && #[trigger] p[j].id == id),
{
    lemma_pending_index(p, id);
    if pending_index(p, id) == p.len() {
        assert forall|j: int| 0 <= j < p.len() implies #[trigger] p[j].id != id by {}
    } else {
        assert(p[pending_index(p, id) as int].id == id);
    }
}

/// Every identifier that `idle_ids` lists belongs to an idle pending record, and every
/// idle pending record is listed.
proof fn lemma_idle_ids(p: Seq<PendingEntry>, now: u64, min_idle: u64)
    ensures
        forall|x: u64| #[trigger] idle_ids(p, now, min_idle).contains(x) ==> exists|k: int|
            0 <= k < p.len() && #[trigger] p[k].id == x,
        forall|k: int| 0 <= k < p.len() && is_idle(#[trigger] p[k], now, min_idle) ==> idle_ids(
            p,
            now,
            min_idle,
        ).contains(p[k].id),
    decreases p.len(),
{
    if p.len() > 0 {
        let q = p.drop_last();
        lemma_idle_ids(q, now, min_idle);
        let prev = idle_ids(q, now, min_idle);
        let cur = idle_ids(p, now, min_idle);
        assert forall|x: u64| #[trigger] cur.contains(x) implies exists|k: int| 0 <= k < p.len() && #[trigger] p[k].id == x by {
            if prev.contains(x) {
                let k = choose|k: int| 0 <= k < q.len() && #[trigger] q[k].id == x;
                assert(p[k] == q[k]);
            } else {
                let j = choose|j: int| 0 <= j < cur.len() && cur[j] == x;
                assert(j == prev.len());
                assert(p[p.len() - 1].id == x);
            }
        }
        assert forall|k: int| 0 <= k < p.len() && is_idle(#[trigger] p[k], now, min_idle) implies cur.contains(p[k].id) by {
            if k < p.len() - 1 {
                assert(p[k] == q[k]);
                assert(prev.contains(q[k].id));
                let j = choose|j: int| 0 <= j < prev.len() && prev[j] == q[k].id;
                if is_idle(p.last(), now, min_idle) {
                    assert(cur[j] == prev[j]);
                }
            } else {
                assert(cur[cur.len() - 1] == p[k].id);
            }
        }
    }
}

impl StreamModel {
    /// The group has been handed the entry and no longer holds it pending.
    pub open spec fn acknowledged(self, name: Seq<char>, id: u64) -> bool {
        &&& self.has_group(name)
        &&& 1 <= id <= self.group(name).last_delivered
        &&& !self.is_pending(name, id)
    }

    /// The group still needs the entry: it has not been delivered, or it awaits acknowledgment.
    pub open spec fn needs(self, name: Seq<char>, e: StreamEntry) -> bool {
        e.id > self.group(name).last_delivered || self.is_pending(name, e.id)
    }

    /// Number of entries from the oldest one the group still needs up to the newest.
    pub open spec fn backlog(self, name: Seq<char>) -> nat {
        backlog_from(self, name, self.entries)
    }
}

pub open spec fn backlog_from(s: StreamModel, name: Seq<char>, es: Seq<StreamEntry>) -> nat
    decreases es.len(),
{
    if es.len() == 0 {
        0
    } else if s.needs(name, es[0]) {
        es.len()
    } else {
        backlog_from(s, name, es.drop_first())
    }
}

/// Acknowledging the same entry twice: the second call returns 0 and changes nothing.
pub proof fn law_ack_idempotent(s: StreamModel, name: Seq<char>, id: u64)
    requires
        s.wf(),
    ensures
        s.ack_spec(name, id).ack_count(name, id) == 0,
        s.ack_spec(name, id).ack_spec(name, id) == s.ack_spec(name, id),
{
    if s.is_pending(name, id) {
        let gi = group_index(s.groups, name) as int;
        let g = s.groups[gi];
        let pi = pending_index(g.pending, id) as int;
        let p2 = g.pending.remove(pi);
        let g2 = GroupModel { pending: p2, ..g };
        lemma_group_index_update(s.groups, gi, g2, name);
        lemma_pending_index(g.pending, id);
        assert(s.groups[gi].wf_below(s.next_id));
        assert forall|j: int| 0 <= j < p2.len() implies #[trigger] p2[j].id != id by {
            if j < pi {
                assert(p2[j] == g.pending[j]);
            } else {
                assert(p2[j] == g.pending[j + 1]);
                assert(g.pending[pi].id < g.pending[j + 1].id);
            }
        }
        lemma_pending_index_unique(p2, id, p2.len() as int);
        let s1 = s.ack_spec(name, id);
        assert(s1.groups[gi] == g2);
        assert(!s1.is_pending(name, id));
    }
}

/// A group created once entries exist, read with a batch at least as large as the log,
/// receives every entry in append order.
pub proof fn law_full_replay(s: StreamModel, name: String, count: usize)
    requires
        s.wf(),
        !s.has_group(name@),
        count >= s.entries.len(),
    ensures
        s.ensure_group_spec(name).has_group(name@),
        s.ensure_group_spec(name).read_result(name@, count) == s.entries,
{
    let s1 = s.ensure_group_spec(name);
    lemma_group_index_absent(s.groups, name@);
    let gs = s1.groups;
    assert forall|j: int| 0 <= j < s.groups.len() implies #[trigger] gs[j].name@ != name@ by {
        assert(gs[j] == s.groups[j]);
    }
    lemma_group_index_unique(gs, name@, s.groups.len() as int);
    assert(s1.group(name@).last_delivered == 0);
    if s.entries.len() > 0 {
        assert(s.entries[0].id >= 1);
    }
    assert(skip_count(s.entries, 0) == 0);
    assert(s1.read_result(name@, count) =~= s.entries);
}

/// Once a delivered entry is acknowledged, the group treats it as settled.
pub proof fn law_ack_settles(s: StreamModel, name: Seq<char>, id: u64)
    requires
        s.wf(),
        s.has_group(name),
        1 <= id <= s.group(name).last_delivered,
    ensures
        s.ack_spec(name, id).acknowledged(name, id),
{
    law_ack_idempotent(s, name, id);
    if s.is_pending(name, id) {
        let gi = group_index(s.groups, name) as int;
        let g = s.groups[gi];
        let g2 = GroupModel { pending: g.pending.remove(pending_index(g.pending, id) as int), ..g };
        lemma_group_index_update(s.groups, gi, g2, name);
    }
}

/// A settled entry is returned by no read and no claim of any consumer of the group, and
/// stays settled through every later operation: read, claim, acknowledgment, append,
/// trim and group creation.
pub proof fn law_no_redelivery_after_ack(
    s: StreamModel,
    name: Seq<char>,
    id: u64,
    consumer: String,
    count: usize,
    now: u64,
    min_idle: u64,
    other: u64,
    data: String,
    max_len: usize,
    new_group: String,
)
    requires
        s.wf(),
        s.acknowledged(name, id),
    ensures
        forall|k: int| 0 <= k < s.read_result(name, count).len() ==> #[trigger] s.read_result(
            name,
            count,
        )[k].id != id,
        !idle_ids(s.group(name).pending, now, min_idle).contains(id),
        s.read_spec(name, consumer, count, now).acknowledged(name, id),
        s.claim_spec(name, consumer, now, min_idle).acknowledged(name, id),
        s.ack_spec(name, other).acknowledged(name, id),
        s.append_spec(data).acknowledged(name, id),
        s.trim_spec(max_len).acknowledged(name, id),
        s.ensure_group_spec(new_group).acknowledged(name, id),
{
    let gi = group_index(s.groups, name) as int;
    if !s.has_group(new_group@) {
        let gs = s.ensure_group_spec(new_group).groups;
        lemma_group_index_absent(s.groups, name);
        assert forall|j: int| 0 <= j < gi implies #[trigger] gs[j].name@ != name by {
            assert(gs[j] == s.groups[j]);
        }
        lemma_group_index_unique(gs, name, gi);
        assert(gs[gi] == s.groups[gi]);
    }
    let g = s.groups[gi];
    let p = g.pending;
    lemma_pending_iff(p, id);
    lemma_skip_count(s.entries, g.last_delivered);
    let r = s.read_result(name, count);
    let k0 = s.read_start(name);
    assert forall|k: int| 0 <= k < r.len() implies #[trigger] r[k].id != id by {
        assert(r[k] == s.entries[k0 + k]);
    }
    lemma_idle_ids(p, now, min_idle);
    if idle_ids(p, now, min_idle).contains(id) {
        let k = choose|k: int| 0 <= k < p.len() && #[trigger] p[k].id == id;
        assert(false);
    }
    // a read adds only entries above the old cursor
    let d = deliveries(r, consumer, now);
    let g_read = GroupModel {
        name: g.name,
        last_delivered: if r.len() > 0 { r.last().id } else { g.last_delivered },
        pending: p + d,
    };
    lemma_group_index_update(s.groups, gi, g_read, name);
    let pr = p + d;
    if r.len() > 0 {
        assert(r.last() == s.entries[k0 + r.len() - 1]);
    }
    assert forall|j: int| 0 <= j < pr.len() implies #[trigger] pr[j].id != id by {
        if j >= p.len() {
            assert(pr[j].id == r[j - p.len()].id);
        } else {
            assert(pr[j] == p[j]);
        }
    }
    lemma_pending_iff(pr, id);
    assert(s.read_spec(name, consumer, count, now).groups[gi] == g_read);
    // a claim keeps each identifier in place
    let pc = reclaimed(p, consumer, now, min_idle);
    let g_claim = GroupModel { pending: pc, ..g };
    lemma_group_index_update(s.groups, gi, g_claim, name);
    assert forall|j: int| 0 <= j < pc.len() implies #[trigger] pc[j].id != id by {
        assert(pc[j].id == p[j].id);
    }
    lemma_pending_iff(pc, id);
    assert(s.claim_spec(name, consumer, now, min_idle).groups[gi] == g_claim);
    // an acknowledgment only removes
    if s.is_pending(name, other) {
        let pa = p.remove(pending_index(p, other) as int);
        let g_ack = GroupModel { pending: pa, ..g };
        lemma_group_index_update(s.groups, gi, g_ack, name);
        lemma_pending_index(p, other);
        assert forall|j: int| 0 <= j < pa.len() implies #[trigger] pa[j].id != id by {
            if j < pending_index(p, other) {
                assert(pa[j] == p[j]);
            } else {
                assert(pa[j] == p[j + 1]);
            }
        }
        lemma_pending_iff(pa, id);
        assert(s.ack_spec(name, other).groups[gi] == g_ack);
    }
}

/// An entry left unacknowledged stays pending through a read, and a claim made once it
/// has been idle for `min_idle` returns it again.
pub proof fn law_unacked_entry_redelivered(
    s: StreamModel,
    name: Seq<char>,
    id: u64,
    consumer: String,
    count: usize,
    now: u64,
    min_idle: u64,
)
    requires
        s.wf(),
        s.is_pending(name, id),
        s.group(name).pending[pending_index(s.group(name).pending, id) as int].delivered_at + min_idle
            <= now,
    ensures
        s.read_spec(name, consumer, count, now).is_pending(name, id),
        idle_ids(s.group(name).pending, now, min_idle).contains(id),
        s.claim_spec(name, consumer, now, min_idle).is_pending(name, id),
{
    let gi = group_index(s.groups, name) as int;
    let g = s.groups[gi];
    let p = g.pending;
    lemma_pending_index(p, id);
    let pi = pending_index(p, id) as int;
    lemma_idle_ids(p, now, min_idle);
    assert(is_idle(p[pi], now, min_idle));
    let r = s.read_result(name, count);
    let d = deliveries(r, consumer, now);
    let g_read = GroupModel {
        name: g.name,
        last_delivered: if r.len() > 0 { r.last().id } else { g.last_delivered },
        pending: p + d,
    };
    lemma_group_index_update(s.groups, gi, g_read, name);
    assert((p + d)[pi] == p[pi]);
    lemma_pending_iff(p + d, id);
    assert(s.read_spec(name, consumer, count, now).groups[gi] == g_read);
    let pc = reclaimed(p, consumer, now, min_idle);
    let g_claim = GroupModel { pending: pc, ..g };
    lemma_group_index_update(s.groups, gi, g_claim, name);
    assert(pc[pi].id == id);
    lemma_pending_iff(pc, id);
    assert(s.claim_spec(name, consumer, now, min_idle).groups[gi] == g_claim);
}

proof fn lemma_backlog_from(s: StreamModel, name: Seq<char>, es: Seq<StreamEntry>, i: int)
    requires
        0 <= i < es.len(),
        s.needs(name, es[i]),
    ensures
        backlog_from(s, name, es) >= es.len() - i,
    decreases es.len(),
{
    if !s.needs(name, es[0]) {
        assert(es.drop_first()[i - 1] == es[i]);
        lemma_backlog_from(s, name, es.drop_first(), i - 1);
    }
}

/// Trimming to at least the group's backlog keeps every entry the group still needs.
pub proof fn law_trim_keeps_backlog(s: StreamModel, name: Seq<char>, max_len: usize)
    requires
        s.wf(),
        s.has_group(name),
        max_len >= s.backlog(name),
    ensures
        forall|i: int| 0 <= i < s.entries.len() && s.needs(name, #[trigger] s.entries[i])
            ==> s.trim_spec(max_len).entries.contains(s.entries[i]),
        s.trim_spec(max_len).groups == s.groups,
{
    assert forall|i: int| 0 <= i < s.entries.len() && s.needs(name, #[trigger] s.entries[i])
        implies s.trim_spec(max_len).entries.contains(s.entries[i]) by {
        lemma_backlog_from(s, name, s.entries, i);
        let t = s.trim_spec(max_len).entries;
        if s.entries.len() > max_len {
            let off = s.entries.len() - max_len;
            assert(t[i - off] == s.entries[i]);
        } else {
            assert(t[i] == s.entries[i]);
        }
    }
}

} // verus!

verus! {

/// An acknowledgment keeps the stream well-formed.
pub proof fn lemma_ack_preserves_wf(s: StreamModel, name: Seq<char>, id: u64)
    requires
        s.wf(),
    ensures
        s.ack_spec(name, id).wf(),
{
    if s.is_pending(name, id) {
        let gi = group_index(s.groups, name) as int;
        lemma_group_index_absent(s.groups, name);
        let g = s.groups[gi];
        let p0 = g.pending;
        let i = pending_index(p0, id) as int;
        let p = p0.remove(i);
        let m = s.ack_spec(name, id);
        assert(g.wf_below(s.next_id));
        assert(m.groups[gi].pending == p);
        assert forall|a: int, b: int| 0 <= a < b < p.len() implies #[trigger] p[a].id < #[trigger] p[b].id by {
            let a0 = if a < i { a } else { a + 1 };
            let b0 = if b < i { b } else { b + 1 };
            assert(p[a] == p0[a0]);
            assert(p[b] == p0[b0]);
        }
        assert forall|c: int| 0 <= c < p.len() implies 1 <= #[trigger] p[c].id <= g.last_delivered by {
            let c0 = if c < i { c } else { c + 1 };
            assert(p[c] == p0[c0]);
        }
        assert forall|j: int| 0 <= j < m.groups.len() implies #[trigger] m.groups[j].wf_below(m.next_id) by {
            if j != gi {
                assert(m.groups[j] == s.groups[j]);
            }
        }
        assert forall|a: int, b: int| 0 <= a < b < m.groups.len() implies #[trigger] m.groups[a].name@
            != #[trigger] m.groups[b].name@ by {
            assert(m.groups[a].name == s.groups[a].name);
            assert(m.groups[b].name == s.groups[b].name);
        }
    }
}

/// An acknowledgment keeps the group, its cursor, and every other pending entry.
proof fn lemma_ack_keeps(s: StreamModel, name: Seq<char>, other: u64, id: u64)
    ensures
        s.ack_spec(name, other).has_group(name) == s.has_group(name),
        s.has_group(name) ==> s.ack_spec(name, other).group(name).last_delivered == s.group(
            name,
        ).last_delivered,
        id != other && s.is_pending(name, id) ==> s.ack_spec(name, other).is_pending(name, id),
{
    if s.is_pending(name, other) {
        let gi = group_index(s.groups, name) as int;
        let g = s.groups[gi];
        let pa = g.pending.remove(pending_index(g.pending, other) as int);
        let g2 = GroupModel { pending: pa, ..g };
        lemma_group_index_update(s.groups, gi, g2, name);
        assert(s.ack_spec(name, other).groups[gi] == g2);
        if id != other && s.is_pending(name, id) {
            lemma_pending_iff(g.pending, id);
            let k = choose|k: int| 0 <= k < g.pending.len() && #[trigger] g.pending[k].id == id;
            lemma_pending_index(g.pending, other);
            let po = pending_index(g.pending, other) as int;
            let k2 = if k < po { k } else { k - 1 };
            assert(pa[k2] == g.pending[k]);
            lemma_pending_iff(pa, id);
        }
    }
}

/// The stream after a dispatcher acknowledged, in batch order, exactly the entries of
/// the batch whose delivery succeeded (`delivered[k]` reports on `ids[k]`).
pub open spec fn settle_batch(s: StreamModel, name: Seq<char>, ids: Seq<u64>, delivered: Seq<bool>) -> StreamModel
    decreases ids.len(),
{
    if ids.len() == 0 || delivered.len() == 0 {
        s
    } else {
        let prev = settle_batch(s, name, ids.drop_last(), delivered.drop_last());
        if delivered.last() {
            prev.ack_spec(name, ids.last())
        } else {
            prev
        }
    }
}

/// After a batch delivered to the group is settled, every entry whose delivery succeeded
/// is acknowledged for good, and every entry whose delivery failed is still pending, so a
/// later claim hands it out again.
pub proof fn law_batch_settlement(s: StreamModel, name: Seq<char>, ids: Seq<u64>, delivered: Seq<bool>)
    requires
        s.wf(),
        s.has_group(name),
        ids.len() == delivered.len(),
        forall|k: int| 0 <= k < ids.len() ==> 1 <= #[trigger] ids[k] <= s.group(name).last_delivered,
        forall|a: int, b: int| 0 <= a < b < ids.len() ==> #[trigger] ids[a] != #[trigger] ids[b],
    ensures
        settle_batch(s, name, ids, delivered).wf(),
        settle_batch(s, name, ids, delivered).has_group(name),
        settle_batch(s, name, ids, delivered).group(name).last_delivered == s.group(name).last_delivered,
        forall|k: int| 0 <= k < ids.len() && #[trigger] delivered[k] ==> settle_batch(
            s,
            name,
            ids,
            delivered,
        ).acknowledged(name, ids[k]),
        forall|k: int| 0 <= k < ids.len() && !#[trigger] delivered[k] && s.is_pending(name, ids[k])
            ==> settle_batch(s, name, ids, delivered).is_pending(name, ids[k]),
        forall|x: u64|
            #![trigger s.is_pending(name, x)]
            s.is_pending(name, x) && (forall|k: int| 0 <= k < ids.len() && delivered[k] ==> ids[k] != x)
                ==> settle_batch(s, name, ids, delivered).is_pending(name, x),
    decreases ids.len(),
{
    if ids.len() > 0 {
        let n = ids.len() - 1;
        let ip = ids.drop_last();
        let dp = delivered.drop_last();
        assert forall|k: int| 0 <= k < ip.len() implies 1 <= #[trigger] ip[k] <= s.group(name).last_delivered by {
            assert(ip[k] == ids[k]);
        }
        assert forall|a: int, b: int| 0 <= a < b < ip.len() implies #[trigger] ip[a] != #[trigger] ip[b] by {
            assert(ip[a] == ids[a]);
            assert(ip[b] == ids[b]);
        }
        law_batch_settlement(s, name, ip, dp);
        let prev = settle_batch(s, name, ip, dp);
        let last = ids[n];
        assert(ids.last() == last);
        if delivered[n] {
            let cur = prev.ack_spec(name, last);
            assert(cur == settle_batch(s, name, ids, delivered));
            lemma_ack_preserves_wf(prev, name, last);
            law_ack_settles(prev, name, last);
            assert forall|k: int| 0 <= k < ids.len() && #[trigger] delivered[k] implies cur.acknowledged(
                name,
                ids[k],
            ) by {
                if k < n {
                    assert(dp[k] == delivered[k]);
                    assert(ip[k] == ids[k]);
                    law_no_redelivery_after_ack(
                        prev,
                        name,
                        ids[k],
                        arbitrary(),
                        0,
                        0,
                        0,
                        last,
                        arbitrary(),
                        0,
                        arbitrary(),
                    );
                }
            }
            assert forall|x: u64| s.is_pending(name, x) && (forall|k: int| 0 <= k < ids.len() && delivered[k] ==> ids[k] != x)
                implies #[trigger] cur.is_pending(name, x) by {
                assert forall|k: int| 0 <= k < ip.len() && dp[k] implies ip[k] != x by {
                    assert(dp[k] == delivered[k]);
                    assert(ip[k] == ids[k]);
                }
                lemma_ack_keeps(prev, name, last, x);
            }
            lemma_ack_keeps(prev, name, last, last);
        } else {
            assert(prev == settle_batch(s, name, ids, delivered));
            assert forall|k: int| 0 <= k < ids.len() && #[trigger] delivered[k] implies prev.acknowledged(
                name,
                ids[k],
            ) by {
                assert(dp[k] == delivered[k]);
                assert(ip[k] == ids[k]);
            }
            assert forall|x: u64| s.is_pending(name, x) && (forall|k: int| 0 <= k < ids.len() && delivered[k] ==> ids[k] != x)
                implies #[trigger] prev.is_pending(name, x) by {
                assert forall|k: int| 0 <= k < ip.len() && dp[k] implies ip[k] != x by {
                    assert(dp[k] == delivered[k]);
                    assert(ip[k] == ids[k]);
                }
            }
        }
        let fin = settle_batch(s, name, ids, delivered);
        assert forall|k: int| 0 <= k < ids.len() && !#[trigger] delivered[k] && s.is_pending(name, ids[k])
            implies fin.is_pending(name, ids[k]) by {
            assert forall|j: int| 0 <= j < ids.len() && delivered[j] implies ids[j] != ids[k] by {
                if j < k {
                    assert(ids[j] != ids[k]);
                } else if j > k {
                    assert(ids[k] != ids[j]);
                }
            }
        }
    }
}

} // verus!

verus! {

/// The identifiers of a read batch are strictly increasing (so distinct), at least 1, and
/// at most the group's cursor after the read; the group remains. A batch handed out by
/// `read` therefore meets what `law_batch_settlement` asks of its identifiers.
pub proof fn law_read_batch_ids(s: StreamModel, name: Seq<char>, consumer: String, count: usize, now: u64)
    requires
        s.wf(),
        s.has_group(name),
    ensures
        ({
            let ids = s.read_result(name, count).map_values(|e: StreamEntry| e.id);
            let s1 = s.read_spec(name, consumer, count, now);
            &&& s1.has_group(name)
            &&& forall|a: int, b: int| 0 <= a < b < ids.len() ==> #[trigger] ids[a] < #[trigger] ids[b]
            &&& forall|k: int| 0 <= k < ids.len() ==> 1 <= #[trigger] ids[k] <= s1.group(name).last_delivered
        }),
{
    let gi = group_index(s.groups, name) as int;
    let g = s.groups[gi];
    let r = s.read_result(name, count);
    let k0 = s.read_start(name);
    let ids = r.map_values(|e: StreamEntry| e.id);
    lemma_skip_count(s.entries, g.last_delivered);
    let g_read = GroupModel {
        name: g.name,
        last_delivered: if r.len() > 0 { r.last().id } else { g.last_delivered },
        pending: g.pending + deliveries(r, consumer, now),
    };
    lemma_group_index_update(s.groups, gi, g_read, name);
    let s1 = s.read_spec(name, consumer, count, now);
    assert(s1.groups[gi] == g_read);
    assert forall|a: int, b: int| 0 <= a < b < ids.len() implies #[trigger] ids[a] < #[trigger] ids[b] by {
        assert(r[a] == s.entries[k0 + a]);
        assert(r[b] == s.entries[k0 + b]);
    }
    assert forall|k: int| 0 <= k < ids.len() implies 1 <= #[trigger] ids[k] <= s1.group(name).last_delivered by {
        assert(r[k] == s.entries[k0 + k]);
        assert(r.last() == s.entries[k0 + r.len() - 1]);
    }
}

} // verus!
