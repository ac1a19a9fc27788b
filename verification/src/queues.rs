//! Ready downloads grouped by source: one prompt per group, after a short
//! grace period for a single file and a batch window once a second file from
//! the same source arrives.
use vstd::prelude::*;
use crate::text::{chars_of, string_of, append_chars, seq_eq, text_lt, compare_text, Order,
    lemma_text_lt_asymmetric, lemma_text_lt_total, lemma_text_lt_transitive};
use crate::sort::{stable_sort, lemma_insert_by_at, total_preorder};
use crate::types::{ReadyDownload, download_view};
use crate::daemon::{PendingTable, SINGLE_GROUP_GRACE_MS};

verus! {

/// The domain recorded for a download whose source is not known.
pub open spec fn unknown_source() -> Seq<char> {
    "未知来源"@
}

/// The group a download belongs to: its domain, or, for a download of unknown
/// source, a group of its own named after its path.
pub open spec fn batch_key_spec(d: (Seq<char>, Seq<char>, Seq<char>, u128)) -> Seq<char> {
    if d.2 == unknown_source() {
        "unknown:"@ + d.0
    } else {
        d.2
    }
}

/// The group a download belongs to.
pub fn batch_key(download: &ReadyDownload) -> (r: String)
    ensures
        r@ == batch_key_spec(download_view(*download)),
{
    let domain = chars_of(download.domain.as_str());
    let unknown = chars_of("未知来源");
    if seq_eq(domain.as_slice(), unknown.as_slice()) {
        let mut key = chars_of("unknown:");
        append_chars(&mut key, chars_of(download.path.as_str()).as_slice());
        string_of(key.as_slice())
    } else {
        download.domain.clone()
    }
}

/// Downloads waiting to be offered together.
pub struct DomainQueue {
    pub downloads: Vec<ReadyDownload>,
    pub deadline_ms: u64,
    /// Whether a second download arrived and the batch window applies.
    pub batching: bool,
}

pub open spec fn downloads_view(v: Seq<ReadyDownload>) -> Seq<(Seq<char>, Seq<char>, Seq<char>, u128)> {
    Seq::new(v.len(), |i: int| download_view(v[i]))
}

pub open spec fn queue_view(q: DomainQueue) -> (Seq<(Seq<char>, Seq<char>, Seq<char>, u128)>, u64, bool) {
    (downloads_view(q.downloads@), q.deadline_ms, q.batching)
}

pub open spec fn queues_view_of(raw: Seq<(String, DomainQueue)>) -> Seq<(Seq<char>, (Seq<(Seq<char>, Seq<char>, Seq<char>, u128)>, u64, bool))> {
    Seq::new(raw.len(), |i: int| (raw[i].0@, queue_view(raw[i].1)))
}

/// The index of the group named `k`, or -1.
pub open spec fn find_group<V>(s: Seq<(Seq<char>, V)>, k: Seq<char>) -> int
    decreases s.len(),
{
    if s.len() == 0 {
        -1
    } else if s.last().0 == k {
        s.len() - 1
    } else {
        find_group(s.drop_last(), k)
    }
}

pub proof fn lemma_find_group<V>(s: Seq<(Seq<char>, V)>, k: Seq<char>)
    ensures
        -1 <= find_group(s, k) < s.len(),
        find_group(s, k) >= 0 ==> s[find_group(s, k)].0 == k,
        find_group(s, k) == -1 <==> forall|i: int| 0 <= i < s.len() ==> #[trigger] s[i].0 != k,
    decreases s.len(),
{
    if s.len() > 0 {
        lemma_find_group(s.drop_last(), k);
        if s.last().0 != k {
            if find_group(s.drop_last(), k) == -1 {
                assert forall|i: int| 0 <= i < s.len() implies #[trigger] s[i].0 != k by {
                    if i < s.len() - 1 {
                        assert(s.drop_last()[i].0 == s[i].0);
                    }
                }
            }
        } else {
            assert(s[s.len() - 1].0 == k);
        }
    }
}

pub open spec fn groups_unique<V>(s: Seq<(Seq<char>, V)>) -> bool {
    forall|i: int, j: int| 0 <= i < j < s.len() ==> #[trigger] s[i].0 != #[trigger] s[j].0
}

/// The groups after one more ready download: it joins the group of its
/// source; when that makes two or more and the group was not yet a batch, the
/// group becomes a batch due `batch_window_ms` from now; a download of a new
/// source starts a group due `SINGLE_GROUP_GRACE_MS` from now.
pub open spec fn enqueue_one(
    s: Seq<(Seq<char>, (Seq<(Seq<char>, Seq<char>, Seq<char>, u128)>, u64, bool))>,
    d: (Seq<char>, Seq<char>, Seq<char>, u128),
    now: u64,
    batch_window_ms: u64,
) -> Seq<(Seq<char>, (Seq<(Seq<char>, Seq<char>, Seq<char>, u128)>, u64, bool))> {
    let k = batch_key_spec(d);
    let i = find_group(s, k);
    if i >= 0 {
        let q = s[i].1;
        let ds = q.0.push(d);
        if !q.2 && ds.len() >= 2 {
            s.update(i, (k, (ds, now.saturating_add(batch_window_ms), true)))
        } else {
            s.update(i, (k, (ds, q.1, q.2)))
        }
    } else {
        s.push((k, (seq![d], now.saturating_add(SINGLE_GROUP_GRACE_MS), false)))
    }
}

pub open spec fn enqueue_spec(
    s: Seq<(Seq<char>, (Seq<(Seq<char>, Seq<char>, Seq<char>, u128)>, u64, bool))>,
    ds: Seq<(Seq<char>, Seq<char>, Seq<char>, u128)>,
    now: u64,
    batch_window_ms: u64,
) -> Seq<(Seq<char>, (Seq<(Seq<char>, Seq<char>, Seq<char>, u128)>, u64, bool))>
    decreases ds.len(),
{
    if ds.len() == 0 {
        s
    } else {
        enqueue_one(enqueue_spec(s, ds.drop_last(), now, batch_window_ms), ds.last(), now, batch_window_ms)
    }
}

/// The downloads of the group named `k`, or none when there is no such group.
pub open spec fn group_downloads(
    s: Seq<(Seq<char>, (Seq<(Seq<char>, Seq<char>, Seq<char>, u128)>, u64, bool))>,
    k: Seq<char>,
) -> Seq<(Seq<char>, Seq<char>, Seq<char>, u128)> {
    let i = find_group(s, k);
    if i >= 0 { s[i].1.0 } else { Seq::empty() }
}

/// The downloads of `ds` whose group is `k`, in order.
pub open spec fn downloads_for(ds: Seq<(Seq<char>, Seq<char>, Seq<char>, u128)>, k: Seq<char>) -> Seq<(Seq<char>, Seq<char>, Seq<char>, u128)>
    decreases ds.len(),
{
    if ds.len() == 0 {
        Seq::empty()
    } else {
        let prev = downloads_for(ds.drop_last(), k);
        if batch_key_spec(ds.last()) == k { prev.push(ds.last()) } else { prev }
    }
}

proof fn lemma_enqueue_one_step(
    s: Seq<(Seq<char>, (Seq<(Seq<char>, Seq<char>, Seq<char>, u128)>, u64, bool))>,
    d: (Seq<char>, Seq<char>, Seq<char>, u128),
    now: u64,
    batch_window_ms: u64,
)
    requires
        groups_unique(s),
    ensures
        ({
            let t = enqueue_one(s, d, now, batch_window_ms);
            let key = batch_key_spec(d);
            &&& groups_unique(t)
            &&& s.len() <= t.len() <= s.len() + 1
            &&& forall|i: int| 0 <= i < s.len() ==> (#[trigger] t[i]).0 == s[i].0
            &&& forall|i: int| 0 <= i < s.len() && s[i].0 != key ==> #[trigger] t[i] == s[i]
            &&& forall|i: int| 0 <= i < s.len() && s[i].1.2 ==> (#[trigger] t[i]).1.2
            &&& forall|i: int| s.len() <= i < t.len() ==> (#[trigger] t[i]).0 == key
            &&& forall|k: Seq<char>| #[trigger] group_downloads(t, k) ==
                group_downloads(s, k) + (if key == k { seq![d] } else { Seq::empty() })
            &&& forall|i: int| 0 <= i < s.len() && s[i].1.2 ==> (#[trigger] t[i]).1.1 == s[i].1.1
            &&& forall|i: int| 0 <= i < s.len() && !s[i].1.2 && (#[trigger] t[i]).1.2 ==> t[i].1.1 == now.saturating_add(batch_window_ms)
            &&& forall|i: int| 0 <= i < s.len() && !s[i].1.2 && !(#[trigger] t[i]).1.2 ==> t[i].1.1 == s[i].1.1
            &&& forall|i: int| s.len() <= i < t.len() ==> !(#[trigger] t[i]).1.2 && t[i].1.1 == now.saturating_add(SINGLE_GROUP_GRACE_MS)
        }),
{
    let t = enqueue_one(s, d, now, batch_window_ms);
    let key = batch_key_spec(d);
    let j = find_group(s, key);
    lemma_find_group(s, key);
    assert forall|a: int, b: int| 0 <= a < b < t.len() implies #[trigger] t[a].0 != #[trigger] t[b].0 by {
        if b < s.len() {
            assert(t[a].0 == s[a].0 && t[b].0 == s[b].0);
        } else {
            assert(t[a].0 == s[a].0);
        }
    }
    assert forall|k: Seq<char>| #[trigger] group_downloads(t, k) ==
        group_downloads(s, k) + (if key == k { seq![d] } else { Seq::empty() }) by {
        lemma_find_group(s, k);
        lemma_find_group(t, k);
        if j >= 0 {
            assert forall|i: int| 0 <= i < s.len() implies #[trigger] s[i].0 == t[i].0 by {}
            lemma_find_group_same_keys(s, t, k);
            let i = find_group(s, k);
            if key == k {
                assert(i == j);
                assert(t[i].1.0 == s[i].1.0.push(d));
                assert(s[i].1.0.push(d) =~= s[i].1.0 + seq![d]);
            } else {
                if i >= 0 {
                    assert(i != j);
                    assert(t[i] == s[i]);
                }
                assert(group_downloads(s, k) + Seq::empty() =~= group_downloads(s, k));
            }
        } else {
            assert(t.drop_last() =~= s);
            if key == k {
                assert(find_group(t, k) == s.len());
                assert(Seq::<(Seq<char>, Seq<char>, Seq<char>, u128)>::empty() + seq![d] =~= seq![d]);
            } else {
                assert(find_group(t, k) == find_group(s, k));
                let i = find_group(s, k);
                if i >= 0 {
                    assert(t[i] == s[i]);
                }
                assert(group_downloads(s, k) + Seq::empty() =~= group_downloads(s, k));
            }
        }
    }
}

proof fn lemma_downloads_for_grows(ds: Seq<(Seq<char>, Seq<char>, Seq<char>, u128)>, k: Seq<char>)
    requires
        ds.len() > 0,
    ensures
        downloads_for(ds.drop_last(), k).len() <= downloads_for(ds, k).len(),
        batch_key_spec(ds.last()) == k ==> downloads_for(ds, k).len() > 0,
{
}

/// Adding downloads puts each at the end of its source's group, in the order
/// they came: every group holds what it held followed by the new downloads
/// of its source, so none is lost or doubled. Groups keep their places and
/// names; a group that no new download belongs to is unchanged; a batch stays
/// a batch; and a new group is only made for a source some new download has.
pub proof fn lemma_enqueue_groups(
    s: Seq<(Seq<char>, (Seq<(Seq<char>, Seq<char>, Seq<char>, u128)>, u64, bool))>,
    ds: Seq<(Seq<char>, Seq<char>, Seq<char>, u128)>,
    now: u64,
    batch_window_ms: u64,
)
    requires
        groups_unique(s),
    ensures
        ({
            let t = enqueue_spec(s, ds, now, batch_window_ms);
            &&& groups_unique(t)
            &&& forall|k: Seq<char>| #[trigger] group_downloads(t, k) == group_downloads(s, k) + downloads_for(ds, k)
            &&& s.len() <= t.len()
            &&& forall|i: int| 0 <= i < s.len() ==> (#[trigger] t[i]).0 == s[i].0
            &&& forall|i: int| 0 <= i < s.len() && downloads_for(ds, s[i].0).len() == 0 ==> #[trigger] t[i] == s[i]
            &&& forall|i: int| 0 <= i < s.len() && s[i].1.2 ==> (#[trigger] t[i]).1.2
            &&& forall|i: int| s.len() <= i < t.len() ==> downloads_for(ds, (#[trigger] t[i]).0).len() > 0
            &&& forall|i: int| 0 <= i < s.len() && s[i].1.2 ==> (#[trigger] t[i]).1.1 == s[i].1.1
            &&& forall|i: int| 0 <= i < s.len() && !s[i].1.2 && (#[trigger] t[i]).1.2 ==> t[i].1.1 == now.saturating_add(batch_window_ms)
            &&& forall|i: int| 0 <= i < s.len() && !s[i].1.2 && !(#[trigger] t[i]).1.2 ==> t[i].1.1 == s[i].1.1
            &&& forall|i: int| s.len() <= i < t.len() ==> (#[trigger] t[i]).1.1 == (if t[i].1.2 {
                now.saturating_add(batch_window_ms) } else { now.saturating_add(SINGLE_GROUP_GRACE_MS) })
        }),
    decreases ds.len(),
{
    let t = enqueue_spec(s, ds, now, batch_window_ms);
    if ds.len() == 0 {
        assert forall|k: Seq<char>| #[trigger] group_downloads(t, k) == group_downloads(s, k) + downloads_for(ds, k) by {
            assert(group_downloads(s, k) + Seq::empty() =~= group_downloads(s, k));
        }
    } else {
        let dl = ds.drop_last();
        let d = ds.last();
        let key = batch_key_spec(d);
        lemma_enqueue_groups(s, dl, now, batch_window_ms);
        let t0 = enqueue_spec(s, dl, now, batch_window_ms);
        lemma_enqueue_one_step(t0, d, now, batch_window_ms);
        assert(t == enqueue_one(t0, d, now, batch_window_ms));
        assert forall|k: Seq<char>| #[trigger] group_downloads(t, k) == group_downloads(s, k) + downloads_for(ds, k) by {
            assert(group_downloads(t0, k) == group_downloads(s, k) + downloads_for(dl, k));
            if key == k {
                assert(group_downloads(s, k) + downloads_for(ds, k)
                    =~= group_downloads(s, k) + downloads_for(dl, k) + seq![d]);
            } else {
                assert(group_downloads(s, k) + downloads_for(dl, k) + Seq::empty()
                    =~= group_downloads(s, k) + downloads_for(dl, k));
            }
        }
        assert forall|i: int| 0 <= i < s.len() && downloads_for(ds, s[i].0).len() == 0 implies #[trigger] t[i] == s[i] by {
            lemma_downloads_for_grows(ds, s[i].0);
            assert(t0[i] == s[i]);
            assert(t0[i].0 != key);
        }
        assert forall|i: int| 0 <= i < s.len() && s[i].1.2 implies (#[trigger] t[i]).1.2 by {
            assert(t0[i].1.2);
        }
        assert forall|i: int| 0 <= i < s.len() implies (#[trigger] t[i]).0 == s[i].0 by {
            assert(t0[i].0 == s[i].0);
        }
        assert forall|i: int| 0 <= i < s.len() && s[i].1.2 implies (#[trigger] t[i]).1.1 == s[i].1.1 by {
            assert(t0[i].1.2 && t0[i].1.1 == s[i].1.1);
        }
        assert forall|i: int| 0 <= i < s.len() && !s[i].1.2 && (#[trigger] t[i]).1.2 implies t[i].1.1 == now.saturating_add(batch_window_ms) by {
            if t0[i].1.2 {
                assert(t[i].1.1 == t0[i].1.1);
            }
        }
        assert forall|i: int| 0 <= i < s.len() && !s[i].1.2 && !(#[trigger] t[i]).1.2 implies t[i].1.1 == s[i].1.1 by {
            assert(!t0[i].1.2);
            assert(t0[i].1.1 == s[i].1.1);
        }
        assert forall|i: int| s.len() <= i < t.len() implies (#[trigger] t[i]).1.1 == (if t[i].1.2 {
            now.saturating_add(batch_window_ms) } else { now.saturating_add(SINGLE_GROUP_GRACE_MS) }) by {
            if i < t0.len() {
                assert(t0[i].1.1 == (if t0[i].1.2 { now.saturating_add(batch_window_ms) } else { now.saturating_add(SINGLE_GROUP_GRACE_MS) }));
                if t0[i].1.2 {
                    assert(t[i].1.1 == t0[i].1.1);
                }
            }
        }
        assert forall|i: int| s.len() <= i < t.len() implies downloads_for(ds, (#[trigger] t[i]).0).len() > 0 by {
            lemma_downloads_for_grows(ds, t[i].0);
            if i < t0.len() {
                assert(t[i].0 == t0[i].0);
                assert(downloads_for(dl, t0[i].0).len() > 0);
            } else {
                assert(t[i].0 == key);
            }
        }
    }
}

/// The groups of ready downloads, one per source.
pub struct DomainQueues {
    queues: Vec<(String, DomainQueue)>,
}

impl View for DomainQueues {
    type V = Seq<(Seq<char>, (Seq<(Seq<char>, Seq<char>, Seq<char>, u128)>, u64, bool))>;

    closed spec fn view(&self) -> Self::V {
        queues_view_of(self.queues@)
    }
}

fn find_group_index(queues: &Vec<(String, DomainQueue)>, key: &str) -> (r: Option<usize>)
    ensures
        match r {
            Some(i) => i < queues@.len() && i == find_group(queues_view_of(queues@), key@),
            None => find_group(queues_view_of(queues@), key@) == -1,
        },
{
    let ghost s = queues_view_of(queues@);
    let k = chars_of(key);
    let mut i = queues.len();
    assert(s.take(i as int) == s);
    while i > 0
        invariant
            i <= queues@.len(),
            s == queues_view_of(queues@),
            k@ == key@,
            find_group(s, key@) == find_group(s.take(i as int), key@),
        decreases i,
    {
        assert(s.take(i as int).drop_last() == s.take(i as int - 1));
        assert(s.take(i as int).last() == s[i as int - 1]);
        if seq_eq(chars_of(queues[i - 1].0.as_str()).as_slice(), k.as_slice()) {
            return Some(i - 1);
        }
        i = i - 1;
    }
    None
}

/// A queue whose download list has two or more downloads is a batch.
pub open spec fn batches_marked(s: Seq<(Seq<char>, (Seq<(Seq<char>, Seq<char>, Seq<char>, u128)>, u64, bool))>) -> bool {
    forall|i: int| 0 <= i < s.len() ==> (#[trigger] s[i]).1.0.len() >= 2 ==> s[i].1.2
}

impl DomainQueues {
    /// Each source has at most one group.
    pub open spec fn wf(&self) -> bool {
        groups_unique(self@)
    }

    /// No groups.
    pub fn new() -> (q: DomainQueues)
        ensures
            q@.len() == 0,
            q.wf(),
    {
        DomainQueues { queues: Vec::new() }
    }

    /// The number of groups.
    pub fn len(&self) -> (n: usize)
        ensures
            n == self@.len(),
    {
        self.queues.len()
    }

    /// Whether there is no group.
    pub fn is_empty(&self) -> (b: bool)
        ensures
            b == (self@.len() == 0),
    {
        self.queues.len() == 0
    }

    /// Frees spare room when there is no group; the groups do not change.
    pub fn compact(&mut self)
        ensures
            final(self)@ == old(self)@,
    {
        if self.queues.len() == 0 {
            crate::daemon::shrink_vec(&mut self.queues);
        }
    }
}

/// Frees spare room of the groups when there is none.
pub fn compact_domain_queues(queues: &mut DomainQueues)
    ensures
        final(queues)@ == old(queues)@,
{
    queues.compact();
}

/// Adds ready downloads, in order, to the groups of their sources.
pub fn enqueue_ready_downloads(queues: &mut DomainQueues, downloads: Vec<ReadyDownload>, now_ms: u64, batch_window_ms: u64)
    requires
        old(queues).wf(),
    ensures
        final(queues).wf(),
        final(queues)@ == enqueue_spec(old(queues)@, downloads_view(downloads@), now_ms, batch_window_ms),
        forall|i: int| 0 <= i < old(queues)@.len() && old(queues)@[i].1.2 ==>
            (#[trigger] final(queues)@[i]).1.2 && final(queues)@[i].1.1 == old(queues)@[i].1.1,
        forall|i: int| 0 <= i < old(queues)@.len() && !old(queues)@[i].1.2 && (#[trigger] final(queues)@[i]).1.2 ==>
            final(queues)@[i].1.1 == now_ms.saturating_add(batch_window_ms),
{
    proof { lemma_enqueue_groups(old(queues)@, downloads_view(downloads@), now_ms, batch_window_ms); }
    let ghost ds = downloads_view(downloads@);
    let mut i: usize = 0;
    assert(ds.take(0) =~= Seq::<(Seq<char>, Seq<char>, Seq<char>, u128)>::empty());
    while i < downloads.len()
        invariant
            i <= downloads@.len(),
            ds == downloads_view(downloads@),
            queues.wf(),
            queues@ == enqueue_spec(old(queues)@, ds.take(i as int), now_ms, batch_window_ms),
        decreases downloads.len() - i,
    {
        assert(ds.take(i as int + 1).drop_last() == ds.take(i as int));
        assert(ds.take(i as int + 1).last() == ds[i as int]);
        let d = downloads[i].copy();
        let key = batch_key(&d);
        let ghost s = queues@;
        let ghost dv = download_view(d);
        proof { lemma_find_group(s, key@); }
        match find_group_index(&queues.queues, key.as_str()) {
            Some(j) => {
                let (k, mut q) = queues.queues.remove(j);
                let ghost q0 = queue_view(q);
                assert(q0 == s[j as int].1);
                q.downloads.push(d);
                assert(downloads_view(q.downloads@) =~= q0.0.push(dv));
                if !q.batching && q.downloads.len() >= 2 {
                    q.batching = true;
                    q.deadline_ms = now_ms.saturating_add(batch_window_ms);
                }
                queues.queues.insert(j, (k, q));
                assert(queues@ =~= enqueue_one(s, dv, now_ms, batch_window_ms));
            },
            None => {
                let mut v: Vec<ReadyDownload> = Vec::new();
                v.push(d);
                assert(downloads_view(v@) =~= seq![dv]);
                queues.queues.push((key, DomainQueue {
                    downloads: v,
                    deadline_ms: now_ms.saturating_add(SINGLE_GROUP_GRACE_MS),
                    batching: false,
                }));
                assert(queues@ =~= enqueue_one(s, dv, now_ms, batch_window_ms));
            },
        }
        proof {
            let t = queues@;
            assert forall|a: int, b: int| 0 <= a < b < t.len() implies #[trigger] t[a].0 != #[trigger] t[b].0 by {
                if b < s.len() {
                    assert(t[a].0 == s[a].0 && t[b].0 == s[b].0);
                } else {
                    assert(t[a].0 == s[a].0);
                }
            }
        }
        i = i + 1;
    }
    assert(ds.take(downloads@.len() as int) == ds);
}

} // verus!

verus! {

/// Downloads ordered by modification time, then by file name.
pub open spec fn download_order() -> spec_fn((Seq<char>, Seq<char>, Seq<char>, u128), (Seq<char>, Seq<char>, Seq<char>, u128)) -> bool {
    |a: (Seq<char>, Seq<char>, Seq<char>, u128), b: (Seq<char>, Seq<char>, Seq<char>, u128)|
        a.3 < b.3 || (a.3 == b.3 && !text_lt(b.1, a.1))
}

/// Groups ordered by name.
pub open spec fn group_order() -> spec_fn((Seq<char>, Seq<(Seq<char>, Seq<char>, Seq<char>, u128)>), (Seq<char>, Seq<(Seq<char>, Seq<char>, Seq<char>, u128)>)) -> bool {
    |a: (Seq<char>, Seq<(Seq<char>, Seq<char>, Seq<char>, u128)>), b: (Seq<char>, Seq<(Seq<char>, Seq<char>, Seq<char>, u128)>)|
        !text_lt(b.0, a.0)
}

/// The groups due at `now`, by name and download list, in table order.
pub open spec fn due_groups(
    s: Seq<(Seq<char>, (Seq<(Seq<char>, Seq<char>, Seq<char>, u128)>, u64, bool))>,
    now: u64,
) -> Seq<(Seq<char>, Seq<(Seq<char>, Seq<char>, Seq<char>, u128)>)>
    decreases s.len(),
{
    if s.len() == 0 {
        Seq::empty()
    } else if s.last().1.1 <= now {
        due_groups(s.drop_last(), now).push((s.last().0, s.last().1.0))
    } else {
        due_groups(s.drop_last(), now)
    }
}

/// The groups not yet due at `now`, in table order.
pub open spec fn waiting_groups(
    s: Seq<(Seq<char>, (Seq<(Seq<char>, Seq<char>, Seq<char>, u128)>, u64, bool))>,
    now: u64,
) -> Seq<(Seq<char>, (Seq<(Seq<char>, Seq<char>, Seq<char>, u128)>, u64, bool))>
    decreases s.len(),
{
    if s.len() == 0 {
        Seq::empty()
    } else if s.last().1.1 <= now {
        waiting_groups(s.drop_last(), now)
    } else {
        waiting_groups(s.drop_last(), now).push(s.last())
    }
}

/// The download lists of the groups due at `now`: groups by name, and each
/// list by modification time, then file name.
pub open spec fn due_batches(
    s: Seq<(Seq<char>, (Seq<(Seq<char>, Seq<char>, Seq<char>, u128)>, u64, bool))>,
    now: u64,
) -> Seq<Seq<(Seq<char>, Seq<char>, Seq<char>, u128)>> {
    let g = stable_sort(due_groups(s, now), group_order());
    Seq::new(g.len(), |i: int| stable_sort(g[i].1, download_order()))
}

pub open spec fn batches_view(v: Seq<Vec<ReadyDownload>>) -> Seq<Seq<(Seq<char>, Seq<char>, Seq<char>, u128)>> {
    Seq::new(v.len(), |i: int| downloads_view(v[i]@))
}

fn download_le(a: &ReadyDownload, b: &ReadyDownload) -> (r: bool)
    ensures
        r == (download_order())(download_view(*a), download_view(*b)),
{
    if a.modified_ms < b.modified_ms {
        return true;
    }
    if a.modified_ms > b.modified_ms {
        return false;
    }
    match compare_text(chars_of(b.file_name.as_str()).as_slice(), chars_of(a.file_name.as_str()).as_slice()) {
        Order::Less => false,
        _ => true,
    }
}

/// Sorts downloads by time, then name, keeping the order of equal ones.
fn sort_downloads(v: &Vec<ReadyDownload>) -> (r: Vec<ReadyDownload>)
    ensures
        downloads_view(r@) == stable_sort(downloads_view(v@), download_order()),
{
    let ghost vs = downloads_view(v@);
    let mut r: Vec<ReadyDownload> = Vec::new();
    let mut i: usize = 0;
    assert(vs.take(0) =~= Seq::<(Seq<char>, Seq<char>, Seq<char>, u128)>::empty());
    assert(downloads_view(r@) =~= Seq::<(Seq<char>, Seq<char>, Seq<char>, u128)>::empty());
    while i < v.len()
        invariant
            i <= v@.len(),
            vs == downloads_view(v@),
            downloads_view(r@) == stable_sort(vs.take(i as int), download_order()),
        decreases v.len() - i,
    {
        let x = v[i].copy();
        let ghost xv = download_view(x);
        assert(xv == vs[i as int]);
        let mut j = r.len();
        while j > 0 && !download_le(&r[j - 1], &x)
            invariant
                j <= r@.len(),
                xv == download_view(x),
                forall|k: int| j <= k < r@.len() ==> !(download_order())(#[trigger] downloads_view(r@)[k], xv),
            decreases j,
        {
            assert(downloads_view(r@)[j - 1] == download_view(r@[j - 1]));
            j = j - 1;
        }
        proof {
            if j > 0 {
                assert(downloads_view(r@)[j - 1] == download_view(r@[j - 1]));
            }
            lemma_insert_by_at(downloads_view(r@), xv, download_order(), j as int);
            assert(vs.take(i as int + 1).drop_last() == vs.take(i as int));
            assert(vs.take(i as int + 1).last() == xv);
        }
        let ghost before = r@;
        r.insert(j, x);
        assert(downloads_view(r@) =~= downloads_view(before).insert(j as int, xv));
        i = i + 1;
    }
    assert(vs.take(v@.len() as int) == vs);
    r
}

pub open spec fn groups_view(v: Seq<(String, Vec<ReadyDownload>)>) -> Seq<(Seq<char>, Seq<(Seq<char>, Seq<char>, Seq<char>, u128)>)> {
    Seq::new(v.len(), |i: int| (v[i].0@, downloads_view(v[i].1@)))
}

/// A copy of a list of downloads.
fn copy_downloads(v: &Vec<ReadyDownload>) -> (r: Vec<ReadyDownload>)
    ensures
        downloads_view(r@) == downloads_view(v@),
{
    let mut r: Vec<ReadyDownload> = Vec::new();
    let mut i: usize = 0;
    while i < v.len()
        invariant
            i <= v@.len(),
            r@.len() == i,
            forall|k: int| 0 <= k < i ==> download_view(#[trigger] r@[k]) == download_view(v@[k]),
        decreases v.len() - i,
    {
        r.push(v[i].copy());
        i = i + 1;
    }
    assert(downloads_view(r@) =~= downloads_view(v@));
    r
}

/// Whether text `a` comes before text `b`.
fn text_less(a: &str, b: &str) -> (r: bool)
    ensures
        r == text_lt(a@, b@),
{
    match compare_text(chars_of(a).as_slice(), chars_of(b).as_slice()) {
        Order::Less => true,
        _ => false,
    }
}

/// Sorts due groups by name.
fn sort_groups(v: &Vec<(String, Vec<ReadyDownload>)>) -> (r: Vec<(String, Vec<ReadyDownload>)>)
    ensures
        groups_view(r@) == stable_sort(groups_view(v@), group_order()),
{
    let ghost vs = groups_view(v@);
    let mut r: Vec<(String, Vec<ReadyDownload>)> = Vec::new();
    let mut i: usize = 0;
    assert(vs.take(0) =~= Seq::<(Seq<char>, Seq<(Seq<char>, Seq<char>, Seq<char>, u128)>)>::empty());
    assert(groups_view(r@) =~= Seq::<(Seq<char>, Seq<(Seq<char>, Seq<char>, Seq<char>, u128)>)>::empty());
    while i < v.len()
        invariant
            i <= v@.len(),
            vs == groups_view(v@),
            groups_view(r@) == stable_sort(vs.take(i as int), group_order()),
        decreases v.len() - i,
    {
        let x = (v[i].0.clone(), copy_downloads(&v[i].1));
        let ghost xv = (x.0@, downloads_view(x.1@));
        assert(xv == vs[i as int]);
        let mut j = r.len();
        while j > 0 && text_less(x.0.as_str(), r[j - 1].0.as_str())
            invariant
                j <= r@.len(),
                xv == (x.0@, downloads_view(x.1@)),
                forall|k: int| j <= k < r@.len() ==> !(group_order())(#[trigger] groups_view(r@)[k], xv),
            decreases j,
        {
            assert(groups_view(r@)[j - 1].0 == r@[j - 1].0@);
            j = j - 1;
        }
        proof {
            if j > 0 {
                assert(groups_view(r@)[j - 1].0 == r@[j - 1].0@);
            }
            lemma_insert_by_at(groups_view(r@), xv, group_order(), j as int);
            assert(vs.take(i as int + 1).drop_last() == vs.take(i as int));
            assert(vs.take(i as int + 1).last() == xv);
        }
        let ghost before = r@;
        r.insert(j, x);
        assert(groups_view(r@) =~= groups_view(before).insert(j as int, xv));
        i = i + 1;
    }
    assert(vs.take(v@.len() as int) == vs);
    r
}

/// Takes out every group due at `now` and returns their download lists:
/// groups by name, each list by modification time, then file name (equal ones
/// in arrival order). Groups not yet due stay.
pub fn process_due_queues(queues: &mut DomainQueues, now_ms: u64) -> (r: Vec<Vec<ReadyDownload>>)
    requires
        old(queues).wf(),
    ensures
        final(queues).wf(),
        final(queues)@ == waiting_groups(old(queues)@, now_ms),
        batches_view(r@) == due_batches(old(queues)@, now_ms),
{
    let ghost s = queues@;
    let mut due: Vec<(String, Vec<ReadyDownload>)> = Vec::new();
    let mut rest: Vec<(String, DomainQueue)> = Vec::new();
    let ghost mut idx: Seq<int> = Seq::empty();
    let mut i: usize = 0;
    assert(s.take(0) =~= Seq::<(Seq<char>, (Seq<(Seq<char>, Seq<char>, Seq<char>, u128)>, u64, bool))>::empty());
    assert(groups_view(due@) =~= Seq::<(Seq<char>, Seq<(Seq<char>, Seq<char>, Seq<char>, u128)>)>::empty());
    assert(queues_view_of(rest@) =~= Seq::<(Seq<char>, (Seq<(Seq<char>, Seq<char>, Seq<char>, u128)>, u64, bool))>::empty());
    while i < queues.queues.len()
        invariant
            i <= queues.queues@.len(),
            s == queues@,
            s == queues_view_of(queues.queues@),
            groups_unique(s),
            groups_view(due@) == due_groups(s.take(i as int), now_ms),
            queues_view_of(rest@) == waiting_groups(s.take(i as int), now_ms),
            idx.len() == rest@.len(),
            forall|a: int| 0 <= a < rest@.len() ==> 0 <= #[trigger] idx[a] < i && queues_view_of(rest@)[a] == s[idx[a]],
            forall|a: int, b: int| 0 <= a < b < idx.len() ==> #[trigger] idx[a] < #[trigger] idx[b],
        decreases queues.queues.len() - i,
    {
        assert(s.take(i as int + 1).drop_last() == s.take(i as int));
        assert(s.take(i as int + 1).last() == s[i as int]);
        let e = &queues.queues[i];
        if e.1.deadline_ms <= now_ms {
            let ghost before = due@;
            due.push((e.0.clone(), copy_downloads(&e.1.downloads)));
            assert(groups_view(due@) =~= groups_view(before).push((s[i as int].0, s[i as int].1.0)));
        } else {
            let ghost before = rest@;
            let q = DomainQueue { downloads: copy_downloads(&e.1.downloads), deadline_ms: e.1.deadline_ms, batching: e.1.batching };
            rest.push((e.0.clone(), q));
            assert(queues_view_of(rest@) =~= queues_view_of(before).push(s[i as int]));
            proof { idx = idx.push(i as int); }
        }
        i = i + 1;
    }
    assert(s.take(s.len() as int) == s);
    proof {
        let w = queues_view_of(rest@);
        assert forall|a: int, b: int| 0 <= a < b < w.len() implies #[trigger] w[a].0 != #[trigger] w[b].0 by {
            assert(idx[a] < idx[b]);
            assert(w[a] == s[idx[a]] && w[b] == s[idx[b]]);
        }
    }
    queues.queues = rest;
    let sorted = sort_groups(&due);
    let mut r: Vec<Vec<ReadyDownload>> = Vec::new();
    let mut k: usize = 0;
    let ghost g = stable_sort(due_groups(s, now_ms), group_order());
    while k < sorted.len()
        invariant
            k <= sorted@.len(),
            groups_view(sorted@) == g,
            r@.len() == k,
            forall|a: int| 0 <= a < k ==> #[trigger] downloads_view(r@[a]@) == stable_sort(g[a].1, download_order()),
        decreases sorted.len() - k,
    {
        assert(g[k as int].1 == downloads_view(sorted@[k as int].1@));
        let list = sort_downloads(&sorted[k].1);
        r.push(list);
        k = k + 1;
    }
    assert(batches_view(r@) =~= due_batches(s, now_ms));
    r
}

} // verus!

verus! {

/// The shortest time until a group is due (zero when one is overdue).
pub open spec fn queue_wait(
    s: Seq<(Seq<char>, (Seq<(Seq<char>, Seq<char>, Seq<char>, u128)>, u64, bool))>,
    now: u64,
) -> Option<u64>
    decreases s.len(),
{
    if s.len() == 0 {
        None
    } else {
        crate::daemon::min_wait(queue_wait(s.drop_last(), now), Some(s.last().1.1.saturating_sub(now)))
    }
}

impl DomainQueues {
    /// The shortest time until a group is due.
    pub fn min_wait(&self, now_ms: u64) -> (r: Option<u64>)
        ensures
            r == queue_wait(self@, now_ms),
    {
        let ghost s = self@;
        let mut best: Option<u64> = None;
        let mut i: usize = 0;
        assert(s.take(0) =~= Seq::<(Seq<char>, (Seq<(Seq<char>, Seq<char>, Seq<char>, u128)>, u64, bool))>::empty());
        while i < self.queues.len()
            invariant
                i <= self.queues@.len(),
                s == self@,
                s == queues_view_of(self.queues@),
                best == queue_wait(s.take(i as int), now_ms),
            decreases self.queues.len() - i,
        {
            assert(s.take(i as int + 1).drop_last() == s.take(i as int));
            assert(s.take(i as int + 1).last() == s[i as int]);
            let w = self.queues[i].1.deadline_ms.saturating_sub(now_ms);
            best = match best {
                Some(b) => Some(if b <= w { b } else { w }),
                None => Some(w),
            };
            i = i + 1;
        }
        assert(s.take(s.len() as int) == s);
        best
    }
}

/// How long the watcher may sleep: until the next waiting path or group is due.
/// `None` when nothing waits.
pub fn next_timeout(pending: &PendingTable, queues: &DomainQueues, now_ms: u64) -> (r: Option<u64>)
    ensures
        r == crate::daemon::min_wait(crate::daemon::pending_wait(pending@, now_ms), queue_wait(queues@, now_ms)),
{
    let a = pending.min_wait(now_ms);
    let b = queues.min_wait(now_ms);
    match (a, b) {
        (Some(x), Some(y)) => Some(if x <= y { x } else { y }),
        (Some(x), None) => Some(x),
        (None, Some(y)) => Some(y),
        (None, None) => None,
    }
}

} // verus!

verus! {

/// Grouping keeps this promise: a group that holds two or more downloads is
/// a batch (it waits for the batch window), whatever downloads arrive.
pub proof fn lemma_enqueue_marks_batches(
    s: Seq<(Seq<char>, (Seq<(Seq<char>, Seq<char>, Seq<char>, u128)>, u64, bool))>,
    ds: Seq<(Seq<char>, Seq<char>, Seq<char>, u128)>,
    now: u64,
    batch_window_ms: u64,
)
    requires
        batches_marked(s),
    ensures
        batches_marked(enqueue_spec(s, ds, now, batch_window_ms)),
    decreases ds.len(),
{
    if ds.len() > 0 {
        lemma_enqueue_marks_batches(s, ds.drop_last(), now, batch_window_ms);
        let p = enqueue_spec(s, ds.drop_last(), now, batch_window_ms);
        let d = ds.last();
        lemma_find_group(p, batch_key_spec(d));
        let t = enqueue_one(p, d, now, batch_window_ms);
        assert forall|i: int| 0 <= i < t.len() && (#[trigger] t[i]).1.0.len() >= 2 implies t[i].1.2 by {
            if i < p.len() && i != find_group(p, batch_key_spec(d)) {
                assert(t[i] == p[i]);
            }
        }
    }
}

/// Every download that arrives ends up last in the group named by its batch
/// key, and the number of groups grows by one exactly when that group is new.
pub proof fn lemma_enqueue_places_download(
    s: Seq<(Seq<char>, (Seq<(Seq<char>, Seq<char>, Seq<char>, u128)>, u64, bool))>,
    d: (Seq<char>, Seq<char>, Seq<char>, u128),
    now: u64,
    batch_window_ms: u64,
)
    ensures
        ({
            let t = enqueue_one(s, d, now, batch_window_ms);
            let i = find_group(t, batch_key_spec(d));
            &&& i >= 0
            &&& t[i].1.0.last() == d
            &&& t[i].1.0.len() >= 1
            &&& t.len() == if find_group(s, batch_key_spec(d)) >= 0 { s.len() } else { s.len() + 1 }
        }),
{
    let k = batch_key_spec(d);
    lemma_find_group(s, k);
    let t = enqueue_one(s, d, now, batch_window_ms);
    lemma_find_group(t, k);
    let j = find_group(s, k);
    if j >= 0 {
        assert(t[j].0 == k);
        assert(find_group(t, k) >= 0);
        lemma_find_group_same_keys(s, t, k);
    } else {
        assert(t[s.len() as int].0 == k);
        let i = find_group(t, k);
        if i < s.len() {
            assert(t[i] == s[i]);
        }
    }
}

proof fn lemma_find_group_same_keys<V>(s: Seq<(Seq<char>, V)>, t: Seq<(Seq<char>, V)>, k: Seq<char>)
    requires
        s.len() == t.len(),
        forall|i: int| 0 <= i < s.len() ==> #[trigger] s[i].0 == t[i].0,
    ensures
        find_group(s, k) == find_group(t, k),
    decreases s.len(),
{
    if s.len() > 0 {
        assert(s.last().0 == t.last().0) by {
            assert(s[s.len() - 1].0 == t[t.len() - 1].0);
        }
        assert forall|i: int| 0 <= i < s.drop_last().len() implies #[trigger] s.drop_last()[i].0 == t.drop_last()[i].0 by {
            assert(s[i].0 == t[i].0);
        }
        lemma_find_group_same_keys(s.drop_last(), t.drop_last(), k);
    }
}

/// The source a batch of downloads is offered under: that of its first
/// download, or `未知来源` for an empty batch.
pub fn batch_domain(downloads: &Vec<ReadyDownload>) -> (r: String)
    ensures
        r@ == (if downloads@.len() > 0 { downloads@[0].domain@ } else { unknown_source() }),
{
    if downloads.len() > 0 {
        downloads[0].domain.clone()
    } else {
        string_of(chars_of("未知来源").as_slice())
    }
}

} // verus!


verus! {

/// Processing the groups loses none: each group is either due, and comes out
/// with its downloads, or still waiting.
pub proof fn lemma_due_groups_partition(
    s: Seq<(Seq<char>, (Seq<(Seq<char>, Seq<char>, Seq<char>, u128)>, u64, bool))>,
    now: u64,
)
    ensures
        due_groups(s, now).len() + waiting_groups(s, now).len() == s.len(),
        forall|k: int| 0 <= k < s.len() && (#[trigger] s[k]).1.1 <= now ==> due_groups(s, now).contains((s[k].0, s[k].1.0)),
        forall|k: int| 0 <= k < s.len() && (#[trigger] s[k]).1.1 > now ==> waiting_groups(s, now).contains(s[k]),
    decreases s.len(),
{
    if s.len() > 0 {
        let d = s.drop_last();
        lemma_due_groups_partition(d, now);
        let pd = due_groups(d, now);
        let pw = waiting_groups(d, now);
        assert forall|k: int| 0 <= k < s.len() && (#[trigger] s[k]).1.1 <= now implies due_groups(s, now).contains((s[k].0, s[k].1.0)) by {
            if k < s.len() - 1 {
                assert(s[k] == d[k]);
                let j = choose|j: int| 0 <= j < pd.len() && pd[j] == (d[k].0, d[k].1.0);
                if s.last().1.1 <= now {
                    assert(due_groups(s, now)[j] == pd[j]);
                }
            } else {
                assert(due_groups(s, now)[pd.len() as int] == (s[k].0, s[k].1.0));
            }
        }
        assert forall|k: int| 0 <= k < s.len() && (#[trigger] s[k]).1.1 > now implies waiting_groups(s, now).contains(s[k]) by {
            if k < s.len() - 1 {
                assert(s[k] == d[k]);
                let j = choose|j: int| 0 <= j < pw.len() && pw[j] == d[k];
                if s.last().1.1 > now {
                    assert(waiting_groups(s, now)[j] == pw[j]);
                }
            } else {
                assert(waiting_groups(s, now)[pw.len() as int] == s[k]);
            }
        }
    }
}

proof fn lemma_download_order_total()
    ensures
        total_preorder(download_order()),
{
    let le = download_order();
    assert forall|a: (Seq<char>, Seq<char>, Seq<char>, u128), b: (Seq<char>, Seq<char>, Seq<char>, u128)|
        #[trigger] le(a, b) || le(b, a) by {
        lemma_text_lt_asymmetric(a.1, b.1);
    }
    assert forall|a: (Seq<char>, Seq<char>, Seq<char>, u128), b: (Seq<char>, Seq<char>, Seq<char>, u128), c: (Seq<char>, Seq<char>, Seq<char>, u128)|
        #[trigger] le(a, b) && #[trigger] le(b, c) implies le(a, c) by {
        if a.3 == b.3 && b.3 == c.3 {
            lemma_text_lt_total(a.1, b.1);
            lemma_text_lt_total(b.1, c.1);
            if text_lt(c.1, a.1) {
                if text_lt(a.1, b.1) {
                    lemma_text_lt_transitive(c.1, a.1, b.1);
                }
            }
        }
    }
}

proof fn lemma_group_order_total()
    ensures
        total_preorder(group_order()),
{
    let le = group_order();
    assert forall|a: (Seq<char>, Seq<(Seq<char>, Seq<char>, Seq<char>, u128)>), b: (Seq<char>, Seq<(Seq<char>, Seq<char>, Seq<char>, u128)>)|
        #[trigger] le(a, b) || le(b, a) by {
        lemma_text_lt_asymmetric(a.0, b.0);
    }
    assert forall|a: (Seq<char>, Seq<(Seq<char>, Seq<char>, Seq<char>, u128)>), b: (Seq<char>, Seq<(Seq<char>, Seq<char>, Seq<char>, u128)>), c: (Seq<char>, Seq<(Seq<char>, Seq<char>, Seq<char>, u128)>)|
        #[trigger] le(a, b) && #[trigger] le(b, c) implies le(a, c) by {
        lemma_text_lt_total(a.0, b.0);
        if text_lt(c.0, a.0) && text_lt(a.0, b.0) {
            lemma_text_lt_transitive(c.0, a.0, b.0);
        }
    }
}

/// The due groups come out by name, and the downloads of each by modification
/// time, then file name.
pub proof fn lemma_due_batches_ordered(
    s: Seq<(Seq<char>, (Seq<(Seq<char>, Seq<char>, Seq<char>, u128)>, u64, bool))>,
    now: u64,
)
    ensures
        ({
            let g = stable_sort(due_groups(s, now), group_order());
            &&& crate::sort::sorted_by(g, group_order())
            &&& g.to_multiset() == due_groups(s, now).to_multiset()
            &&& forall|i: int| 0 <= i < due_batches(s, now).len() ==>
                crate::sort::sorted_by(#[trigger] due_batches(s, now)[i], download_order())
                && due_batches(s, now)[i].to_multiset() == g[i].1.to_multiset()
        }),
{
    lemma_group_order_total();
    lemma_download_order_total();
    crate::sort::lemma_stable_sort_sorted(due_groups(s, now), group_order());
    crate::sort::lemma_stable_sort_permutes(due_groups(s, now), group_order());
    let g = stable_sort(due_groups(s, now), group_order());
    assert forall|i: int| 0 <= i < due_batches(s, now).len() implies
        crate::sort::sorted_by(#[trigger] due_batches(s, now)[i], download_order())
        && due_batches(s, now)[i].to_multiset() == g[i].1.to_multiset() by {
        crate::sort::lemma_stable_sort_sorted(g[i].1, download_order());
        crate::sort::lemma_stable_sort_permutes(g[i].1, download_order());
    }
}

} // verus!

verus! {

/// Downloads of one known source share a group; downloads of unknown source
/// each get a group of their own, told apart by path.
pub proof fn lemma_batch_keys(a: (Seq<char>, Seq<char>, Seq<char>, u128), b: (Seq<char>, Seq<char>, Seq<char>, u128))
    ensures
        a.2 == b.2 && a.2 != unknown_source() ==> batch_key_spec(a) == batch_key_spec(b),
        a.2 == unknown_source() && b.2 == unknown_source() && a.0 != b.0 ==> batch_key_spec(a) != batch_key_spec(b),
{
    if a.2 == unknown_source() && b.2 == unknown_source() && a.0 != b.0 {
        let p = "unknown:"@;
        if batch_key_spec(a) == batch_key_spec(b) {
            assert((p + a.0).skip(p.len() as int) =~= a.0);
            assert((p + b.0).skip(p.len() as int) =~= b.0);
        }
    }
}

} // verus!
