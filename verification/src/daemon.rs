//! The decisions of the watcher: which paths wait for completion, which are
//! ready, how ready downloads are grouped by source, when each group is due,
//! and how the record of handled files is kept small.
//!
//! Times are milliseconds of a monotonic clock that the caller reads.
use vstd::prelude::*;
use crate::pathing::{same_path, same_path_spec, is_inside_dir, inside_dir_spec, path_less, path_lt,
    lemma_path_lt_order};
use crate::file_ops::{should_ignore_path, should_ignore_spec};
use crate::sort::{stable_sort, lemma_insert_by_at};
use crate::types::{FileSignature, signature_view, ReadyDownload, download_view};
use crate::pathing::{display_name, file_name};
use crate::queues::unknown_source;
use crate::text::{chars_of, string_of};

verus! {

/// How long a handled file is remembered, in milliseconds (one hour).
pub const PROCESSED_TTL_MS: u64 = 3_600_000;
/// Above this many handled files the record is cut down.
pub const PROCESSED_MAX: usize = 20_000;
/// How many handled files are kept when the record is cut down.
pub const PROCESSED_PRUNE_TO: usize = 10_000;
/// How long a single download waits for others from its source, in milliseconds.
pub const SINGLE_GROUP_GRACE_MS: u64 = 800;
/// How long an unstable file is waited for before it is handled anyway, in milliseconds.
pub const PENDING_MAX_WAIT_MS: u64 = 20_000;

/// A path that changed and waits until it has been quiet long enough.
#[derive(PartialEq, Eq, Structural, Clone, Copy, Debug)]
pub struct PendingEntry {
    pub due_ms: u64,
    pub first_seen_ms: u64,
}

/// The index of the entry whose path is the same as `p`, or -1.
pub open spec fn find_path<V>(s: Seq<(Seq<char>, V)>, p: Seq<char>) -> int
    decreases s.len(),
{
    if s.len() == 0 {
        -1
    } else if same_path_spec(s.last().0, p) {
        s.len() - 1
    } else {
        find_path(s.drop_last(), p)
    }
}

pub proof fn lemma_find_path<V>(s: Seq<(Seq<char>, V)>, p: Seq<char>)
    ensures
        -1 <= find_path(s, p) < s.len(),
        find_path(s, p) >= 0 ==> same_path_spec(s[find_path(s, p)].0, p),
        find_path(s, p) == -1 <==> forall|i: int| 0 <= i < s.len() ==> !same_path_spec(#[trigger] s[i].0, p),
    decreases s.len(),
{
    if s.len() > 0 {
        lemma_find_path(s.drop_last(), p);
        if !same_path_spec(s.last().0, p) {
            assert forall|i: int| 0 <= i < s.len() - 1 implies s[i].0 == s.drop_last()[i].0 by {}
            if find_path(s.drop_last(), p) == -1 {
                assert forall|i: int| 0 <= i < s.len() implies !same_path_spec(#[trigger] s[i].0, p) by {
                    if i < s.len() - 1 {
                        assert(s.drop_last()[i].0 == s[i].0);
                    }
                }
            }
        } else {
            assert(same_path_spec(s[s.len() - 1].0, p));
        }
    }
}

/// No two entries are for the same path.
pub open spec fn paths_unique<V>(s: Seq<(Seq<char>, V)>) -> bool {
    forall|i: int, j: int| 0 <= i < j < s.len() ==> !same_path_spec(#[trigger] s[i].0, #[trigger] s[j].0)
}

/// The table after one path changed at `now`: a path already waiting keeps
/// when it was first seen and becomes due at `due`; a new path is added.
pub open spec fn schedule_one(s: Seq<(Seq<char>, PendingEntry)>, path: Seq<char>, due: u64, now: u64) -> Seq<(Seq<char>, PendingEntry)> {
    let i = find_path(s, path);
    if i >= 0 {
        s.update(i, (s[i].0, PendingEntry { due_ms: due, first_seen_ms: s[i].1.first_seen_ms }))
    } else {
        s.push((path, PendingEntry { due_ms: due, first_seen_ms: now }))
    }
}

/// The table after the paths of one event, in order; paths outside the
/// downloads folder and paths the cleaner leaves alone are passed over.
pub open spec fn schedule_spec(
    s: Seq<(Seq<char>, PendingEntry)>,
    paths: Seq<Seq<char>>,
    downloads_dir: Seq<char>,
    complete_delay_ms: u64,
    now: u64,
) -> Seq<(Seq<char>, PendingEntry)>
    decreases paths.len(),
{
    if paths.len() == 0 {
        s
    } else {
        let prev = schedule_spec(s, paths.drop_last(), downloads_dir, complete_delay_ms, now);
        let p = paths.last();
        if !inside_dir_spec(p, downloads_dir) || should_ignore_spec(p) {
            prev
        } else {
            schedule_one(prev, p, now.saturating_add(complete_delay_ms), now)
        }
    }
}

pub open spec fn pending_view_of(raw: Seq<(String, PendingEntry)>) -> Seq<(Seq<char>, PendingEntry)> {
    Seq::new(raw.len(), |i: int| (raw[i].0@, raw[i].1))
}

pub open spec fn strings_view(v: Seq<String>) -> Seq<Seq<char>> {
    Seq::new(v.len(), |i: int| v[i]@)
}

/// The paths waiting for their files to settle.
pub struct PendingTable {
    entries: Vec<(String, PendingEntry)>,
}

impl View for PendingTable {
    type V = Seq<(Seq<char>, PendingEntry)>;

    closed spec fn view(&self) -> Self::V {
        pending_view_of(self.entries@)
    }
}

/// The index of the entry for `path`, searching from the end.
fn find_path_index<V>(entries: &Vec<(String, V)>, path: &str) -> (r: Option<usize>)
    ensures
        match r {
            Some(i) => i < entries@.len() && i == find_path(Seq::new(entries@.len(), |k: int| (entries@[k].0@, entries@[k].1)), path@),
            None => find_path(Seq::new(entries@.len(), |k: int| (entries@[k].0@, entries@[k].1)), path@) == -1,
        },
{
    let ghost s = Seq::new(entries@.len(), |k: int| (entries@[k].0@, entries@[k].1));
    let mut i = entries.len();
    assert(s.take(i as int) == s);
    while i > 0
        invariant
            i <= entries@.len(),
            s == Seq::new(entries@.len(), |k: int| (entries@[k].0@, entries@[k].1)),
            find_path(s, path@) == find_path(s.take(i as int), path@),
        decreases i,
    {
        assert(s.take(i as int).drop_last() == s.take(i as int - 1));
        assert(s.take(i as int).last() == s[i as int - 1]);
        if same_path(entries[i - 1].0.as_str(), path) {
            return Some(i - 1);
        }
        i = i - 1;
    }
    None
}

proof fn lemma_schedule_one_unique(s: Seq<(Seq<char>, PendingEntry)>, path: Seq<char>, due: u64, now: u64)
    requires
        paths_unique(s),
    ensures
        paths_unique(schedule_one(s, path, due, now)),
{
    lemma_find_path(s, path);
    let t = schedule_one(s, path, due, now);
    if find_path(s, path) >= 0 {
        assert forall|i: int, j: int| 0 <= i < j < t.len() implies !same_path_spec(#[trigger] t[i].0, #[trigger] t[j].0) by {
            assert(t[i].0 == s[i].0 && t[j].0 == s[j].0);
        }
    } else {
        assert forall|i: int, j: int| 0 <= i < j < t.len() implies !same_path_spec(#[trigger] t[i].0, #[trigger] t[j].0) by {
            if j == s.len() {
                assert(t[i].0 == s[i].0);
            } else {
                assert(t[i].0 == s[i].0 && t[j].0 == s[j].0);
            }
        }
    }
}

impl PendingTable {
    /// No path waits twice.
    pub open spec fn wf(&self) -> bool {
        paths_unique(self@)
    }

    /// An empty table.
    pub fn new() -> (t: PendingTable)
        ensures
            t@ == Seq::<(Seq<char>, PendingEntry)>::empty(),
            t.wf(),
    {
        let t = PendingTable { entries: Vec::new() };
        assert(t@ =~= Seq::<(Seq<char>, PendingEntry)>::empty());
        t
    }

    /// The number of waiting paths.
    pub fn len(&self) -> (n: usize)
        ensures
            n == self@.len(),
    {
        self.entries.len()
    }

    /// The waiting entry for `path`, if any.
    pub fn get(&self, path: &str) -> (r: Option<PendingEntry>)
        ensures
            match r {
                Some(e) => find_path(self@, path@) >= 0 && e == self@[find_path(self@, path@)].1,
                None => find_path(self@, path@) == -1,
            },
    {
        assert(self@ == Seq::new(self.entries@.len(), |k: int| (self.entries@[k].0@, self.entries@[k].1)));
        match find_path_index(&self.entries, path) {
            Some(i) => Some(self.entries[i].1),
            None => None,
        }
    }

    /// Adds `path` with the given entry, or gives the path's entry this value,
    /// as `HashMap::insert` does.
    pub fn insert(&mut self, path: &str, entry: PendingEntry)
        requires
            old(self).wf(),
        ensures
            final(self).wf(),
            final(self)@ == ({
                let i = find_path(old(self)@, path@);
                if i >= 0 { old(self)@.update(i, (old(self)@[i].0, entry)) } else { old(self)@.push((path@, entry)) }
            }),
    {
        let ghost s = self@;
        proof { lemma_find_path(s, path@); }
        assert(s == Seq::new(self.entries@.len(), |k: int| (self.entries@[k].0@, self.entries@[k].1)));
        match find_path_index(&self.entries, path) {
            Some(i) => {
                let (p, _e) = self.entries.remove(i);
                self.entries.insert(i, (p, entry));
                assert(self@ =~= s.update(i as int, (s[i as int].0, entry)));
                assert forall|a: int, b: int| 0 <= a < b < self@.len() implies !same_path_spec(#[trigger] self@[a].0, #[trigger] self@[b].0) by {
                    assert(self@[a].0 == s[a].0 && self@[b].0 == s[b].0);
                }
            },
            None => {
                self.entries.push((path.to_owned(), entry));
                assert(self@ =~= s.push((path@, entry)));
                assert forall|a: int, b: int| 0 <= a < b < self@.len() implies !same_path_spec(#[trigger] self@[a].0, #[trigger] self@[b].0) by {
                    if b == s.len() {
                        assert(self@[a].0 == s[a].0);
                    } else {
                        assert(self@[a].0 == s[a].0 && self@[b].0 == s[b].0);
                    }
                }
            },
        }
    }

    /// Whether no path waits.
    pub fn is_empty(&self) -> (b: bool)
        ensures
            b == (self@.len() == 0),
    {
        self.entries.len() == 0
    }
}

/// Records the paths of one file-system event: each path in the downloads
/// folder that is not left alone becomes due `complete_delay_ms` from now,
/// keeping when it was first seen if it already waits.
pub fn schedule_event_paths(
    pending: &mut PendingTable,
    paths: &Vec<String>,
    downloads_dir: &str,
    complete_delay_ms: u64,
    now_ms: u64,
)
    requires
        old(pending).wf(),
    ensures
        final(pending).wf(),
        final(pending)@ == schedule_spec(old(pending)@, strings_view(paths@), downloads_dir@, complete_delay_ms, now_ms),
{
    let ghost ps = strings_view(paths@);
    let due = now_ms.saturating_add(complete_delay_ms);
    let mut i: usize = 0;
    assert(ps.take(0) =~= Seq::<Seq<char>>::empty());
    while i < paths.len()
        invariant
            i <= paths@.len(),
            ps == strings_view(paths@),
            due == now_ms.saturating_add(complete_delay_ms),
            pending.wf(),
            pending@ == schedule_spec(old(pending)@, ps.take(i as int), downloads_dir@, complete_delay_ms, now_ms),
        decreases paths.len() - i,
    {
        assert(ps.take(i as int + 1).drop_last() == ps.take(i as int));
        assert(ps.take(i as int + 1).last() == paths@[i as int]@);
        let p = paths[i].as_str();
        if is_inside_dir(p, downloads_dir) && !should_ignore_path(p) {
            let ghost before = pending@;
            proof { lemma_find_path(before, p@); }
            match pending.get(p) {
                Some(e) => {
                    pending.insert(p, PendingEntry { due_ms: due, first_seen_ms: e.first_seen_ms });
                },
                None => {
                    pending.insert(p, PendingEntry { due_ms: due, first_seen_ms: now_ms });
                },
            }
            proof { lemma_schedule_one_unique(before, p@, due, now_ms); }
        }
        i = i + 1;
    }
    assert(ps.take(paths@.len() as int) == ps);
}

} // verus!

verus! {

/// The paths due at `now`, with when each was first seen, in table order.
pub open spec fn due_of(s: Seq<(Seq<char>, PendingEntry)>, now: u64) -> Seq<(Seq<char>, u64)>
    decreases s.len(),
{
    if s.len() == 0 {
        Seq::empty()
    } else if s.last().1.due_ms <= now {
        due_of(s.drop_last(), now).push((s.last().0, s.last().1.first_seen_ms))
    } else {
        due_of(s.drop_last(), now)
    }
}

/// The entries not yet due at `now`, in table order.
pub open spec fn waiting_of(s: Seq<(Seq<char>, PendingEntry)>, now: u64) -> Seq<(Seq<char>, PendingEntry)>
    decreases s.len(),
{
    if s.len() == 0 {
        Seq::empty()
    } else if s.last().1.due_ms <= now {
        waiting_of(s.drop_last(), now)
    } else {
        waiting_of(s.drop_last(), now).push(s.last())
    }
}

/// Due paths ordered as `Path` orders them.
pub open spec fn path_order() -> spec_fn((Seq<char>, u64), (Seq<char>, u64)) -> bool {
    |a: (Seq<char>, u64), b: (Seq<char>, u64)| !path_lt(b.0, a.0)
}

pub open spec fn due_view(v: Seq<(String, u64)>) -> Seq<(Seq<char>, u64)> {
    Seq::new(v.len(), |i: int| (v[i].0@, v[i].1))
}

/// Sorts due paths by `Path`'s order.
fn sort_due(v: &Vec<(String, u64)>) -> (r: Vec<(String, u64)>)
    ensures
        due_view(r@) == stable_sort(due_view(v@), path_order()),
{
    let ghost vs = due_view(v@);
    let mut r: Vec<(String, u64)> = Vec::new();
    let mut i: usize = 0;
    assert(vs.take(0) =~= Seq::<(Seq<char>, u64)>::empty());
    assert(due_view(r@) =~= Seq::<(Seq<char>, u64)>::empty());
    while i < v.len()
        invariant
            i <= v@.len(),
            vs == due_view(v@),
            due_view(r@) == stable_sort(vs.take(i as int), path_order()),
        decreases v.len() - i,
    {
        let x_path = v[i].0.clone();
        let x_seen = v[i].1;
        let ghost xv = (x_path@, x_seen);
        assert(xv == vs[i as int]);
        let mut j = r.len();
        while j > 0 && path_less(x_path.as_str(), r[j - 1].0.as_str())
            invariant
                j <= r@.len(),
                xv == (x_path@, x_seen),
                forall|k: int| j <= k < r@.len() ==> !(path_order())(#[trigger] due_view(r@)[k], xv),
            decreases j,
        {
            assert(due_view(r@)[j - 1].0 == r@[j - 1].0@);
            j = j - 1;
        }
        proof {
            if j > 0 {
                assert(due_view(r@)[j - 1].0 == r@[j - 1].0@);
                assert((path_order())(due_view(r@)[j - 1], xv));
            }
            lemma_insert_by_at(due_view(r@), xv, path_order(), j as int);
            assert(vs.take(i as int + 1).drop_last() == vs.take(i as int));
            assert(vs.take(i as int + 1).last() == xv);
        }
        let ghost before = r@;
        r.insert(j, (x_path, x_seen));
        assert(due_view(r@) =~= due_view(before).insert(j as int, xv));
        i = i + 1;
    }
    assert(vs.take(v@.len() as int) == vs);
    r
}

/// Takes out of the table every path due at `now` and returns them, with when
/// each was first seen, in `Path`'s order; the others stay in the table.
pub fn drain_due_paths(pending: &mut PendingTable, now_ms: u64) -> (r: Vec<(String, u64)>)
    requires
        old(pending).wf(),
    ensures
        final(pending).wf(),
        final(pending)@ == waiting_of(old(pending)@, now_ms),
        due_view(r@) == stable_sort(due_of(old(pending)@, now_ms), path_order()),
{
    let ghost s = pending@;
    let mut due: Vec<(String, u64)> = Vec::new();
    let mut rest: Vec<(String, PendingEntry)> = Vec::new();
    let mut i: usize = 0;
    let ghost mut idx: Seq<int> = Seq::empty();
    assert(s.take(0) =~= Seq::<(Seq<char>, PendingEntry)>::empty());
    assert(due_view(due@) =~= Seq::<(Seq<char>, u64)>::empty());
    assert(pending_view_of(rest@) =~= Seq::<(Seq<char>, PendingEntry)>::empty());
    while i < pending.entries.len()
        invariant
            i <= pending.entries@.len(),
            s == pending@,
            s == pending_view_of(pending.entries@),
            paths_unique(s),
            due_view(due@) == due_of(s.take(i as int), now_ms),
            pending_view_of(rest@) == waiting_of(s.take(i as int), now_ms),
            idx.len() == rest@.len(),
            forall|a: int| 0 <= a < rest@.len() ==> 0 <= #[trigger] idx[a] < i && pending_view_of(rest@)[a] == s[idx[a]],
            forall|a: int, b: int| 0 <= a < b < idx.len() ==> #[trigger] idx[a] < #[trigger] idx[b],
        decreases pending.entries.len() - i,
    {
        assert(s.take(i as int + 1).drop_last() == s.take(i as int));
        assert(s.take(i as int + 1).last() == s[i as int]);
        let e = pending.entries[i].1;
        if e.due_ms <= now_ms {
            let ghost before = due@;
            due.push((pending.entries[i].0.clone(), e.first_seen_ms));
            assert(due_view(due@) =~= due_view(before).push((s[i as int].0, e.first_seen_ms)));
        } else {
            let ghost before = rest@;
            rest.push((pending.entries[i].0.clone(), e));
            assert(pending_view_of(rest@) =~= pending_view_of(before).push(s[i as int]));
            proof { idx = idx.push(i as int); }
        }
        i = i + 1;
    }
    assert(s.take(s.len() as int) == s);
    proof {
        let w = pending_view_of(rest@);
        assert forall|a: int, b: int| 0 <= a < b < w.len() implies !same_path_spec(#[trigger] w[a].0, #[trigger] w[b].0) by {
            assert(idx[a] < idx[b]);
            assert(w[a] == s[idx[a]] && w[b] == s[idx[b]]);
        }
    }
    pending.entries = rest;
    sort_due(&due)
}

} // verus!

verus! {

/// Two signatures name the same file state, as `FileSignature`'s `==` decides:
/// the same path (by components), size and modification time.
pub open spec fn same_signature(a: (Seq<char>, u64, u128), b: (Seq<char>, u64, u128)) -> bool {
    same_path_spec(a.0, b.0) && a.1 == b.1 && a.2 == b.2
}

fn same_signature_exec(a: &FileSignature, b: &FileSignature) -> (r: bool)
    ensures
        r == same_signature(signature_view(*a), signature_view(*b)),
{
    a.size == b.size && a.modified_ms == b.modified_ms && same_path(a.path.as_str(), b.path.as_str())
}

pub open spec fn signatures_view(v: Seq<FileSignature>) -> Seq<(Seq<char>, u64, u128)> {
    Seq::new(v.len(), |i: int| signature_view(v[i]))
}

/// The signatures of the files present when watching began.
pub struct KnownSet {
    signatures: Vec<FileSignature>,
}

impl View for KnownSet {
    type V = Seq<(Seq<char>, u64, u128)>;

    closed spec fn view(&self) -> Self::V {
        signatures_view(self.signatures@)
    }
}

/// Whether some signature of `s` names the same file state as `sig`.
pub open spec fn has_signature(s: Seq<(Seq<char>, u64, u128)>, sig: (Seq<char>, u64, u128)) -> bool {
    exists|i: int| 0 <= i < s.len() && same_signature(#[trigger] s[i], sig)
}

/// The known states after `sig` is added, as `HashSet::insert` adds it.
pub open spec fn known_after(s: Seq<(Seq<char>, u64, u128)>, sig: (Seq<char>, u64, u128)) -> Seq<(Seq<char>, u64, u128)> {
    if has_signature(s, sig) { s } else { s.push(sig) }
}

impl KnownSet {
    /// An empty set.
    pub fn new() -> (k: KnownSet)
        ensures
            k@ == Seq::<(Seq<char>, u64, u128)>::empty(),
    {
        let k = KnownSet { signatures: Vec::new() };
        assert(k@ =~= Seq::<(Seq<char>, u64, u128)>::empty());
        k
    }

    /// Whether the set holds the same file state as `sig`.
    pub fn contains(&self, sig: &FileSignature) -> (r: bool)
        ensures
            r == has_signature(self@, signature_view(*sig)),
    {
        let mut i: usize = 0;
        while i < self.signatures.len()
            invariant
                i <= self.signatures@.len(),
                forall|k: int| 0 <= k < i ==> !same_signature(#[trigger] self@[k], signature_view(*sig)),
            decreases self.signatures.len() - i,
        {
            if same_signature_exec(&self.signatures[i], sig) {
                assert(self@[i as int] == signature_view(self.signatures@[i as int]));
                return true;
            }
            assert(self@[i as int] == signature_view(self.signatures@[i as int]));
            i = i + 1;
        }
        false
    }

    /// Adds `sig` unless the same file state is already held, as `HashSet::insert` does.
    pub fn insert(&mut self, sig: FileSignature)
        ensures
            final(self)@ == known_after(old(self)@, signature_view(sig)),
    {
        if self.contains(&sig) {
            return;
        }
        let ghost before = self@;
        let ghost sv = signature_view(sig);
        self.signatures.push(sig);
        assert(self@ =~= before.push(sv));
    }
}

pub open spec fn processed_view_of(v: Seq<(FileSignature, u64)>) -> Seq<((Seq<char>, u64, u128), u64)> {
    Seq::new(v.len(), |i: int| (signature_view(v[i].0), v[i].1))
}

/// The file states already handled, with when each was handled.
pub struct ProcessedTable {
    entries: Vec<(FileSignature, u64)>,
}

impl View for ProcessedTable {
    type V = Seq<((Seq<char>, u64, u128), u64)>;

    closed spec fn view(&self) -> Self::V {
        processed_view_of(self.entries@)
    }
}

/// Whether the table holds the same file state as `sig`.
pub open spec fn was_processed(s: Seq<((Seq<char>, u64, u128), u64)>, sig: (Seq<char>, u64, u128)) -> bool {
    exists|i: int| 0 <= i < s.len() && same_signature((#[trigger] s[i]).0, sig)
}

impl ProcessedTable {
    /// An empty table.
    pub fn new() -> (t: ProcessedTable)
        ensures
            t@ == Seq::<((Seq<char>, u64, u128), u64)>::empty(),
    {
        let t = ProcessedTable { entries: Vec::new() };
        assert(t@ =~= Seq::<((Seq<char>, u64, u128), u64)>::empty());
        t
    }

    /// The number of handled file states.
    pub fn len(&self) -> (n: usize)
        ensures
            n == self@.len(),
    {
        self.entries.len()
    }

    /// Whether the same file state as `sig` was handled.
    pub fn contains(&self, sig: &FileSignature) -> (r: bool)
        ensures
            r == was_processed(self@, signature_view(*sig)),
    {
        let mut i: usize = 0;
        while i < self.entries.len()
            invariant
                i <= self.entries@.len(),
                forall|k: int| 0 <= k < i ==> !same_signature((#[trigger] self@[k]).0, signature_view(*sig)),
            decreases self.entries.len() - i,
        {
            assert(self@[i as int].0 == signature_view(self.entries@[i as int].0));
            if same_signature_exec(&self.entries[i].0, sig) {
                return true;
            }
            i = i + 1;
        }
        false
    }
}

/// What to do with a file whose size or time still changes.
#[derive(PartialEq, Eq, Structural, Clone, Copy, Debug)]
pub enum Settle {
    /// The file stayed the same over the check.
    Stable,
    /// The file still changes but has waited long enough; handle it anyway.
    WaitedTooLong,
    /// Look again later.
    RetryLater,
}

/// Whether a file is handled now: when it was stable over the check, or when
/// it was first seen at least `PENDING_MAX_WAIT_MS` ago.
pub fn settle(stable: bool, first_seen_ms: u64, now_ms: u64) -> (r: Settle)
    ensures
        r == (if stable { Settle::Stable }
            else if now_ms.saturating_sub(first_seen_ms) >= PENDING_MAX_WAIT_MS { Settle::WaitedTooLong }
            else { Settle::RetryLater }),
{
    if stable {
        Settle::Stable
    } else if now_ms.saturating_sub(first_seen_ms) >= PENDING_MAX_WAIT_MS {
        Settle::WaitedTooLong
    } else {
        Settle::RetryLater
    }
}

/// Whether a settled file state is offered to the user: not when it was
/// present at start (unless existing files are offered) and not when it was
/// already handled.
pub open spec fn offered(
    scan_existing: bool,
    known: Seq<(Seq<char>, u64, u128)>,
    processed: Seq<((Seq<char>, u64, u128), u64)>,
    sig: (Seq<char>, u64, u128),
) -> bool {
    !((has_signature(known, sig) && !scan_existing) || was_processed(processed, sig))
}

/// Decides whether a settled file with signature `signature` is offered to the
/// user: not when it was present at start (unless existing files are offered)
/// and not when the same file state was already handled. An offered file is
/// recorded as handled at `now_ms`.
pub fn prepare_ready_download(
    scan_existing: bool,
    known: &KnownSet,
    processed: &mut ProcessedTable,
    signature: &FileSignature,
    now_ms: u64,
) -> (ready: bool)
    ensures
        ready == offered(scan_existing, known@, old(processed)@, signature_view(*signature)),
        ready == !((!scan_existing && exists|i: int| 0 <= i < known@.len()
                && same_path_spec((#[trigger] known@[i]).0, signature.path@)
                && known@[i].1 == signature.size && known@[i].2 == signature.modified_ms)
            || exists|i: int| 0 <= i < old(processed)@.len()
                && same_path_spec((#[trigger] old(processed)@[i]).0.0, signature.path@)
                && old(processed)@[i].0.1 == signature.size && old(processed)@[i].0.2 == signature.modified_ms),
        final(processed)@ == (if ready { old(processed)@.push((signature_view(*signature), now_ms)) } else { old(processed)@ }),
{
    proof { lemma_offered_by_path_size_and_time(scan_existing, known@, processed@, signature_view(*signature)); }
    if known.contains(signature) && !scan_existing {
        return false;
    }
    if processed.contains(signature) {
        return false;
    }
    let ghost before = processed@;
    processed.entries.push((signature.copy(), now_ms));
    assert(processed@ =~= before.push((signature_view(*signature), now_ms)));
    true
}

/// Puts a path back to wait, due `complete_delay_ms` from now, keeping when it
/// was first seen.
pub fn retry_later(pending: &mut PendingTable, path: &str, first_seen_ms: u64, now_ms: u64, complete_delay_ms: u64)
    requires
        old(pending).wf(),
    ensures
        final(pending).wf(),
        final(pending)@ == retried(old(pending)@, path@, first_seen_ms, now_ms, complete_delay_ms),
{
    pending.insert(path, PendingEntry { due_ms: now_ms.saturating_add(complete_delay_ms), first_seen_ms });
}

/// The table after a path is put back to wait: due `complete_delay_ms` from
/// `now`, keeping when it was first seen.
pub open spec fn retried(
    s: Seq<(Seq<char>, PendingEntry)>,
    path: Seq<char>,
    first_seen_ms: u64,
    now: u64,
    complete_delay_ms: u64,
) -> Seq<(Seq<char>, PendingEntry)> {
    let e = PendingEntry { due_ms: now.saturating_add(complete_delay_ms), first_seen_ms };
    let i = find_path(s, path);
    if i >= 0 { s.update(i, (s[i].0, e)) } else { s.push((path, e)) }
}

/// The record entries handled within the last hour, in order.
pub open spec fn recent_of(s: Seq<((Seq<char>, u64, u128), u64)>, now: u64) -> Seq<((Seq<char>, u64, u128), u64)>
    decreases s.len(),
{
    if s.len() == 0 {
        Seq::empty()
    } else if now.saturating_sub(s.last().1) <= PROCESSED_TTL_MS {
        recent_of(s.drop_last(), now).push(s.last())
    } else {
        recent_of(s.drop_last(), now)
    }
}

/// Oldest first.
pub open spec fn age_order() -> spec_fn(((Seq<char>, u64, u128), u64), ((Seq<char>, u64, u128), u64)) -> bool {
    |a: ((Seq<char>, u64, u128), u64), b: ((Seq<char>, u64, u128), u64)| a.1 <= b.1
}

/// The record after pruning: entries older than an hour go; if more than
/// `PROCESSED_MAX` remain, only the `PROCESSED_PRUNE_TO` newest stay.
pub open spec fn pruned(s: Seq<((Seq<char>, u64, u128), u64)>, now: u64) -> Seq<((Seq<char>, u64, u128), u64)> {
    let recent = recent_of(s, now);
    if recent.len() <= PROCESSED_MAX {
        recent
    } else {
        stable_sort(recent, age_order()).skip(recent.len() - PROCESSED_PRUNE_TO)
    }
}

/// Sorts record entries oldest first, keeping the order of equal times.
fn sort_by_age(v: Vec<(FileSignature, u64)>) -> (r: Vec<(FileSignature, u64)>)
    ensures
        processed_view_of(r@) == stable_sort(processed_view_of(v@), age_order()),
{
    let ghost vs = processed_view_of(v@);
    let mut r: Vec<(FileSignature, u64)> = Vec::new();
    let mut i: usize = 0;
    assert(vs.take(0) =~= Seq::<((Seq<char>, u64, u128), u64)>::empty());
    assert(processed_view_of(r@) =~= Seq::<((Seq<char>, u64, u128), u64)>::empty());
    while i < v.len()
        invariant
            i <= v@.len(),
            vs == processed_view_of(v@),
            processed_view_of(r@) == stable_sort(vs.take(i as int), age_order()),
        decreases v.len() - i,
    {
        let x = (v[i].0.copy(), v[i].1);
        let ghost xv = (signature_view(x.0), x.1);
        assert(xv == vs[i as int]);
        let mut j = r.len();
        while j > 0 && r[j - 1].1 > x.1
            invariant
                j <= r@.len(),
                xv == (signature_view(x.0), x.1),
                forall|k: int| j <= k < r@.len() ==> !(age_order())(#[trigger] processed_view_of(r@)[k], xv),
            decreases j,
        {
            assert(processed_view_of(r@)[j - 1].1 == r@[j - 1].1);
            j = j - 1;
        }
        proof {
            if j > 0 {
                assert(processed_view_of(r@)[j - 1].1 == r@[j - 1].1);
            }
            lemma_insert_by_at(processed_view_of(r@), xv, age_order(), j as int);
            assert(vs.take(i as int + 1).drop_last() == vs.take(i as int));
            assert(vs.take(i as int + 1).last() == xv);
        }
        let ghost before = r@;
        r.insert(j, x);
        assert(processed_view_of(r@) =~= processed_view_of(before).insert(j as int, xv));
        i = i + 1;
    }
    assert(vs.take(v@.len() as int) == vs);
    r
}

/// Forgets handled files older than an hour, and, when more than
/// `PROCESSED_MAX` remain, all but the `PROCESSED_PRUNE_TO` most recently handled.
pub fn prune_processed(processed: &mut ProcessedTable, now_ms: u64)
    ensures
        final(processed)@ == pruned(old(processed)@, now_ms),
{
    let ghost s = processed@;
    let mut recent: Vec<(FileSignature, u64)> = Vec::new();
    let mut i: usize = 0;
    assert(s.take(0) =~= Seq::<((Seq<char>, u64, u128), u64)>::empty());
    assert(processed_view_of(recent@) =~= Seq::<((Seq<char>, u64, u128), u64)>::empty());
    while i < processed.entries.len()
        invariant
            i <= processed.entries@.len(),
            s == processed_view_of(processed.entries@),
            processed_view_of(recent@) == recent_of(s.take(i as int), now_ms),
        decreases processed.entries.len() - i,
    {
        assert(s.take(i as int + 1).drop_last() == s.take(i as int));
        assert(s.take(i as int + 1).last() == s[i as int]);
        if now_ms.saturating_sub(processed.entries[i].1) <= PROCESSED_TTL_MS {
            let ghost before = recent@;
            recent.push((processed.entries[i].0.copy(), processed.entries[i].1));
            assert(processed_view_of(recent@) =~= processed_view_of(before).push(s[i as int]));
        }
        i = i + 1;
    }
    assert(s.take(s.len() as int) == s);
    if recent.len() <= PROCESSED_MAX {
        processed.entries = recent;
        return;
    }
    let n = recent.len();
    let sorted = sort_by_age(recent);
    proof { crate::sort::lemma_stable_sort_sorted(recent_of(s, now_ms), age_order()); }
    let remove_count = n - PROCESSED_PRUNE_TO;
    let mut kept: Vec<(FileSignature, u64)> = Vec::new();
    let mut k: usize = remove_count;
    let ghost sv = processed_view_of(sorted@);
    assert(sv.len() == n);
    while k < sorted.len()
        invariant
            remove_count <= k <= sorted@.len(),
            sv == processed_view_of(sorted@),
            processed_view_of(kept@) == sv.subrange(remove_count as int, k as int),
        decreases sorted.len() - k,
    {
        let ghost before = kept@;
        kept.push((sorted[k].0.copy(), sorted[k].1));
        assert(processed_view_of(kept@) =~= processed_view_of(before).push(sv[k as int]));
        assert(sv.subrange(remove_count as int, k as int + 1) =~= sv.subrange(remove_count as int, k as int).push(sv[k as int]));
        k = k + 1;
    }
    assert(sv.subrange(remove_count as int, sv.len() as int) == sv.skip(remove_count as int));
    processed.entries = kept;
}

/// The capacity of a vector. What it is depends on the allocator; nothing is
/// stated of it.
#[verifier::external_body]
fn vec_capacity<T>(v: &Vec<T>) -> usize {
    v.capacity()
}

/// Wraps `Vec::shrink_to_fit`, which frees spare capacity and keeps the elements.
#[verifier::external_body]
pub(crate) fn shrink_vec<T>(v: &mut Vec<T>)
    ensures
        final(v)@ == old(v)@,
{
    v.shrink_to_fit()
}

impl ProcessedTable {
    /// Frees spare room when the record is empty, or when it holds few entries
    /// but much room; what it holds does not change.
    pub fn compact(&mut self)
        ensures
            final(self)@ == old(self)@,
    {
        if self.entries.len() == 0 {
            shrink_vec(&mut self.entries);
            return;
        }
        if vec_capacity(&self.entries) > PROCESSED_MAX * 2 && self.entries.len() <= PROCESSED_PRUNE_TO {
            shrink_vec(&mut self.entries);
        }
    }
}

impl PendingTable {
    /// Frees spare room when nothing waits; what it holds does not change.
    pub fn compact(&mut self)
        ensures
            final(self)@ == old(self)@,
    {
        if self.entries.len() == 0 {
            shrink_vec(&mut self.entries);
        }
    }
}

/// Frees spare room of the handled-files record (see `ProcessedTable::compact`).
pub fn compact_processed(processed: &mut ProcessedTable)
    ensures
        final(processed)@ == old(processed)@,
{
    processed.compact();
}

/// Frees spare room of the waiting table when nothing waits.
pub fn compact_pending(pending: &mut PendingTable)
    ensures
        final(pending)@ == old(pending)@,
{
    pending.compact();
}

} // verus!

verus! {

/// The smaller of two optional waits.
pub open spec fn min_wait(a: Option<u64>, b: Option<u64>) -> Option<u64> {
    match (a, b) {
        (Some(x), Some(y)) => Some(if x <= y { x } else { y }),
        (Some(x), None) => Some(x),
        (None, Some(y)) => Some(y),
        (None, None) => None,
    }
}

/// The shortest time until a waiting path is due (zero when one is overdue).
pub open spec fn pending_wait(s: Seq<(Seq<char>, PendingEntry)>, now: u64) -> Option<u64>
    decreases s.len(),
{
    if s.len() == 0 {
        None
    } else {
        min_wait(pending_wait(s.drop_last(), now), Some(s.last().1.due_ms.saturating_sub(now)))
    }
}

impl PendingTable {
    /// The shortest time until a waiting path is due.
    pub fn min_wait(&self, now_ms: u64) -> (r: Option<u64>)
        ensures
            r == pending_wait(self@, now_ms),
    {
        let ghost s = self@;
        let mut best: Option<u64> = None;
        let mut i: usize = 0;
        assert(s.take(0) =~= Seq::<(Seq<char>, PendingEntry)>::empty());
        while i < self.entries.len()
            invariant
                i <= self.entries@.len(),
                s == self@,
                s == pending_view_of(self.entries@),
                best == pending_wait(s.take(i as int), now_ms),
            decreases self.entries.len() - i,
        {
            assert(s.take(i as int + 1).drop_last() == s.take(i as int));
            assert(s.take(i as int + 1).last() == s[i as int]);
            let w = self.entries[i].1.due_ms.saturating_sub(now_ms);
            best = match best {
                Some(b) => Some(if b <= w { b } else { w }),
                None => Some(w),
            };
            i = i + 1;
        }
        assert(s.take(s.len() as int) == s);
        best
    }
}

} // verus!

verus! {

/// Notes a file found when watching begins: when existing files are offered,
/// it waits like a changed file; otherwise it is remembered as already present.
pub fn record_existing_file(
    scan_existing: bool,
    complete_delay_ms: u64,
    pending: &mut PendingTable,
    known: &mut KnownSet,
    path: &str,
    signature: FileSignature,
    now_ms: u64,
)
    requires
        old(pending).wf(),
    ensures
        final(pending).wf(),
        scan_existing ==> final(known)@ == old(known)@ && final(pending)@ == ({
            let e = PendingEntry { due_ms: now_ms.saturating_add(complete_delay_ms), first_seen_ms: now_ms };
            let i = find_path(old(pending)@, path@);
            if i >= 0 { old(pending)@.update(i, (old(pending)@[i].0, e)) } else { old(pending)@.push((path@, e)) }
        }),
        !scan_existing ==> final(pending)@ == old(pending)@ && final(known)@ == known_after(old(known)@, signature_view(signature)),
{
    if scan_existing {
        pending.insert(path, PendingEntry { due_ms: now_ms.saturating_add(complete_delay_ms), first_seen_ms: now_ms });
    } else {
        known.insert(signature);
    }
}

/// Due paths come out in strictly increasing `Path` order.
pub proof fn lemma_drained_paths_sorted(s: Seq<(Seq<char>, PendingEntry)>, now: u64)
    requires
        paths_unique(s),
    ensures
        crate::sort::sorted_by(stable_sort(due_of(s, now), path_order()), path_order()),
        stable_sort(due_of(s, now), path_order()).to_multiset() == due_of(s, now).to_multiset(),
{
    assert(crate::sort::total_preorder(path_order())) by {
        assert forall|a: (Seq<char>, u64), b: (Seq<char>, u64)| #[trigger] (path_order())(a, b) || (path_order())(b, a) by {
            lemma_path_lt_order(a.0, b.0, a.0);
        }
        assert forall|a: (Seq<char>, u64), b: (Seq<char>, u64), c: (Seq<char>, u64)|
            #[trigger] (path_order())(a, b) && #[trigger] (path_order())(b, c) implies (path_order())(a, c) by {
            lemma_path_lt_order(a.0, b.0, c.0);
            lemma_path_lt_order(c.0, a.0, b.0);
            lemma_path_lt_order(b.0, a.0, c.0);
            lemma_path_lt_order(a.0, c.0, b.0);
        }
    }
    crate::sort::lemma_stable_sort_sorted(due_of(s, now), path_order());
    crate::sort::lemma_stable_sort_permutes(due_of(s, now), path_order());
}

/// A file state is offered at most once: once `prepare_ready_download` has
/// offered a signature, the record holds it, so the same state is not offered again.
pub proof fn lemma_offered_once(
    processed: Seq<((Seq<char>, u64, u128), u64)>,
    sig: (Seq<char>, u64, u128),
    now: u64,
)
    ensures
        was_processed(processed.push((sig, now)), sig),
        forall|scan: bool, known: Seq<(Seq<char>, u64, u128)>| !#[trigger] offered(scan, known, processed.push((sig, now)), sig),
{
    let t = processed.push((sig, now));
    assert(same_signature(t[processed.len() as int].0, sig));
}

/// A file found when watching began is not offered while existing files are
/// not scanned: recording it makes its state known, and a known state is not
/// offered.
pub proof fn lemma_existing_files_not_offered(
    known: Seq<(Seq<char>, u64, u128)>,
    processed: Seq<((Seq<char>, u64, u128), u64)>,
    sig: (Seq<char>, u64, u128),
)
    ensures
        has_signature(known_after(known, sig), sig),
        !offered(false, known_after(known, sig), processed, sig),
{
    if !has_signature(known, sig) {
        let t = known.push(sig);
        assert(same_signature(t[known.len() as int], sig));
    }
}

/// After pruning, the record holds at most `PROCESSED_MAX` file states, all
/// handled within the last hour, and every state it dropped for room was
/// handled no later than every state it kept.
pub proof fn lemma_pruned_small_and_recent(s: Seq<((Seq<char>, u64, u128), u64)>, now: u64)
    ensures
        pruned(s, now).len() <= PROCESSED_MAX,
        forall|i: int| 0 <= i < pruned(s, now).len() ==> now.saturating_sub((#[trigger] pruned(s, now)[i]).1) <= PROCESSED_TTL_MS,
        recent_of(s, now).len() > PROCESSED_MAX ==> ({
            let sorted = stable_sort(recent_of(s, now), age_order());
            let cut = recent_of(s, now).len() - PROCESSED_PRUNE_TO;
            forall|i: int, j: int| 0 <= i < cut <= j < sorted.len() ==> (#[trigger] sorted[i]).1 <= (#[trigger] sorted[j]).1
        }),
{
    lemma_recent_of(s, now);
    let recent = recent_of(s, now);
    if recent.len() > PROCESSED_MAX {
        assert(crate::sort::total_preorder(age_order()));
        crate::sort::lemma_stable_sort_sorted(recent, age_order());
        crate::sort::lemma_stable_sort_permutes(recent, age_order());
        let sorted = stable_sort(recent, age_order());
        let cut = recent.len() - PROCESSED_PRUNE_TO;
        assert forall|i: int| 0 <= i < pruned(s, now).len() implies now.saturating_sub((#[trigger] pruned(s, now)[i]).1) <= PROCESSED_TTL_MS by {
            let e = sorted[i + cut];
            assert(pruned(s, now)[i] == e);
            broadcast use vstd::seq_lib::group_to_multiset_ensures;
            assert(sorted.contains(e));
            assert(sorted.to_multiset().count(e) > 0);
            assert(recent.to_multiset().count(e) > 0);
            assert(recent.contains(e));
            let k = choose|k: int| 0 <= k < recent.len() && recent[k] == e;
        }
    }
}

proof fn lemma_recent_of(s: Seq<((Seq<char>, u64, u128), u64)>, now: u64)
    ensures
        recent_of(s, now).len() <= s.len(),
        forall|i: int| 0 <= i < recent_of(s, now).len() ==> now.saturating_sub((#[trigger] recent_of(s, now)[i]).1) <= PROCESSED_TTL_MS,
    decreases s.len(),
{
    if s.len() > 0 {
        lemma_recent_of(s.drop_last(), now);
        let r = recent_of(s.drop_last(), now);
        if now.saturating_sub(s.last().1) <= PROCESSED_TTL_MS {
            assert forall|i: int| 0 <= i < r.len() + 1 implies now.saturating_sub((#[trigger] r.push(s.last())[i]).1) <= PROCESSED_TTL_MS by {
                if i < r.len() {
                    assert(r.push(s.last())[i] == r[i]);
                }
            }
        }
    }
}

} // verus!

verus! {

/// Every waiting path sits directly in the downloads folder and is not left alone.
pub open spec fn all_watched(s: Seq<(Seq<char>, PendingEntry)>, downloads_dir: Seq<char>) -> bool {
    forall|k: int| 0 <= k < s.len() ==> inside_dir_spec(#[trigger] s[k].0, downloads_dir) && !should_ignore_spec(s[k].0)
}

/// Only paths directly in the downloads folder that are not left alone ever
/// wait: scheduling the paths of an event keeps the table so.
pub proof fn lemma_schedule_keeps_watched(
    s: Seq<(Seq<char>, PendingEntry)>,
    paths: Seq<Seq<char>>,
    downloads_dir: Seq<char>,
    complete_delay_ms: u64,
    now: u64,
)
    requires
        all_watched(s, downloads_dir),
    ensures
        all_watched(schedule_spec(s, paths, downloads_dir, complete_delay_ms, now), downloads_dir),
    decreases paths.len(),
{
    if paths.len() > 0 {
        lemma_schedule_keeps_watched(s, paths.drop_last(), downloads_dir, complete_delay_ms, now);
        let prev = schedule_spec(s, paths.drop_last(), downloads_dir, complete_delay_ms, now);
        let p = paths.last();
        if inside_dir_spec(p, downloads_dir) && !should_ignore_spec(p) {
            let next = schedule_one(prev, p, now.saturating_add(complete_delay_ms), now);
            lemma_find_path(prev, p);
            assert forall|k: int| 0 <= k < next.len() implies inside_dir_spec(#[trigger] next[k].0, downloads_dir)
                && !should_ignore_spec(next[k].0) by {
                if k < prev.len() {
                    assert(next[k].0 == prev[k].0);
                }
            }
        }
    }
}

/// Draining loses no path: each entry is either due, and comes out with when
/// it was first seen, or still waiting.
pub proof fn lemma_drain_partitions(s: Seq<(Seq<char>, PendingEntry)>, now: u64)
    ensures
        due_of(s, now).len() + waiting_of(s, now).len() == s.len(),
        forall|k: int| 0 <= k < s.len() && (#[trigger] s[k]).1.due_ms <= now ==> due_of(s, now).contains((s[k].0, s[k].1.first_seen_ms)),
        forall|k: int| 0 <= k < s.len() && (#[trigger] s[k]).1.due_ms > now ==> waiting_of(s, now).contains(s[k]),
    decreases s.len(),
{
    if s.len() > 0 {
        let d = s.drop_last();
        lemma_drain_partitions(d, now);
        let pd = due_of(d, now);
        let pw = waiting_of(d, now);
        assert forall|k: int| 0 <= k < s.len() && (#[trigger] s[k]).1.due_ms <= now implies due_of(s, now).contains((s[k].0, s[k].1.first_seen_ms)) by {
            if k < s.len() - 1 {
                assert(s[k] == d[k]);
                let j = choose|j: int| 0 <= j < pd.len() && pd[j] == (d[k].0, d[k].1.first_seen_ms);
                if s.last().1.due_ms <= now {
                    assert(due_of(s, now)[j] == pd[j]);
                }
            } else {
                assert(due_of(s, now)[pd.len() as int] == (s[k].0, s[k].1.first_seen_ms));
            }
        }
        assert forall|k: int| 0 <= k < s.len() && (#[trigger] s[k]).1.due_ms > now implies waiting_of(s, now).contains(s[k]) by {
            if k < s.len() - 1 {
                assert(s[k] == d[k]);
                let j = choose|j: int| 0 <= j < pw.len() && pw[j] == d[k];
                if s.last().1.due_ms > now {
                    assert(waiting_of(s, now)[j] == pw[j]);
                }
            } else {
                assert(waiting_of(s, now)[pw.len() as int] == s[k]);
            }
        }
    }
}

} // verus!

verus! {

/// What to do next with a due path, from what the file system says of it.
#[derive(PartialEq, Eq, Structural, Clone, Copy, Debug)]
pub enum PrepareStep {
    /// Nothing: the path is left alone, is gone, or is not a regular file.
    Done,
    /// Look again later: the file still changes and has not waited long enough.
    RetryLater,
    /// Read the file's signature and decide whether to offer it.
    ReadSignature,
}

/// The first decision on a due path: a path that is left alone, gone or not
/// a regular file is done with; a file that still changes is looked at again
/// later until it has waited `PENDING_MAX_WAIT_MS` since it was first seen,
/// after which it is handled anyway; a stable file goes on to its signature.
/// `stable` is not read when the path is done with.
pub fn prepare_step(ignored: bool, present: bool, regular: bool, stable: bool, first_seen_ms: u64, now_ms: u64) -> (r: PrepareStep)
    ensures
        r == (if ignored || !present || !regular { PrepareStep::Done }
            else if !stable && now_ms.saturating_sub(first_seen_ms) < PENDING_MAX_WAIT_MS { PrepareStep::RetryLater }
            else { PrepareStep::ReadSignature }),
{
    if ignored || !present || !regular {
        return PrepareStep::Done;
    }
    match settle(stable, first_seen_ms, now_ms) {
        Settle::RetryLater => PrepareStep::RetryLater,
        _ => PrepareStep::ReadSignature,
    }
}

/// The download offered for the file at `path` with signature `signature`:
/// its name is the path's file name, its source `domain` or `未知来源` when
/// the source could not be read, and its time the signature's.
pub fn ready_download(path: &str, signature: &FileSignature, domain: Option<String>) -> (r: ReadyDownload)
    ensures
        download_view(r) == (path@, display_name(path@),
            match domain { Some(d) => d@, None => unknown_source() }, signature.modified_ms),
{
    ReadyDownload {
        path: string_of(chars_of(path).as_slice()),
        file_name: file_name(path),
        domain: match domain {
            Some(d) => d,
            None => string_of(chars_of("未知来源").as_slice()),
        },
        modified_ms: signature.modified_ms,
    }
}

/// How handling one due path ended.
pub enum PathOutcome {
    /// Nothing more to do with it.
    Done,
    /// It is to be looked at again later.
    RetryLater,
    /// It is offered.
    Ready(ReadyDownload),
    /// Reading it failed; it is dropped.
    Failed,
}

/// Records how handling the due path `path`, first seen at `first_seen_ms`,
/// ended: a path to retry goes back into the table, due `complete_delay_ms`
/// from `now_ms` with the same first-seen time; a ready download joins
/// `ready`; a path done with or failed is dropped. Nothing else changes.
pub fn record_outcome(
    pending: &mut PendingTable,
    ready: &mut Vec<ReadyDownload>,
    path: &str,
    first_seen_ms: u64,
    outcome: PathOutcome,
    now_ms: u64,
    complete_delay_ms: u64,
)
    requires
        old(pending).wf(),
    ensures
        final(pending).wf(),
        match outcome {
            PathOutcome::RetryLater => final(pending)@ == retried(old(pending)@, path@, first_seen_ms, now_ms, complete_delay_ms)
                && final(ready)@ == old(ready)@,
            PathOutcome::Ready(d) => final(pending)@ == old(pending)@ && final(ready)@ == old(ready)@.push(d),
            _ => final(pending)@ == old(pending)@ && final(ready)@ == old(ready)@,
        },
{
    match outcome {
        PathOutcome::RetryLater => retry_later(pending, path, first_seen_ms, now_ms, complete_delay_ms),
        PathOutcome::Ready(d) => ready.push(d),
        _ => {},
    }
}

} // verus!

verus! {

/// A file state is its path (by components), its size and its modification
/// time: a settled file is offered exactly when no handled state, and (unless
/// existing files are offered) no state present at start, agrees with it in
/// all three. So a file with the same path and size but another modification
/// time is a new state and is offered.
pub proof fn lemma_offered_by_path_size_and_time(
    scan_existing: bool,
    known: Seq<(Seq<char>, u64, u128)>,
    processed: Seq<((Seq<char>, u64, u128), u64)>,
    sig: (Seq<char>, u64, u128),
)
    ensures
        offered(scan_existing, known, processed, sig) == !((!scan_existing && exists|i: int| 0 <= i < known.len()
                && same_path_spec((#[trigger] known[i]).0, sig.0) && known[i].1 == sig.1 && known[i].2 == sig.2)
            || exists|i: int| 0 <= i < processed.len()
                && same_path_spec((#[trigger] processed[i]).0.0, sig.0) && processed[i].0.1 == sig.1 && processed[i].0.2 == sig.2),
{
    if has_signature(known, sig) {
        let i = choose|i: int| 0 <= i < known.len() && same_signature(#[trigger] known[i], sig);
        assert(same_path_spec(known[i].0, sig.0) && known[i].1 == sig.1 && known[i].2 == sig.2);
    }
    if exists|i: int| 0 <= i < known.len()
        && same_path_spec((#[trigger] known[i]).0, sig.0) && known[i].1 == sig.1 && known[i].2 == sig.2 {
        let i = choose|i: int| 0 <= i < known.len()
            && same_path_spec((#[trigger] known[i]).0, sig.0) && known[i].1 == sig.1 && known[i].2 == sig.2;
        assert(same_signature(known[i], sig));
    }
    if was_processed(processed, sig) {
        let i = choose|i: int| 0 <= i < processed.len() && same_signature((#[trigger] processed[i]).0, sig);
        assert(same_path_spec(processed[i].0.0, sig.0) && processed[i].0.1 == sig.1 && processed[i].0.2 == sig.2);
    }
    if exists|i: int| 0 <= i < processed.len()
        && same_path_spec((#[trigger] processed[i]).0.0, sig.0) && processed[i].0.1 == sig.1 && processed[i].0.2 == sig.2 {
        let i = choose|i: int| 0 <= i < processed.len()
            && same_path_spec((#[trigger] processed[i]).0.0, sig.0) && processed[i].0.1 == sig.1 && processed[i].0.2 == sig.2;
        assert(same_signature(processed[i].0, sig));
    }
}

} // verus!
