//! The memory of past choices: for each source domain, how often each
//! destination folder was chosen.
use vstd::prelude::*;
use crate::assoc::{keys_sorted, lookup, key_at, find_key, lemma_insert_sorted, lemma_update_sorted,
    lemma_lookup_at};
use crate::text::{chars_of, text_lt, string_of, append_chars, push_decimal, decimal, join_with, join_chars};
use crate::pathing::{same_path, same_path_spec, file_name_of, path_file_name, lemma_trailing_slash_components};

verus! {

/// The abstract memory: domains in increasing order, each with its
/// destinations in increasing order and the number of times each was chosen.
pub open spec fn targets_view(ts: Seq<(String, u64)>) -> Seq<(Seq<char>, u64)> {
    Seq::new(ts.len(), |j: int| (ts[j].0@, ts[j].1))
}

pub open spec fn memory_view_of(raw: Seq<(String, Vec<(String, u64)>)>) -> Seq<(Seq<char>, Seq<(Seq<char>, u64)>)> {
    Seq::new(raw.len(), |i: int| (raw[i].0@, targets_view(raw[i].1@)))
}

/// Domains and, within each domain, destinations strictly increase.
pub open spec fn memory_wf(m: Seq<(Seq<char>, Seq<(Seq<char>, u64)>)>) -> bool {
    &&& keys_sorted(m)
    &&& forall|i: int| 0 <= i < m.len() ==> keys_sorted(#[trigger] m[i].1)
}

/// The destinations recorded for `domain` (none when the domain is absent).
pub open spec fn targets_of(m: Seq<(Seq<char>, Seq<(Seq<char>, u64)>)>, domain: Seq<char>) -> Seq<(Seq<char>, u64)> {
    match lookup(m, domain) {
        Some(ts) => ts,
        None => Seq::empty(),
    }
}

/// How often `target` was chosen for `domain`.
pub open spec fn count_of(m: Seq<(Seq<char>, Seq<(Seq<char>, u64)>)>, domain: Seq<char>, target: Seq<char>) -> Option<u64> {
    match lookup(m, domain) {
        Some(ts) => lookup(ts, target),
        None => None,
    }
}

/// The count after one more choice of a destination.
pub open spec fn incremented(c: Option<u64>) -> u64 {
    match c {
        Some(n) => (n + 1) as u64,
        None => 1,
    }
}

/// The memory of past choices, as a `BTreeMap<String, BTreeMap<String, u64>>` holds it.
pub struct Memory {
    domains: Vec<(String, Vec<(String, u64)>)>,
}

impl View for Memory {
    type V = Seq<(Seq<char>, Seq<(Seq<char>, u64)>)>;

    closed spec fn view(&self) -> Self::V {
        memory_view_of(self.domains@)
    }
}

proof fn lemma_view_insert(raw: Seq<(String, Vec<(String, u64)>)>, pos: int, x: (String, Vec<(String, u64)>))
    requires
        0 <= pos <= raw.len(),
    ensures
        memory_view_of(raw.insert(pos, x)) == memory_view_of(raw).insert(pos, (x.0@, targets_view(x.1@))),
{
    assert(memory_view_of(raw.insert(pos, x)) =~= memory_view_of(raw).insert(pos, (x.0@, targets_view(x.1@))));
}

proof fn lemma_view_update(raw: Seq<(String, Vec<(String, u64)>)>, pos: int, x: (String, Vec<(String, u64)>))
    requires
        0 <= pos < raw.len(),
    ensures
        memory_view_of(raw.update(pos, x)) == memory_view_of(raw).update(pos, (x.0@, targets_view(x.1@))),
{
    assert(memory_view_of(raw.update(pos, x)) =~= memory_view_of(raw).update(pos, (x.0@, targets_view(x.1@))));
}

proof fn lemma_targets_insert(ts: Seq<(String, u64)>, pos: int, x: (String, u64))
    requires
        0 <= pos <= ts.len(),
    ensures
        targets_view(ts.insert(pos, x)) == targets_view(ts).insert(pos, (x.0@, x.1)),
{
    assert(targets_view(ts.insert(pos, x)) =~= targets_view(ts).insert(pos, (x.0@, x.1)));
}

proof fn lemma_targets_update(ts: Seq<(String, u64)>, pos: int, x: (String, u64))
    requires
        0 <= pos < ts.len(),
    ensures
        targets_view(ts.update(pos, x)) == targets_view(ts).update(pos, (x.0@, x.1)),
{
    assert(targets_view(ts.update(pos, x)) =~= targets_view(ts).update(pos, (x.0@, x.1)));
}

impl Memory {
    /// The memory is well formed: keys are in strictly increasing order.
    pub open spec fn wf(&self) -> bool {
        memory_wf(self@)
    }

    /// An empty memory.
    pub fn new() -> (m: Memory)
        ensures
            m@ == Seq::<(Seq<char>, Seq<(Seq<char>, u64)>)>::empty(),
            m.wf(),
    {
        let m = Memory { domains: Vec::new() };
        assert(m@ =~= Seq::<(Seq<char>, Seq<(Seq<char>, u64)>)>::empty());
        m
    }

    /// The number of domains.
    pub fn len(&self) -> (n: usize)
        ensures
            n == self@.len(),
    {
        self.domains.len()
    }

    /// Whether no domain is recorded.
    pub fn is_empty(&self) -> (b: bool)
        ensures
            b == (self@.len() == 0),
    {
        self.domains.len() == 0
    }

    /// The domains and their destinations, in order.
    pub fn entries(&self) -> (r: Vec<(String, Vec<(String, u64)>)>)
        ensures
            memory_view_of(r@) == self@,
    {
        let mut r: Vec<(String, Vec<(String, u64)>)> = Vec::new();
        let mut i: usize = 0;
        while i < self.domains.len()
            invariant
                i <= self.domains@.len(),
                r@.len() == i,
                forall|k: int| 0 <= k < i ==> (#[trigger] r@[k]).0@ == self.domains@[k].0@ && targets_view(r@[k].1@) == targets_view(self.domains@[k].1@),
            decreases self.domains.len() - i,
        {
            let ts = &self.domains[i].1;
            let mut copy: Vec<(String, u64)> = Vec::new();
            let mut j: usize = 0;
            while j < ts.len()
                invariant
                    j <= ts@.len(),
                    copy@.len() == j,
                    forall|k: int| 0 <= k < j ==> (#[trigger] copy@[k]).0@ == ts@[k].0@ && copy@[k].1 == ts@[k].1,
                decreases ts.len() - j,
            {
                copy.push((ts[j].0.clone(), ts[j].1));
                j = j + 1;
            }
            assert(targets_view(copy@) =~= targets_view(ts@));
            r.push((self.domains[i].0.clone(), copy));
            i = i + 1;
        }
        assert(memory_view_of(r@) =~= memory_view_of(self.domains@));
        r
    }

    /// How often `target` was chosen for `domain`.
    pub fn count(&self, domain: &str, target: &str) -> (c: Option<u64>)
        requires
            self.wf(),
        ensures
            c == count_of(self@, domain@, target@),
    {
        let dk = chars_of(domain);
        proof { self.lemma_raw_sorted(); }
        let (found, pos) = find_key(&self.domains, dk.as_slice());
        if !found {
            proof { self.lemma_absent(domain@, pos as int); }
            return None;
        }
        proof { lemma_lookup_at(self@, pos as int); }
        let ts = &self.domains[pos].1;
        let tk = chars_of(target);
        proof { Self::lemma_targets_raw_sorted(self@, self.domains@, pos as int); }
        let (tfound, tpos) = find_key(ts, tk.as_slice());
        if !tfound {
            proof {
                let tv = targets_view(ts@);
                assert forall|j: int| 0 <= j < tpos implies text_lt(#[trigger] tv[j].0, target@) by {
                    assert(key_at(ts@, j) == tv[j].0);
                }
                if tpos < tv.len() {
                    assert(key_at(ts@, tpos as int) == tv[tpos as int].0);
                }
                lemma_insert_sorted(tv, tpos as int, target@, 0u64);
                crate::assoc::lemma_lookup_has_key(tv, target@);
            }
            return None;
        }
        proof {
            let tv = targets_view(ts@);
            assert(tv[tpos as int].0 == target@);
            lemma_lookup_at(tv, tpos as int);
        }
        Some(ts[tpos].1)
    }

    /// Sets how often `target` was chosen for `domain`, adding either when absent.
    pub fn set_count(&mut self, domain: &str, target: &str, count: u64)
        requires
            old(self).wf(),
        ensures
            final(self).wf(),
            lookup(final(self)@, domain@) is Some,
            forall|d: Seq<char>| d != domain@ ==> lookup(final(self)@, d) == lookup(old(self)@, d),
            lookup(targets_of(final(self)@, domain@), target@) == Some(count),
            forall|t: Seq<char>| t != target@ ==>
                lookup(targets_of(final(self)@, domain@), t) == lookup(targets_of(old(self)@, domain@), t),
    {
        let dk = chars_of(domain);
        let tk = chars_of(target);
        proof { self.lemma_raw_sorted(); }
        let ghost m0 = self@;
        let ghost raw0 = self.domains@;
        let (found, pos) = find_key(&self.domains, dk.as_slice());
        if found {
            proof {
                Self::lemma_targets_raw_sorted(m0, raw0, pos as int);
                assert(m0[pos as int].0 == domain@);
                lemma_lookup_at(m0, pos as int);
            }
            let (dname, mut ts) = self.domains.remove(pos);
            let ghost tv0 = targets_view(ts@);
            assert(tv0 == m0[pos as int].1);
            let (tfound, tpos) = find_key(&ts, tk.as_slice());
            let ghost tv1: Seq<(Seq<char>, u64)>;
            if tfound {
                let (tname, _old) = ts.remove(tpos);
                let ghost ts_mid = ts@;
                ts.insert(tpos, (tname, count));
                proof {
                    assert(ts@ == raw0[pos as int].1@.update(tpos as int, (tname, count)));
                    lemma_targets_update(raw0[pos as int].1@, tpos as int, (tname, count));
                    assert(tv0[tpos as int].0 == tname@);
                    assert(tv0[tpos as int].0 == target@);
                    lemma_update_sorted(tv0, tpos as int, count);
                    tv1 = targets_view(ts@);
                    assert(tv1 == tv0.update(tpos as int, (tv0[tpos as int].0, count)));
                }
            } else {
                proof {
                    assert forall|j: int| 0 <= j < tpos implies text_lt(#[trigger] tv0[j].0, target@) by {
                        assert(key_at(ts@, j) == tv0[j].0);
                    }
                    if tpos < tv0.len() {
                        assert(key_at(ts@, tpos as int) == tv0[tpos as int].0);
                    }
                }
                let ghost ts_before = ts@;
                ts.insert(tpos, (target.to_owned(), count));
                proof {
                    lemma_targets_insert(ts_before, tpos as int, ts@[tpos as int]);
                    assert(ts@ == ts_before.insert(tpos as int, ts@[tpos as int]));
                }
                proof {
                    lemma_insert_sorted(tv0, tpos as int, target@, count);
                    tv1 = targets_view(ts@);
                }
            }
            self.domains.insert(pos, (dname, ts));
            proof {
                lemma_view_update(raw0, pos as int, self.domains@[pos as int]);
                assert(self.domains@ == raw0.update(pos as int, self.domains@[pos as int]));
                lemma_update_sorted(m0, pos as int, tv1);
                assert(self@ == m0.update(pos as int, (m0[pos as int].0, tv1)));
                lemma_lookup_at(self@, pos as int);
                assert forall|i: int| 0 <= i < self@.len() implies keys_sorted(#[trigger] self@[i].1) by {
                    if i != pos {
                        assert(self@[i] == m0[i]);
                    }
                }
            }
        } else {
            proof { self.lemma_absent(domain@, pos as int); }
            let mut ts: Vec<(String, u64)> = Vec::new();
            ts.push((target.to_owned(), count));
            let ghost tv = targets_view(ts@);
            assert(tv =~= seq![(target@, count)]);
            self.domains.insert(pos, (domain.to_owned(), ts));
            proof {
                lemma_view_insert(raw0, pos as int, self.domains@[pos as int]);
                lemma_insert_sorted(m0, pos as int, domain@, tv);
                lemma_lookup_at(tv, 0);
                assert(keys_sorted(tv));
                assert forall|i: int| 0 <= i < self@.len() implies keys_sorted(#[trigger] self@[i].1) by {
                    if i < pos {
                        assert(self@[i] == m0[i]);
                    } else if i > pos {
                        assert(self@[i] == m0[i - 1]);
                    }
                }
                assert forall|t: Seq<char>| t != target@ implies
                    lookup(targets_of(self@, domain@), t) == lookup(targets_of(m0, domain@), t) by {
                    assert(tv.drop_last() =~= Seq::<(Seq<char>, u64)>::empty());
                }
            }
        }
    }

    /// Makes sure `domain` is recorded, with no destinations when it is new.
    pub fn insert_domain(&mut self, domain: &str)
        requires
            old(self).wf(),
        ensures
            final(self).wf(),
            lookup(final(self)@, domain@) == Some(targets_of(old(self)@, domain@)),
            forall|d: Seq<char>| d != domain@ ==> lookup(final(self)@, d) == lookup(old(self)@, d),
    {
        let dk = chars_of(domain);
        proof { self.lemma_raw_sorted(); }
        let ghost m0 = self@;
        let ghost raw0 = self.domains@;
        let (found, pos) = find_key(&self.domains, dk.as_slice());
        if found {
            proof {
                assert(m0[pos as int].0 == domain@);
                lemma_lookup_at(m0, pos as int);
            }
            return;
        }
        proof { self.lemma_absent(domain@, pos as int); }
        let ts: Vec<(String, u64)> = Vec::new();
        let ghost tv = targets_view(ts@);
        assert(tv =~= Seq::<(Seq<char>, u64)>::empty());
        self.domains.insert(pos, (domain.to_owned(), ts));
        proof {
            lemma_view_insert(raw0, pos as int, self.domains@[pos as int]);
            lemma_insert_sorted(m0, pos as int, domain@, tv);
            assert forall|i: int| 0 <= i < self@.len() implies keys_sorted(#[trigger] self@[i].1) by {
                if i < pos {
                    assert(self@[i] == m0[i]);
                } else if i > pos {
                    assert(self@[i] == m0[i - 1]);
                }
            }
        }
    }

    /// Records one more choice of `target` for `domain`: its count goes up by
    /// one (from zero when it was never chosen), and nothing else changes.
    pub fn record_choice(&mut self, domain: &str, target: &str)
        requires
            old(self).wf(),
            count_of(old(self)@, domain@, target@) != Some(u64::MAX),
        ensures
            final(self).wf(),
            count_of(final(self)@, domain@, target@) == Some(incremented(count_of(old(self)@, domain@, target@))),
            forall|d: Seq<char>, t: Seq<char>| !(d == domain@ && t == target@) ==>
                count_of(final(self)@, d, t) == count_of(old(self)@, d, t),
            forall|d: Seq<char>| lookup(final(self)@, d) is Some <==> (lookup(old(self)@, d) is Some || d == domain@),
    {
        let current = self.count(domain, target);
        let next: u64 = match current {
            Some(n) => n + 1,
            None => 1,
        };
        let ghost m0 = self@;
        self.set_count(domain, target, next);
        proof {
            assert forall|d: Seq<char>, t: Seq<char>| !(d == domain@ && t == target@) implies
                count_of(self@, d, t) == count_of(m0, d, t) by {
                if d == domain@ {
                    if lookup(m0, d) is None {
                        assert(lookup(targets_of(m0, d), t) is None);
                    }
                }
            }
        }
    }

    proof fn lemma_raw_sorted(&self)
        requires
            self.wf(),
        ensures
            forall|i: int, j: int| 0 <= i < j < self.domains@.len() ==>
                text_lt(#[trigger] key_at(self.domains@, i), #[trigger] key_at(self.domains@, j)),
    {
        assert forall|i: int, j: int| 0 <= i < j < self.domains@.len() implies
            text_lt(#[trigger] key_at(self.domains@, i), #[trigger] key_at(self.domains@, j)) by {
            assert(self@[i].0 == key_at(self.domains@, i));
            assert(self@[j].0 == key_at(self.domains@, j));
        }
    }

    proof fn lemma_targets_raw_sorted(m: Seq<(Seq<char>, Seq<(Seq<char>, u64)>)>, raw: Seq<(String, Vec<(String, u64)>)>, pos: int)
        requires
            m == memory_view_of(raw),
            memory_wf(m),
            0 <= pos < raw.len(),
        ensures
            forall|i: int, j: int| 0 <= i < j < raw[pos].1@.len() ==>
                text_lt(#[trigger] key_at(raw[pos].1@, i), #[trigger] key_at(raw[pos].1@, j)),
    {
        let tv = targets_view(raw[pos].1@);
        assert(m[pos].1 == tv);
        assert(keys_sorted(m[pos].1));
        assert forall|i: int, j: int| 0 <= i < j < raw[pos].1@.len() implies
            text_lt(#[trigger] key_at(raw[pos].1@, i), #[trigger] key_at(raw[pos].1@, j)) by {
            assert(tv[i].0 == key_at(raw[pos].1@, i));
            assert(tv[j].0 == key_at(raw[pos].1@, j));
        }
    }

    proof fn lemma_absent(&self, d: Seq<char>, pos: int)
        requires
            self.wf(),
            0 <= pos <= self.domains@.len(),
            forall|j: int| 0 <= j < pos ==> text_lt(#[trigger] key_at(self.domains@, j), d),
            pos < self.domains@.len() ==> text_lt(d, key_at(self.domains@, pos)),
        ensures
            lookup(self@, d) is None,
            forall|j: int| 0 <= j < pos ==> text_lt(#[trigger] self@[j].0, d),
            pos < self@.len() ==> text_lt(d, self@[pos].0),
    {
        assert forall|j: int| 0 <= j < pos implies text_lt(#[trigger] self@[j].0, d) by {
            assert(self@[j].0 == key_at(self.domains@, j));
        }
        if pos < self@.len() {
            assert(self@[pos].0 == key_at(self.domains@, pos));
        }
        lemma_insert_sorted(self@, pos, d, Seq::<(Seq<char>, u64)>::empty());
        crate::assoc::lemma_lookup_has_key(self@, d);
    }
}


} // verus!

verus! {

/// The entry with the highest count; among equal counts the last one, as
/// `Iterator::max_by_key` picks it.
pub open spec fn max_entry(ts: Seq<(Seq<char>, u64)>) -> Option<(Seq<char>, u64)>
    decreases ts.len(),
{
    if ts.len() == 0 {
        None
    } else {
        match max_entry(ts.drop_last()) {
            None => Some(ts.last()),
            Some(b) => if ts.last().1 >= b.1 { Some(ts.last()) } else { Some(b) },
        }
    }
}

/// The entries whose destination is not the downloads folder itself.
pub open spec fn away_from(ts: Seq<(Seq<char>, u64)>, downloads_dir: Seq<char>) -> Seq<(Seq<char>, u64)>
    decreases ts.len(),
{
    if ts.len() == 0 {
        Seq::empty()
    } else if same_path_spec(ts.last().0, downloads_dir) {
        away_from(ts.drop_last(), downloads_dir)
    } else {
        away_from(ts.drop_last(), downloads_dir).push(ts.last())
    }
}

/// The destination suggested for `domain`: the most chosen one that is not
/// the downloads folder.
pub open spec fn top_destination_spec(
    m: Seq<(Seq<char>, Seq<(Seq<char>, u64)>)>,
    domain: Seq<char>,
    downloads_dir: Seq<char>,
) -> Option<(Seq<char>, u64)> {
    max_entry(away_from(targets_of(m, domain), downloads_dir))
}

pub open spec fn pair_view(p: Option<(String, u64)>) -> Option<(Seq<char>, u64)> {
    match p {
        Some(x) => Some((x.0@, x.1)),
        None => None,
    }
}

/// The most chosen destination for `domain` other than the downloads folder,
/// with its count.
pub fn top_destination(memory: &Memory, domain: &str, downloads_dir: &str) -> (r: Option<(String, u64)>)
    requires
        memory.wf(),
    ensures
        pair_view(r) == top_destination_spec(memory@, domain@, downloads_dir@),
{
    let dk = chars_of(domain);
    proof { memory.lemma_raw_sorted(); }
    let (found, pos) = find_key(&memory.domains, dk.as_slice());
    if !found {
        proof {
            memory.lemma_absent(domain@, pos as int);
            assert(away_from(Seq::<(Seq<char>, u64)>::empty(), downloads_dir@) =~= Seq::<(Seq<char>, u64)>::empty());
        }
        return None;
    }
    proof { lemma_lookup_at(memory@, pos as int); }
    let ts = &memory.domains[pos].1;
    let ghost tv = targets_view(ts@);
    assert(targets_of(memory@, domain@) == tv);
    let mut best: Option<(String, u64)> = None;
    let mut i: usize = 0;
    while i < ts.len()
        invariant
            i <= ts@.len(),
            tv == targets_view(ts@),
            pair_view(best) == max_entry(away_from(tv.take(i as int), downloads_dir@)),
        decreases ts.len() - i,
    {
        proof {
            assert(tv.take(i as int + 1).drop_last() == tv.take(i as int));
            assert(tv.take(i as int + 1).last() == tv[i as int]);
        }
        let same = same_path(ts[i].0.as_str(), downloads_dir);
        if !same {
            let ghost prev = away_from(tv.take(i as int), downloads_dir@);
            assert(away_from(tv.take(i as int + 1), downloads_dir@) == prev.push(tv[i as int]));
            assert(prev.push(tv[i as int]).drop_last() == prev);
            let take = match &best {
                None => true,
                Some(b) => ts[i].1 >= b.1,
            };
            if take {
                best = Some((ts[i].0.clone(), ts[i].1));
            }
        }
        i = i + 1;
    }
    assert(tv.take(ts@.len() as int) == tv);
    best
}

/// A line of the summary for one domain: its most chosen destination by
/// folder name, and the count.
pub open spec fn summary_line(domain: Seq<char>, best: (Seq<char>, u64)) -> Seq<char> {
    let short = match path_file_name(best.0) {
        Some(name) => name,
        None => "目标目录"@,
    };
    domain + " -> "@ + short + " ("@ + decimal(best.1 as nat) + ")"@
}

/// The summary lines of the given domains, skipping those with no destination.
pub open spec fn summary_lines(ds: Seq<(Seq<char>, Seq<(Seq<char>, u64)>)>) -> Seq<Seq<char>>
    decreases ds.len(),
{
    if ds.len() == 0 {
        Seq::empty()
    } else {
        match max_entry(ds.last().1) {
            Some(best) => summary_lines(ds.drop_last()).push(summary_line(ds.last().0, best)),
            None => summary_lines(ds.drop_last()),
        }
    }
}

/// The text of the memory summary: a count of domains, a line for each of the
/// first eight, and `...` when there are more.
pub open spec fn memory_summary_spec(m: Seq<(Seq<char>, Seq<(Seq<char>, u64)>)>) -> Seq<char> {
    if m.len() == 0 {
        "记忆库为空。先处理几次下载后，这里会出现常用归档目录。"@
    } else {
        let head = seq!["域名条目: "@ + decimal(m.len() as nat)];
        let body = summary_lines(m.take(if m.len() < 8 { m.len() as int } else { 8 }));
        let tail = if m.len() > 8 { seq!["..."@] } else { Seq::<Seq<char>>::empty() };
        join_with(head + body + tail, seq!['\n'])
    }
}

/// The most chosen entry of a list of destinations.
fn max_target(ts: &Vec<(String, u64)>) -> (r: Option<(String, u64)>)
    ensures
        pair_view(r) == max_entry(targets_view(ts@)),
{
    let ghost tv = targets_view(ts@);
    let mut best: Option<(String, u64)> = None;
    let mut i: usize = 0;
    while i < ts.len()
        invariant
            i <= ts@.len(),
            tv == targets_view(ts@),
            pair_view(best) == max_entry(tv.take(i as int)),
        decreases ts.len() - i,
    {
        proof {
            assert(tv.take(i as int + 1).drop_last() == tv.take(i as int));
            assert(tv.take(i as int + 1).last() == tv[i as int]);
        }
        let take = match &best {
            None => true,
            Some(b) => ts[i].1 >= b.1,
        };
        if take {
            best = Some((ts[i].0.clone(), ts[i].1));
        }
        i = i + 1;
    }
    assert(tv.take(ts@.len() as int) == tv);
    best
}

/// A short text describing the memory.
pub fn memory_summary(memory: &Memory) -> (r: String)
    ensures
        r@ == memory_summary_spec(memory@),
{
    let n = memory.domains.len();
    assert(memory@.len() == n);
    if n == 0 {
        return string_of(chars_of("记忆库为空。先处理几次下载后，这里会出现常用归档目录。").as_slice());
    }
    let ghost m = memory@;
    let mut lines: Vec<Vec<char>> = Vec::new();
    let mut head = chars_of("域名条目: ");
    push_decimal(&mut head, n as u64);
    lines.push(head);
    let limit: usize = if n < 8 { n } else { 8 };
    let mut i: usize = 0;
    while i < limit
        invariant
            i <= limit <= n,
            n == memory.domains@.len(),
            m == memory@,
            m.len() == n,
            Seq::new(lines@.len(), |k: int| lines@[k]@) == seq!["域名条目: "@ + decimal(n as nat)] + summary_lines(m.take(i as int)),
        decreases limit - i,
    {
        proof {
            assert(m.take(i as int + 1).drop_last() == m.take(i as int));
            assert(m.take(i as int + 1).last() == m[i as int]);
        }
        let ghost before = Seq::new(lines@.len(), |k: int| lines@[k]@);
        match max_target(&memory.domains[i].1) {
            Some((path, count)) => {
                let short = match file_name_of(path.as_str()) {
                    Some(name) => chars_of(name.as_str()),
                    None => chars_of("目标目录"),
                };
                let mut line = chars_of(memory.domains[i].0.as_str());
                append_chars(&mut line, chars_of(" -> ").as_slice());
                append_chars(&mut line, short.as_slice());
                append_chars(&mut line, chars_of(" (").as_slice());
                push_decimal(&mut line, count);
                append_chars(&mut line, chars_of(")").as_slice());
                assert(line@ == summary_line(m[i as int].0, (path@, count)));
                lines.push(line);
                assert(Seq::new(lines@.len(), |k: int| lines@[k]@) =~= before.push(summary_line(m[i as int].0, (path@, count))));
            },
            None => {},
        }
        i = i + 1;
    }
    if n > 8 {
        let ghost before = Seq::new(lines@.len(), |k: int| lines@[k]@);
        lines.push(chars_of("..."));
        assert(Seq::new(lines@.len(), |k: int| lines@[k]@) =~= before.push("..."@));
        assert(seq!["..."@] =~= Seq::<Seq<char>>::empty().push("..."@));
    } else {
        assert(Seq::new(lines@.len(), |k: int| lines@[k]@) =~= Seq::new(lines@.len(), |k: int| lines@[k]@) + Seq::<Seq<char>>::empty());
    }
    let sep = chars_of("\n");
    proof { reveal_strlit("\n"); }
    assert(sep@ == seq!['\n']);
    let ghost head_s = seq!["域名条目: "@ + decimal(n as nat)];
    let ghost body_s = summary_lines(m.take(if m.len() < 8 { m.len() as int } else { 8 }));
    let ghost tail_s = if m.len() > 8 { seq!["..."@] } else { Seq::<Seq<char>>::empty() };
    assert(Seq::new(lines@.len(), |k: int| lines@[k]@) =~= head_s + body_s + tail_s);
    let out = join_chars(&lines, sep.as_slice());
    string_of(out.as_slice())
}

} // verus!

verus! {

proof fn lemma_max_entry(ts: Seq<(Seq<char>, u64)>)
    ensures
        (max_entry(ts) is None) == (ts.len() == 0),
        max_entry(ts) matches Some(b) ==> ts.contains(b),
        max_entry(ts) matches Some(b) ==> forall|i: int| 0 <= i < ts.len() ==> (#[trigger] ts[i]).1 <= b.1,
    decreases ts.len(),
{
    if ts.len() > 0 {
        let rest = ts.drop_last();
        lemma_max_entry(rest);
        assert(ts[ts.len() - 1] == ts.last());
        match max_entry(rest) {
            Some(b) => {
                let k = choose|k: int| 0 <= k < rest.len() && rest[k] == b;
                assert(ts[k] == b);
                assert forall|i: int| 0 <= i < ts.len() implies (#[trigger] ts[i]).1 <= max_entry(ts).unwrap().1 by {
                    if i < ts.len() - 1 {
                        assert(ts[i] == rest[i]);
                    }
                }
            },
            None => {},
        }
    }
}

proof fn lemma_away_from(ts: Seq<(Seq<char>, u64)>, downloads_dir: Seq<char>)
    ensures
        forall|x: (Seq<char>, u64)| away_from(ts, downloads_dir).contains(x) <==>
            (ts.contains(x) && !same_path_spec(x.0, downloads_dir)),
    decreases ts.len(),
{
    if ts.len() > 0 {
        let rest = ts.drop_last();
        lemma_away_from(rest, downloads_dir);
        assert forall|x: (Seq<char>, u64)| away_from(ts, downloads_dir).contains(x) <==>
            (ts.contains(x) && !same_path_spec(x.0, downloads_dir)) by {
            if ts.contains(x) {
                let k = choose|k: int| 0 <= k < ts.len() && ts[k] == x;
                if k < ts.len() - 1 {
                    assert(rest[k] == x);
                }
            }
            if rest.contains(x) {
                let k = choose|k: int| 0 <= k < rest.len() && rest[k] == x;
                assert(ts[k] == x);
            }
            let a = away_from(rest, downloads_dir);
            if !same_path_spec(ts.last().0, downloads_dir) {
                if a.push(ts.last()).contains(x) {
                    let k = choose|k: int| 0 <= k < a.len() + 1 && a.push(ts.last())[k] == x;
                    if k < a.len() {
                        assert(a[k] == x);
                    }
                }
                if a.contains(x) {
                    let k = choose|k: int| 0 <= k < a.len() && a[k] == x;
                    assert(a.push(ts.last())[k] == x);
                }
                assert(a.push(ts.last())[a.len() as int] == ts.last());
            }
        }
    }
}

/// The suggested destination is the most chosen destination of the domain
/// that is not the downloads folder: it was recorded for the domain, it is
/// not the downloads folder, and no other such destination was chosen more
/// often. There is no suggestion exactly when every recorded destination of
/// the domain is the downloads folder.
pub proof fn lemma_top_destination_is_most_chosen(
    m: Seq<(Seq<char>, Seq<(Seq<char>, u64)>)>,
    domain: Seq<char>,
    downloads_dir: Seq<char>,
)
    ensures
        top_destination_spec(m, domain, downloads_dir) matches Some(best) ==> {
            &&& targets_of(m, domain).contains(best)
            &&& !same_path_spec(best.0, downloads_dir)
            &&& forall|i: int| 0 <= i < targets_of(m, domain).len()
                && !same_path_spec((#[trigger] targets_of(m, domain)[i]).0, downloads_dir)
                ==> targets_of(m, domain)[i].1 <= best.1
        },
        top_destination_spec(m, domain, downloads_dir) is None <==>
            forall|i: int| 0 <= i < targets_of(m, domain).len()
                ==> same_path_spec((#[trigger] targets_of(m, domain)[i]).0, downloads_dir),
{
    let ts = targets_of(m, domain);
    let a = away_from(ts, downloads_dir);
    lemma_away_from(ts, downloads_dir);
    lemma_max_entry(a);
    match max_entry(a) {
        Some(best) => {
            assert forall|i: int| 0 <= i < ts.len() && !same_path_spec((#[trigger] ts[i]).0, downloads_dir)
                implies ts[i].1 <= best.1 by {
                assert(ts.contains(ts[i]));
                assert(a.contains(ts[i]));
                let k = choose|k: int| 0 <= k < a.len() && a[k] == ts[i];
                assert(a[k].1 <= best.1);
            }
            assert(a.contains(best));
            assert(ts.contains(best) && !same_path_spec(best.0, downloads_dir));
        },
        None => {
            assert forall|i: int| 0 <= i < ts.len() implies same_path_spec((#[trigger] ts[i]).0, downloads_dir) by {
                assert(ts.contains(ts[i]));
                if !same_path_spec(ts[i].0, downloads_dir) {
                    assert(a.contains(ts[i]));
                }
            }
        },
    }
    if forall|i: int| 0 <= i < ts.len() ==> same_path_spec((#[trigger] ts[i]).0, downloads_dir) {
        if a.len() > 0 {
            let x = a[0];
            assert(a.contains(x));
            assert(ts.contains(x) && !same_path_spec(x.0, downloads_dir));
            let k = choose|k: int| 0 <= k < ts.len() && ts[k] == x;
            assert(same_path_spec(ts[k].0, downloads_dir));
        }
    }
}

} // verus!

verus! {

/// A summary line names the destination by its `Path` file name: a folder
/// written with or without a trailing slash gives the same line, and the
/// placeholder `目标目录` stands only for a path that has no file name.
pub proof fn lemma_summary_line_names_folder(domain: Seq<char>, target: Seq<char>, count: u64)
    ensures
        target.len() > 0 ==> summary_line(domain, (target.push('/'), count)) == summary_line(domain, (target, count)),
        path_file_name(target) matches Some(name) ==>
            summary_line(domain, (target, count)) == domain + " -> "@ + name + " ("@ + decimal(count as nat) + ")"@,
        path_file_name(target) is None ==>
            summary_line(domain, (target, count)) == domain + " -> "@ + "目标目录"@ + " ("@ + decimal(count as nat) + ")"@,
{
    if target.len() > 0 {
        lemma_trailing_slash_components(target);
    }
}

} // verus!
