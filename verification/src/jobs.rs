//! The table of background jobs: each job has a number, given in increasing
//! order from 1, and the command line that started it.  Listing the jobs
//! reports the finished ones as done and forgets them.
//!
//! The jobs are kept in a `BTreeMap` keyed by their numbers; the model of
//! the table is its listing by increasing number.
use vstd::prelude::*;
use crate::text::{decimal, join, join_strings, push_char, push_decimal, views};
use std::collections::BTreeMap;
use vstd::std_specs::btree::increasing_seq;
use vstd::std_specs::cmp::OrdSpec;
use vstd::std_specs::iter::IteratorSpec;

verus! {

/// A job: its number and its command line.
pub type JobEntry = (usize, Seq<char>);

/// The marker of entry `k` of `n`: `+` for the most recent job, `-` for the
/// one before it, a space for the others.
pub open spec fn job_marker(k: int, n: int) -> char {
    if k == n - 1 {
        '+'
    } else if k == n - 2 {
        '-'
    } else {
        ' '
    }
}

/// Seventeen spaces, as `{:17}` pads a single space.
pub open spec fn job_padding() -> Seq<char> {
    Seq::new(17, |i: int| ' ')
}

/// The line reporting job `id`, or nothing for a running job when running
/// jobs are not shown.
pub open spec fn job_line(
    id: usize,
    marker: char,
    input: Seq<char>,
    done: bool,
    show_running: bool,
) -> Seq<char> {
    let head = seq!['['] + decimal(id as nat) + seq![']', marker, ' ', ' '];
    if done {
        head + "Done"@ + job_padding() + input + seq!['\n']
    } else if show_running {
        head + "Running"@ + job_padding() + input + " &\n"@
    } else {
        Seq::empty()
    }
}

/// The report on the first `k` of `jobs`.
pub open spec fn report_text(
    jobs: Seq<JobEntry>,
    finished: Seq<usize>,
    show_running: bool,
    k: int,
) -> Seq<char>
    decreases k,
{
    if k <= 0 {
        Seq::empty()
    } else {
        report_text(jobs, finished, show_running, k - 1) + job_line(
            jobs[k - 1].0,
            job_marker(k - 1, jobs.len() as int),
            jobs[k - 1].1,
            finished.contains(jobs[k - 1].0),
            show_running,
        )
    }
}

/// The first `k` of `jobs` that are not finished, in order.
pub open spec fn still_running(jobs: Seq<JobEntry>, finished: Seq<usize>, k: int) -> Seq<JobEntry>
    decreases k,
{
    if k <= 0 {
        Seq::empty()
    } else if finished.contains(jobs[k - 1].0) {
        still_running(jobs, finished, k - 1)
    } else {
        still_running(jobs, finished, k - 1).push(jobs[k - 1])
    }
}

/// Job numbers increase along the table and stay below the next number.
pub open spec fn jobs_wf(jobs: Seq<JobEntry>, next: usize) -> bool {
    &&& next >= 1
    &&& forall|i: int, j: int| 0 <= i < j < jobs.len() ==> (#[trigger] jobs[i]).0 < (#[trigger] jobs[j]).0
    &&& forall|i: int| 0 <= i < jobs.len() ==> (#[trigger] jobs[i]).0 < next
}

/// `s` lists the table `m` by increasing job number: every entry of `s` is
/// in `m`, and every job of `m` is in `s`.
pub open spec fn lists_table(s: Seq<JobEntry>, m: Map<usize, String>) -> bool {
    &&& forall|i: int, j: int| 0 <= i < j < s.len() ==> (#[trigger] s[i]).0 < (#[trigger] s[j]).0
    &&& forall|i: int|
        0 <= i < s.len() ==> #[trigger] m.contains_key(s[i].0) && m[s[i].0]@ == s[i].1
    &&& forall|k: usize|
        #[trigger] m.contains_key(k) ==> exists|i: int| 0 <= i < s.len() && (#[trigger] s[i]).0 == k
}

/// The listing of the table `m` by increasing job number.
pub open spec fn listing(m: Map<usize, String>) -> Seq<JobEntry> {
    choose|s: Seq<JobEntry>| lists_table(s, m)
}

/// The jobs of a vector of pairs, as numbers and command lines.
pub open spec fn entry_views(v: Seq<(usize, String)>) -> Seq<JobEntry> {
    v.map_values(|e: (usize, String)| (e.0, e.1@))
}

/// The background jobs of the shell, keyed by their numbers.
pub struct BackGroundJobs {
    jobs: BTreeMap<usize, String>,
    next_job_id: usize,
}

impl BackGroundJobs {
    /// The jobs, oldest first.
    pub closed spec fn entries(&self) -> Seq<JobEntry> {
        listing(self.jobs@)
    }

    /// The number the next job gets.
    pub closed spec fn next_id(&self) -> usize {
        self.next_job_id
    }

    /// The entries list the jobs that the table holds.
    pub closed spec fn listed(&self) -> bool {
        lists_table(self.entries(), self.jobs@)
    }

    pub open spec fn wf(&self) -> bool {
        &&& jobs_wf(self.entries(), self.next_id())
        &&& self.listed()
    }

    /// No jobs yet; the first one gets number 1.
    pub fn new() -> (r: Self)
        ensures
            r.wf(),
            r.entries() == Seq::<JobEntry>::empty(),
            r.next_id() == 1,
    {
        let r = BackGroundJobs { jobs: BTreeMap::new(), next_job_id: 1 };
        proof {
            lemma_listing(Seq::<JobEntry>::empty(), r.jobs@);
        }
        r
    }

    /// The number the next job gets.
    pub fn next_job_number(&self) -> (n: usize)
        ensures
            n == self.next_id(),
    {
        self.next_job_id
    }

    /// The jobs as pairs, oldest first.
    fn ordered_entries(&self) -> (v: Vec<(usize, String)>)
        ensures
            lists_table(entry_views(v@), self.jobs@),
            entry_views(v@) == self.entries(),
    {
        let mut v: Vec<(usize, String)> = Vec::new();
        let iter = self.jobs.iter();
        let ghost items = iter.remaining();
        let ghost keys = items.map_values(|kv: (&usize, &String)| *kv.0);
        assert(increasing_seq(keys));
        for p in it: iter
            invariant
                it.seq() == items,
                v@.len() == it.index(),
                entry_views(v@) == items.take(v@.len() as int).map_values(
                    |kv: (&usize, &String)| (*kv.0, kv.1@),
                ),
        {
            let ghost before = v@;
            v.push((*p.0, p.1.clone()));
            assert(entry_views(v@) =~= entry_views(before).push((*p.0, p.1@)));
            assert(items.take(v@.len() as int) =~= items.take(before.len() as int).push(p));
        }
        proof {
            let s = entry_views(v@);
            assert(v@.len() == items.len());
            assert(items.take(items.len() as int) =~= items);
            assert(s == items.map_values(|kv: (&usize, &String)| (*kv.0, kv.1@)));
            lemma_keys_increase(keys);
            assert forall|i: int, j: int| 0 <= i < j < s.len() implies (#[trigger] s[i]).0 < (
            #[trigger] s[j]).0 by {
                assert(keys[i] == s[i].0);
                assert(keys[j] == s[j].0);
            }
            assert forall|i: int| 0 <= i < s.len() implies #[trigger] self.jobs@.contains_key(
                s[i].0,
            ) && self.jobs@[s[i].0]@ == s[i].1 by {
                assert(self.jobs@.contains_key(*items[i].0));
            }
            assert forall|k: usize| #[trigger] self.jobs@.contains_key(k) implies exists|i: int|
                0 <= i < s.len() && (#[trigger] s[i]).0 == k by {
                let i = choose|i: int| 0 <= i < items.len() && items[i] == (&k, &self.jobs@[k]);
                assert(s[i].0 == k);
            }
            lemma_listing(s, self.jobs@);
        }
        v
    }

    /// The numbers of the jobs, oldest first.
    pub fn job_ids(&self) -> (ids: Vec<usize>)
        ensures
            ids@ == self.entries().map_values(|e: JobEntry| e.0),
    {
        let list = self.ordered_entries();
        let mut ids: Vec<usize> = Vec::new();
        let mut i: usize = 0;
        while i < list.len()
            invariant
                i <= list@.len(),
                entry_views(list@) == self.entries(),
                ids@ == self.entries().take(i as int).map_values(|e: JobEntry| e.0),
            decreases list@.len() - i,
        {
            ids.push(list[i].0);
            assert(self.entries().take(i + 1).map_values(|e: JobEntry| e.0) =~= self.entries().take(
                i as int,
            ).map_values(|e: JobEntry| e.0).push(list@[i as int].0));
            i = i + 1;
        }
        assert(self.entries().take(list@.len() as int) =~= self.entries());
        ids
    }

    /// Records a job started from the words `input`; it gets the next
    /// number, which is returned.
    pub fn append(&mut self, input: &Vec<String>) -> (id: usize)
        requires
            old(self).wf(),
            old(self).next_id() < usize::MAX,
        ensures
            final(self).wf(),
            id == old(self).next_id(),
            forall|i: int|
                0 <= i < old(self).entries().len() ==> (#[trigger] old(self).entries()[i]).0 < id,
            final(self).next_id() == old(self).next_id() + 1,
            final(self).entries() == old(self).entries().push((id, join(views(input@), " "@))),
    {
        let id = self.next_job_id;
        let line = join_strings(input, 0, " ");
        assert(input@.subrange(0, input@.len() as int) =~= input@);
        let ghost before = self.entries();
        let ghost table = self.jobs@;
        let ghost text = line@;
        self.jobs.insert(id, line);
        self.next_job_id = id + 1;
        proof {
            let s = before.push((id, text));
            let m = self.jobs@;
            assert(m == table.insert(id, line));
            assert forall|i: int| 0 <= i < s.len() implies #[trigger] m.contains_key(s[i].0)
                && m[s[i].0]@ == s[i].1 by {
                if i < before.len() {
                    assert(s[i] == before[i]);
                    assert(table.contains_key(before[i].0));
                }
            }
            assert forall|k: usize| #[trigger] m.contains_key(k) implies exists|i: int|
                0 <= i < s.len() && (#[trigger] s[i]).0 == k by {
                if k == id {
                    assert(s[before.len() as int].0 == k);
                } else {
                    assert(table.contains_key(k));
                    let i = choose|i: int| 0 <= i < before.len() && (#[trigger] before[i]).0 == k;
                    assert(s[i] == before[i]);
                }
            }
            assert forall|i: int, j: int| 0 <= i < j < s.len() implies (#[trigger] s[i]).0 < (
            #[trigger] s[j]).0 by {
                assert(s[i] == before[i]);
                if j < before.len() {
                    assert(s[j] == before[j]);
                }
            }
            assert(lists_table(s, m));
            lemma_listing(s, m);
        }
        id
    }

    /// The line announcing that job `id` started as process `pid`.
    pub fn started_line(id: usize, pid: u32) -> (res: String)
        ensures
            res@ == seq!['['] + decimal(id as nat) + seq![']', ' '] + decimal(pid as nat)
                + seq!['\n'],
    {
        let mut s = String::new();
        push_char(&mut s, '[');
        push_decimal(&mut s, id);
        push_char(&mut s, ']');
        push_char(&mut s, ' ');
        push_decimal(&mut s, pid as usize);
        push_char(&mut s, '\n');
        assert(s@ =~= seq!['['] + decimal(id as nat) + seq![']', ' '] + decimal(pid as nat) + seq![
            '\n',
        ]);
        s
    }

    /// Reports every job, oldest first, and forgets the finished ones: a job
    /// whose number is in `finished` is reported done, another one is
    /// reported running when `show_running` holds.
    fn report(&mut self, finished: &Vec<usize>, show_running: bool) -> (text: String)
        requires
            old(self).wf(),
        ensures
            final(self).wf(),
            text@ == report_text(
                old(self).entries(),
                finished@,
                show_running,
                old(self).entries().len() as int,
            ),
            final(self).entries() == still_running(
                old(self).entries(),
                finished@,
                old(self).entries().len() as int,
            ),
            final(self).next_id() == old(self).next_id(),
    {
        let ghost all = self.entries();
        let old_jobs = self.ordered_entries();
        let n = old_jobs.len();
        assert(old_jobs@.map_values(|e: (usize, String)| (e.0, e.1@)) == all);
        let mut kept: Vec<(usize, String)> = Vec::new();
        let mut text = String::new();
        let mut k: usize = 0;
        while k < n
            invariant
                n == old_jobs@.len(),
                all == old_jobs@.map_values(|e: (usize, String)| (e.0, e.1@)),
                jobs_wf(all, self.next_job_id),
                k <= n,
                text@ == report_text(all, finished@, show_running, k as int),
                kept@.map_values(|e: (usize, String)| (e.0, e.1@)) == still_running(
                    all,
                    finished@,
                    k as int,
                ),
                forall|a: int|
                    0 <= a < kept@.len() ==> exists|b: int|
                        0 <= b < k && #[trigger] kept@[a].0 == all[b].0,
            decreases n - k,
        {
            let id = old_jobs[k].0;
            let done = contains_id(finished, id);
            let marker = if k + 1 == n {
                '+'
            } else if k + 2 == n {
                '-'
            } else {
                ' '
            };
            let ghost before_text = text@;
            if done || show_running {
                push_char(&mut text, '[');
                push_decimal(&mut text, id);
                push_char(&mut text, ']');
                push_char(&mut text, marker);
                push_char(&mut text, ' ');
                push_char(&mut text, ' ');
                if done {
                    text.append("Done");
                } else {
                    text.append("Running");
                }
                let ghost head = text@;
                let mut p: usize = 0;
                assert(text@ =~= head + Seq::new(0, |i: int| ' '));
                while p < 17
                    invariant
                        p <= 17,
                        text@ == head + Seq::new(p as nat, |i: int| ' '),
                    decreases 17 - p,
                {
                    push_char(&mut text, ' ');
                    assert(text@ =~= head + Seq::new((p + 1) as nat, |i: int| ' '));
                    p = p + 1;
                }
                assert(Seq::new(17, |i: int| ' ') =~= job_padding());
                text.append(old_jobs[k].1.as_str());
                if done {
                    push_char(&mut text, '\n');
                } else {
                    text.append(" &\n");
                }
            }
            proof {
                let line = job_line(id, marker, all[k as int].1, done, show_running);
                assert(marker == job_marker(k as int, n as int));
                assert(text@ =~= before_text + line);
                assert(report_text(all, finished@, show_running, k + 1) == report_text(
                    all,
                    finished@,
                    show_running,
                    k as int,
                ) + line);
            }
            if !done {
                let ghost before_kept = kept@;
                let entry = (id, old_jobs[k].1.clone());
                kept.push(entry);
                assert(kept@.map_values(|e: (usize, String)| (e.0, e.1@)) =~= before_kept.map_values(
                    |e: (usize, String)| (e.0, e.1@),
                ).push(all[k as int]));
                assert forall|a: int| 0 <= a < kept@.len() implies exists|b: int|
                    0 <= b < k + 1 && #[trigger] kept@[a].0 == all[b].0 by {
                    if a < kept@.len() - 1 {
                        assert(kept@[a] == before_kept[a]);
                    } else {
                        assert(kept@[a].0 == all[k as int].0);
                    }
                }
            }
            k = k + 1;
        }
        proof {
            lemma_still_running_wf(all, finished@, self.next_job_id, n as int);
            let r = entry_views(kept@);
            assert(r == still_running(all, finished@, n as int));
            assert forall|i: int, j: int| 0 <= i < j < kept@.len() implies (#[trigger] kept@[i]).0 < (
            #[trigger] kept@[j]).0 by {
                assert(r[i].0 == kept@[i].0);
                assert(r[j].0 == kept@[j].0);
            }
        }
        self.jobs = table_of(&kept);
        proof {
            lemma_listing(entry_views(kept@), self.jobs@);
        }
        text
    }

    /// Reports every job, done or running, and forgets the finished ones.
    pub fn list(&mut self, finished: &Vec<usize>) -> (text: String)
        requires
            old(self).wf(),
        ensures
            final(self).wf(),
            text@ == report_text(
                old(self).entries(),
                finished@,
                true,
                old(self).entries().len() as int,
            ),
            final(self).entries() == still_running(
                old(self).entries(),
                finished@,
                old(self).entries().len() as int,
            ),
            final(self).next_id() == old(self).next_id(),
    {
        self.report(finished, true)
    }

    /// Reports the finished jobs only, and forgets them.
    pub fn check_jobs(&mut self, finished: &Vec<usize>) -> (text: String)
        requires
            old(self).wf(),
        ensures
            final(self).wf(),
            text@ == report_text(
                old(self).entries(),
                finished@,
                false,
                old(self).entries().len() as int,
            ),
            final(self).entries() == still_running(
                old(self).entries(),
                finished@,
                old(self).entries().len() as int,
            ),
            final(self).next_id() == old(self).next_id(),
    {
        self.report(finished, false)
    }
}

/// The table of the jobs `list`, given by increasing number.
fn table_of(list: &Vec<(usize, String)>) -> (m: BTreeMap<usize, String>)
    requires
        forall|i: int, j: int| 0 <= i < j < list@.len() ==> (#[trigger] list@[i]).0 < (#[trigger] list@[j]).0,
    ensures
        lists_table(entry_views(list@), m@),
{
    let mut m: BTreeMap<usize, String> = BTreeMap::new();
    let mut i: usize = 0;
    while i < list.len()
        invariant
            i <= list@.len(),
            forall|a: int, b: int| 0 <= a < b < list@.len() ==> (#[trigger] list@[a]).0 < (#[trigger] list@[b]).0,
            lists_table(entry_views(list@).take(i as int), m@),
        decreases list@.len() - i,
    {
        let ghost before = m@;
        let ghost prev = entry_views(list@).take(i as int);
        let k = list[i].0;
        let line = list[i].1.clone();
        m.insert(k, line);
        proof {
            let s = entry_views(list@).take(i + 1);
            assert(s =~= prev.push((k, list@[i as int].1@)));
            assert(m@ == before.insert(k, line));
            assert forall|a: int| 0 <= a < s.len() implies #[trigger] m@.contains_key(s[a].0)
                && m@[s[a].0]@ == s[a].1 by {
                if a < prev.len() {
                    assert(s[a] == prev[a]);
                    assert(before.contains_key(prev[a].0));
                    assert(list@[a].0 < list@[i as int].0);
                }
            }
            assert forall|key: usize| #[trigger] m@.contains_key(key) implies exists|a: int|
                0 <= a < s.len() && (#[trigger] s[a]).0 == key by {
                if key == k {
                    assert(s[i as int].0 == key);
                } else {
                    assert(before.contains_key(key));
                    let a = choose|a: int| 0 <= a < prev.len() && (#[trigger] prev[a]).0 == key;
                    assert(s[a] == prev[a]);
                }
            }
            assert forall|a: int, b: int| 0 <= a < b < s.len() implies (#[trigger] s[a]).0 < (
            #[trigger] s[b]).0 by {
                assert(s[a].0 == list@[a].0);
                assert(s[b].0 == list@[b].0);
            }
        }
        i = i + 1;
    }
    assert(entry_views(list@).take(list@.len() as int) =~= entry_views(list@));
    m
}

/// The keys that a table hands out in increasing order increase.
proof fn lemma_keys_increase(keys: Seq<usize>)
    requires
        increasing_seq(keys),
    ensures
        forall|i: int, j: int| 0 <= i < j < keys.len() ==> #[trigger] keys[i] < #[trigger] keys[j],
{
    assert forall|i: int, j: int| 0 <= i < j < keys.len() implies #[trigger] keys[i] < #[trigger] keys[j] by {
        assert(keys[i].cmp_spec(&keys[j]) is Less);
    }
}

/// Two listings of one table are the same.
proof fn lemma_listing_unique(s: Seq<JobEntry>, t: Seq<JobEntry>, m: Map<usize, String>)
    requires
        lists_table(s, m),
        lists_table(t, m),
    ensures
        s == t,
    decreases s.len(),
{
    if s.len() == 0 {
        if t.len() > 0 {
            assert(m.contains_key(t[0].0));
        }
        assert(s =~= t);
    } else {
        let k = s[0].0;
        assert(m.contains_key(k));
        let i = choose|i: int| 0 <= i < t.len() && (#[trigger] t[i]).0 == k;
        assert(m.contains_key(t[0].0));
        let j = choose|j: int| 0 <= j < s.len() && (#[trigger] s[j]).0 == t[0].0;
        if j > 0 {
            assert(s[0].0 < s[j].0);
        }
        if i > 0 {
            assert(t[0].0 < t[i].0);
        }
        assert(t[0].0 == k);
        assert(s[0].1 == t[0].1);
        lemma_drop_least(s, m);
        lemma_drop_least(t, m);
        lemma_listing_unique(s.drop_first(), t.drop_first(), m.remove(k));
        assert forall|a: int| 0 <= a < s.len() implies s[a] == t[a] by {
            if a > 0 {
                assert(s[a] == s.drop_first()[a - 1]);
                assert(t[a] == t.drop_first()[a - 1]);
            }
        }
        assert(s =~= t);
    }
}

/// Leaving out the first entry of a listing lists the rest of the table.
proof fn lemma_drop_least(s: Seq<JobEntry>, m: Map<usize, String>)
    requires
        lists_table(s, m),
        s.len() > 0,
    ensures
        lists_table(s.drop_first(), m.remove(s[0].0)),
{
    let k = s[0].0;
    let r = s.drop_first();
    let m2 = m.remove(k);
    assert forall|a: int| 0 <= a < r.len() implies #[trigger] m2.contains_key(r[a].0) && m2[r[a].0]@
        == r[a].1 by {
        assert(r[a] == s[a + 1]);
        assert(s[0].0 < s[a + 1].0);
        assert(m.contains_key(s[a + 1].0));
    }
    assert forall|key: usize| #[trigger] m2.contains_key(key) implies exists|a: int|
        0 <= a < r.len() && (#[trigger] r[a]).0 == key by {
        assert(m.contains_key(key));
        let a = choose|a: int| 0 <= a < s.len() && (#[trigger] s[a]).0 == key;
        assert(a != 0);
        assert(r[a - 1] == s[a]);
    }
    assert forall|a: int, b: int| 0 <= a < b < r.len() implies (#[trigger] r[a]).0 < (
    #[trigger] r[b]).0 by {
        assert(r[a] == s[a + 1]);
        assert(r[b] == s[b + 1]);
    }
}

/// A sequence that lists a table is its listing.
proof fn lemma_listing(s: Seq<JobEntry>, m: Map<usize, String>)
    requires
        lists_table(s, m),
    ensures
        listing(m) == s,
{
    lemma_listing_unique(listing(m), s, m);
}

/// Whether `id` is in `ids`.
fn contains_id(ids: &Vec<usize>, id: usize) -> (res: bool)
    ensures
        res == ids@.contains(id),
{
    let mut i: usize = 0;
    while i < ids.len()
        invariant
            i <= ids@.len(),
            forall|k: int| 0 <= k < i ==> ids@[k] != id,
        decreases ids@.len() - i,
    {
        if ids[i] == id {
            return true;
        }
        i = i + 1;
    }
    false
}

proof fn lemma_still_running_sub(jobs: Seq<JobEntry>, finished: Seq<usize>, k: int)
    requires
        0 <= k <= jobs.len(),
    ensures
        still_running(jobs, finished, k).len() <= k,
        forall|a: int|
            0 <= a < still_running(jobs, finished, k).len() ==> exists|b: int|
                0 <= b < k && #[trigger] still_running(jobs, finished, k)[a] == jobs[b]
                    && !finished.contains(jobs[b].0),
        forall|a: int, c: int|
            0 <= a < c < still_running(jobs, finished, k).len() ==> exists|b: int, d: int|
                0 <= b < d < k && #[trigger] still_running(jobs, finished, k)[a] == jobs[b]
                    && #[trigger] still_running(jobs, finished, k)[c] == jobs[d],
    decreases k,
{
    if k > 0 {
        lemma_still_running_sub(jobs, finished, k - 1);
        let prev = still_running(jobs, finished, k - 1);
        let cur = still_running(jobs, finished, k);
        if !finished.contains(jobs[k - 1].0) {
            assert(cur == prev.push(jobs[k - 1]));
            assert forall|a: int| 0 <= a < cur.len() implies exists|b: int|
                0 <= b < k && #[trigger] cur[a] == jobs[b] && !finished.contains(jobs[b].0) by {
                if a < prev.len() {
                    assert(cur[a] == prev[a]);
                } else {
                    assert(cur[a] == jobs[k - 1]);
                }
            }
            assert forall|a: int, c: int| 0 <= a < c < cur.len() implies exists|b: int, d: int|
                0 <= b < d < k && #[trigger] cur[a] == jobs[b] && #[trigger] cur[c] == jobs[d] by {
                if c < prev.len() {
                    assert(cur[a] == prev[a]);
                    assert(cur[c] == prev[c]);
                } else {
                    assert(cur[a] == prev[a]);
                    let b = choose|b: int|
                        0 <= b < k - 1 && #[trigger] prev[a] == jobs[b] && !finished.contains(
                            jobs[b].0,
                        );
                    assert(cur[c] == jobs[k - 1]);
                    assert(0 <= b < k - 1 < k && cur[a] == jobs[b] && cur[c] == jobs[k - 1]);
                }
            }
        }
    }
}

/// Forgetting finished jobs keeps the table well formed.
proof fn lemma_still_running_wf(jobs: Seq<JobEntry>, finished: Seq<usize>, next: usize, k: int)
    requires
        jobs_wf(jobs, next),
        k == jobs.len(),
    ensures
        jobs_wf(still_running(jobs, finished, k), next),
{
    lemma_still_running_sub(jobs, finished, k);
    let r = still_running(jobs, finished, k);
    assert forall|a: int, c: int| 0 <= a < c < r.len() implies (#[trigger] r[a]).0 < (
    #[trigger] r[c]).0 by {
        let (b, d) = choose|b: int, d: int| 0 <= b < d < k && #[trigger] r[a] == jobs[b] && #[trigger] r[c] == jobs[d];
        assert(jobs[b].0 < jobs[d].0);
    }
    assert forall|a: int| 0 <= a < r.len() implies (#[trigger] r[a]).0 < next by {
        let b = choose|b: int| 0 <= b < k && #[trigger] r[a] == jobs[b] && !finished.contains(jobs[b].0);
        assert(jobs[b].0 < next);
    }
}

/// A job is forgotten by a report exactly when it has finished.
pub proof fn lemma_report_keeps_running(jobs: Seq<JobEntry>, finished: Seq<usize>, e: JobEntry)
    requires
        jobs.contains(e),
    ensures
        still_running(jobs, finished, jobs.len() as int).contains(e) == !finished.contains(e.0),
{
    lemma_still_running_contains(jobs, finished, e, jobs.len() as int);
    assert(jobs.take(jobs.len() as int) =~= jobs);
}

proof fn lemma_still_running_contains(jobs: Seq<JobEntry>, finished: Seq<usize>, e: JobEntry, k: int)
    requires
        0 <= k <= jobs.len(),
    ensures
        still_running(jobs, finished, k).contains(e) == (jobs.take(k).contains(e)
            && !finished.contains(e.0)),
    decreases k,
{
    if k > 0 {
        lemma_still_running_contains(jobs, finished, e, k - 1);
        let prev = still_running(jobs, finished, k - 1);
        let cur = still_running(jobs, finished, k);
        let t1 = jobs.take(k - 1);
        let t2 = jobs.take(k);
        assert(t2 =~= t1.push(jobs[k - 1]));
        let in2 = t2.contains(e);
        let in1 = t1.contains(e);
        assert(in2 == (in1 || e == jobs[k - 1])) by {
            if in2 {
                let i = choose|i: int| 0 <= i < t2.len() && #[trigger] t2[i] == e;
                if i < k - 1 {
                    assert(t1[i] == e);
                }
            }
            if in1 {
                let i = choose|i: int| 0 <= i < t1.len() && #[trigger] t1[i] == e;
                assert(t2[i] == e);
            }
            if e == jobs[k - 1] {
                assert(t2[k - 1] == e);
            }
        }
        if finished.contains(jobs[k - 1].0) {
            assert(cur == prev);
        } else {
            assert(cur == prev.push(jobs[k - 1]));
            assert(cur.contains(e) == (prev.contains(e) || e == jobs[k - 1])) by {
                if cur.contains(e) {
                    let i = choose|i: int| 0 <= i < cur.len() && #[trigger] cur[i] == e;
                    if i < prev.len() {
                        assert(prev[i] == e);
                    }
                }
                if prev.contains(e) {
                    let i = choose|i: int| 0 <= i < prev.len() && #[trigger] prev[i] == e;
                    assert(cur[i] == e);
                }
                if e == jobs[k - 1] {
                    assert(cur[cur.len() - 1] == e);
                }
            }
        }
    } else {
        assert(jobs.take(0) =~= Seq::<JobEntry>::empty());
    }
}

/// Checking jobs when none has finished reports nothing; listing them
/// reports the earlier jobs first, then a line for the next job that starts
/// with its number in brackets.
pub proof fn lemma_report_lines(jobs: Seq<JobEntry>, finished: Seq<usize>, k: int)
    requires
        0 <= k <= jobs.len(),
    ensures
        (forall|i: int| 0 <= i < k ==> !finished.contains(#[trigger] jobs[i].0)) ==> report_text(
            jobs,
            finished,
            false,
            k,
        ) == Seq::<char>::empty(),
        k > 0 ==> ({
            let prev = report_text(jobs, finished, true, k - 1);
            let cur = report_text(jobs, finished, true, k);
            let head = seq!['['] + decimal(jobs[k - 1].0 as nat) + seq![']'];
            &&& cur.len() >= prev.len() + head.len()
            &&& cur.take(prev.len() as int) == prev
            &&& cur.subrange(prev.len() as int, (prev.len() + head.len()) as int) == head
        }),
    decreases k,
{
    if k > 0 {
        lemma_report_lines(jobs, finished, k - 1);
        let prev = report_text(jobs, finished, true, k - 1);
        let cur = report_text(jobs, finished, true, k);
        let head = seq!['['] + decimal(jobs[k - 1].0 as nat) + seq![']'];
        let line = job_line(
            jobs[k - 1].0,
            job_marker(k - 1, jobs.len() as int),
            jobs[k - 1].1,
            finished.contains(jobs[k - 1].0),
            true,
        );
        assert(cur == prev + line);
        assert(line.take(head.len() as int) =~= head);
        assert(cur.take(prev.len() as int) =~= prev);
        assert(cur.subrange(prev.len() as int, (prev.len() + head.len()) as int) =~= head);
    }
}

} // verus!
