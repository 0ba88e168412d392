//! Assembling the run's worklist: one entry per request that awaits an
//! editor, stable-sorted ascending by how long the wait has lasted, plus the
//! small per-request helpers around it.

use vstd::prelude::*;

verus! {

broadcast use vstd::seq_lib::group_to_multiset_ensures;

/// One worklist line: since when the editors have owed a response, and the
/// request's link.
#[derive(Debug, PartialEq, Eq)]
pub struct WorklistEntry {
    pub since: i64,
    pub url: String,
}

impl Clone for WorklistEntry {
    fn clone(&self) -> (res: Self)
        ensures
            res == *self,
    {
        WorklistEntry { since: self.since, url: self.url.clone() }
    }
}

/// Ascending by `since`; equal times are allowed in any relative order.
pub open spec fn sorted_by_since(s: Seq<WorklistEntry>) -> bool {
    forall|i: int, j: int| 0 <= i < j < s.len() ==> s[i].since <= s[j].since
}

/// Insert `e` after every entry whose time is at most its own.
pub open spec fn insert_by_since(s: Seq<WorklistEntry>, e: WorklistEntry) -> Seq<WorklistEntry>
    decreases s.len(),
{
    if s.len() > 0 && s.last().since > e.since {
        insert_by_since(s.drop_last(), e).push(s.last())
    } else {
        s.push(e)
    }
}

/// Stable ascending sort by `since`: entries with equal times keep their
/// original relative order.
pub open spec fn sort_by_since(s: Seq<WorklistEntry>) -> Seq<WorklistEntry>
    decreases s.len(),
{
    if s.len() == 0 {
        s
    } else {
        insert_by_since(sort_by_since(s.drop_last()), s.last())
    }
}

pub proof fn lemma_insert_by_since_props(s: Seq<WorklistEntry>, e: WorklistEntry)
    requires
        sorted_by_since(s),
    ensures
        insert_by_since(s, e).len() == s.len() + 1,
        insert_by_since(s, e).to_multiset() == s.to_multiset().insert(e),
        sorted_by_since(insert_by_since(s, e)),
    decreases s.len(),
{
    let r = insert_by_since(s, e);
    if s.len() > 0 && s.last().since > e.since {
        let s0 = s.drop_last();
        assert(sorted_by_since(s0));
        lemma_insert_by_since_props(s0, e);
        let r0 = insert_by_since(s0, e);
        assert(r == r0.push(s.last()));
        assert(s =~= s0.push(s.last()));
        assert(s.to_multiset() =~= s0.to_multiset().insert(s.last()));
        assert(r.to_multiset() =~= r0.to_multiset().insert(s.last()));
        assert(r.to_multiset() =~= s.to_multiset().insert(e));
        assert forall|i: int| 0 <= i < r0.len() implies r0[i].since <= s.last().since by {
            assert(r0.to_multiset().count(r0[i]) > 0);
            assert(s0.to_multiset().insert(e).count(r0[i]) > 0);
            if s0.to_multiset().count(r0[i]) > 0 {
                assert(s0.contains(r0[i]));
                let j = choose|j: int| 0 <= j < s0.len() && s0[j] == r0[i];
                assert(s[j].since <= s.last().since);
            } else {
                assert(r0[i] == e);
            }
        }
        assert(sorted_by_since(r)) by {
            assert forall|i: int, j: int| 0 <= i < j < r.len() implies r[i].since
                <= r[j].since by {
                if j < r.len() - 1 {
                    assert(r0[i].since <= r0[j].since);
                }
            }
        }
    } else {
        assert(r == s.push(e));
        assert(r.to_multiset() =~= s.to_multiset().insert(e));
        assert(sorted_by_since(r)) by {
            assert forall|i: int, j: int| 0 <= i < j < r.len() implies r[i].since
                <= r[j].since by {
                if j == r.len() - 1 && s.len() > 0 {
                    assert(s.last().since <= e.since);
                    assert(r[i].since <= s.last().since || i == s.len() - 1);
                }
            }
        }
    }
}

pub proof fn lemma_sort_by_since_props(s: Seq<WorklistEntry>)
    ensures
        sort_by_since(s).len() == s.len(),
        sort_by_since(s).to_multiset() == s.to_multiset(),
        sorted_by_since(sort_by_since(s)),
    decreases s.len(),
{
    if s.len() > 0 {
        let s0 = s.drop_last();
        lemma_sort_by_since_props(s0);
        lemma_insert_by_since_props(sort_by_since(s0), s.last());
        assert(s =~= s0.push(s.last()));
        assert(s.to_multiset() =~= s0.to_multiset().insert(s.last()));
        assert(sort_by_since(s).to_multiset() =~= s.to_multiset());
    }
}

fn insert_entry(v: &mut Vec<WorklistEntry>, e: WorklistEntry)
    requires
        sorted_by_since(old(v)@),
    ensures
        final(v)@ == insert_by_since(old(v)@, e),
{
    let ghost s = v@;
    let ghost ge = e;
    let mut p: usize = v.len();
    while p > 0 && v[p - 1].since > e.since
        invariant
            0 <= p <= v@.len(),
            v@ == s,
            e == ge,
            forall|t: int| p <= t < s.len() ==> s[t].since > ge.since,
        decreases p,
    {
        p = p - 1;
    }
    proof {
        lemma_insert_by_since_at(s, ge, p as int);
    }
    v.insert(p, e);
}

proof fn lemma_insert_by_since_at(s: Seq<WorklistEntry>, e: WorklistEntry, p: int)
    requires
        0 <= p <= s.len(),
        forall|t: int| p <= t < s.len() ==> s[t].since > e.since,
        p > 0 ==> s[p - 1].since <= e.since,
    ensures
        insert_by_since(s, e) == s.insert(p, e),
    decreases s.len(),
{
    if p == s.len() {
        assert(insert_by_since(s, e) =~= s.insert(p, e));
    } else {
        assert(s.last().since > e.since);
        let s0 = s.drop_last();
        lemma_insert_by_since_at(s0, e, p);
        assert(insert_by_since(s, e) == insert_by_since(s0, e).push(s.last()));
        assert(insert_by_since(s0, e).push(s.last()) =~= s.insert(p, e));
    }
}

/// Stable-sort the collected worklist ascending by `since`: of two requests
/// whose waits began in January and February, the January one comes first.
pub fn assemble_worklist(entries: Vec<WorklistEntry>) -> (r: Vec<WorklistEntry>)
    ensures
        r@ == sort_by_since(entries@),
        sorted_by_since(r@),
{
    let mut r: Vec<WorklistEntry> = Vec::new();
    let mut i: usize = 0;
    while i < entries.len()
        invariant
            0 <= i <= entries@.len(),
            r@ == sort_by_since(entries@.subrange(0, i as int)),
            sorted_by_since(r@),
        decreases entries@.len() - i,
    {
        proof {
            let pre = entries@.subrange(0, i as int);
            let post = entries@.subrange(0, i + 1);
            assert(post.drop_last() =~= pre);
            assert(post.last() == entries@[i as int]);
            lemma_insert_by_since_props(sort_by_since(pre), entries@[i as int]);
        }
        insert_entry(&mut r, entries[i].clone());
        i = i + 1;
    }
    proof {
        assert(entries@.subrange(0, entries@.len() as int) =~= entries@);
    }
    r
}

/// A worklist entry for a request whose wait began at `since`: only a
/// request with a browser link gets one; a missing link is reported to the
/// caller as `None`, never silently invented.
pub fn make_entry(since: i64, html_url: Option<String>) -> (r: Option<WorklistEntry>)
    ensures
        r is Some <==> html_url is Some,
        r matches Some(w) ==> html_url matches Some(u) && w.since == since && w.url@ == u@,
{
    match html_url {
        Some(u) => Some(WorklistEntry { since, url: u }),
        None => None,
    }
}

/// The links of the assembled worklist, in worklist order.
pub fn worklist_urls(entries: &Vec<WorklistEntry>) -> (r: Vec<String>)
    ensures
        r@.len() == entries@.len(),
        forall|i: int| 0 <= i < entries@.len() ==> r@[i]@ == entries@[i].url@,
{
    let mut r: Vec<String> = Vec::new();
    let mut i: usize = 0;
    while i < entries.len()
        invariant
            0 <= i <= entries@.len(),
            r@.len() == i,
            forall|j: int| 0 <= j < i ==> r@[j]@ == entries@[j].url@,
        decreases entries@.len() - i,
    {
        r.push(entries[i].url.clone());
        i = i + 1;
    }
    r
}

/// The identifier a request is reported under: its browser link when it has
/// one, else its raw resource link.
pub fn pr_identifier(html_url: &Option<String>, url: &String) -> (r: String)
    ensures
        r@ == match *html_url {
            Option::Some(u) => u@,
            Option::None => url@,
        },
{
    match html_url {
        Some(u) => u.clone(),
        None => url.clone(),
    }
}

/// Whether a label list holds a label with the given text.
pub open spec fn has_label(ls: Seq<String>, name: Seq<char>) -> bool {
    exists|i: int| 0 <= i < ls.len() && ls[i]@ == name
}

/// A request labelled for author review but not for editor review is skipped
/// before any classification.
pub open spec fn skip_for_labels(ls: Seq<String>) -> bool {
    has_label(ls, "a-review"@) && !has_label(ls, "e-review"@)
}

fn contains_label(labels: &Vec<String>, name: &String) -> (r: bool)
    ensures
        r == has_label(labels@, name@),
{
    let mut i: usize = 0;
    while i < labels.len()
        invariant
            0 <= i <= labels@.len(),
            forall|j: int| 0 <= j < i ==> labels@[j]@ != name@,
        decreases labels@.len() - i,
    {
        if labels[i].eq(name) {
            assert(has_label(labels@, name@));
            return true;
        }
        i = i + 1;
    }
    false
}

/// Only open, non-draft requests are considered: a request explicitly
/// marked as a draft is excluded, one without the marker is not.
pub fn include_request(draft: Option<bool>) -> (r: bool)
    ensures
        r == (draft != Option::Some(true)),
{
    match draft {
        Some(true) => false,
        _ => true,
    }
}

/// Decide whether a request's labels exclude it from processing.
pub fn should_skip_labels(labels: &Vec<String>) -> (r: bool)
    ensures
        r == skip_for_labels(labels@),
{
    let a_review: String = "a-review".to_owned();
    let e_review: String = "e-review".to_owned();
    let has_a = contains_label(labels, &a_review);
    let has_e = contains_label(labels, &e_review);
    has_a && !has_e
}

} // verus!
