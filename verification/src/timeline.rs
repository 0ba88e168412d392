//! Building one request's timeline: merge the classified events from every
//! source, drop activity that predates the request, and stable-sort the rest
//! ascending by time.

use vstd::prelude::*;
use crate::events::{Actor, Event};

verus! {

broadcast use vstd::seq_lib::group_to_multiset_ensures;

/// Ascending by `when`; equal times are allowed in any relative order.
pub open spec fn sorted_by_when(s: Seq<Event>) -> bool {
    forall|i: int, j: int| 0 <= i < j < s.len() ==> s[i].when <= s[j].when
}

/// Insert `e` after every element whose time is at most `e.when`, keeping all
/// other elements in place. On a sorted sequence this is the insertion step of
/// a stable insertion sort.
pub open spec fn insert_by_when(s: Seq<Event>, e: Event) -> Seq<Event>
    decreases s.len(),
{
    if s.len() > 0 && s.last().when > e.when {
        insert_by_when(s.drop_last(), e).push(s.last())
    } else {
        s.push(e)
    }
}

/// Stable ascending sort by `when`: elements with equal times keep their
/// original relative order.
pub open spec fn sort_by_when(s: Seq<Event>) -> Seq<Event>
    decreases s.len(),
{
    if s.len() == 0 {
        s
    } else {
        insert_by_when(sort_by_when(s.drop_last()), s.last())
    }
}

pub proof fn lemma_insert_by_when_props(s: Seq<Event>, e: Event)
    requires
        sorted_by_when(s),
    ensures
        insert_by_when(s, e).len() == s.len() + 1,
        insert_by_when(s, e).to_multiset() == s.to_multiset().insert(e),
        sorted_by_when(insert_by_when(s, e)),
    decreases s.len(),
{
    let r = insert_by_when(s, e);
    if s.len() > 0 && s.last().when > e.when {
        let s0 = s.drop_last();
        assert(sorted_by_when(s0));
        lemma_insert_by_when_props(s0, e);
        let r0 = insert_by_when(s0, e);
        assert(r == r0.push(s.last()));
        assert(s =~= s0.push(s.last()));
        assert(s.to_multiset() =~= s0.to_multiset().insert(s.last()));
        assert(r.to_multiset() =~= r0.to_multiset().insert(s.last()));
        assert(r.to_multiset() =~= s.to_multiset().insert(e));
        assert forall|i: int| 0 <= i < r0.len() implies r0[i].when <= s.last().when by {
            assert(r0.to_multiset().count(r0[i]) > 0);
            assert(s0.to_multiset().insert(e).count(r0[i]) > 0);
            if s0.to_multiset().count(r0[i]) > 0 {
                assert(s0.contains(r0[i]));
                let j = choose|j: int| 0 <= j < s0.len() && s0[j] == r0[i];
                assert(s[j].when <= s.last().when);
            } else {
                assert(r0[i] == e);
            }
        }
        assert(sorted_by_when(r)) by {
            assert forall|i: int, j: int| 0 <= i < j < r.len() implies r[i].when <= r[j].when by {
                if j < r.len() - 1 {
                    assert(r0[i].when <= r0[j].when);
                }
            }
        }
    } else {
        assert(r == s.push(e));
        assert(r.to_multiset() =~= s.to_multiset().insert(e));
        assert(sorted_by_when(r)) by {
            assert forall|i: int, j: int| 0 <= i < j < r.len() implies r[i].when <= r[j].when by {
                if j == r.len() - 1 && s.len() > 0 {
                    assert(s.last().when <= e.when);
                    assert(r[i].when <= s.last().when || i == s.len() - 1);
                }
            }
        }
    }
}

pub proof fn lemma_sort_by_when_props(s: Seq<Event>)
    ensures
        sort_by_when(s).len() == s.len(),
        sort_by_when(s).to_multiset() == s.to_multiset(),
        sorted_by_when(sort_by_when(s)),
    decreases s.len(),
{
    if s.len() == 0 {
    } else {
        let s0 = s.drop_last();
        lemma_sort_by_when_props(s0);
        lemma_insert_by_when_props(sort_by_when(s0), s.last());
        assert(s =~= s0.push(s.last()));
        assert(s.to_multiset() =~= s0.to_multiset().insert(s.last()));
        assert(sort_by_when(s).to_multiset() =~= s.to_multiset());
    }
}

/// An element occurs in a sorted copy exactly when it occurs in the source.
pub proof fn lemma_sort_by_when_contains(s: Seq<Event>, e: Event)
    ensures
        sort_by_when(s).contains(e) <==> s.contains(e),
{
    lemma_sort_by_when_props(s);
    assert(sort_by_when(s).to_multiset().count(e) > 0 <==> sort_by_when(s).contains(e));
    assert(s.to_multiset().count(e) > 0 <==> s.contains(e));
}

/// Insert an event into an already sorted vector, after every element whose
/// time is at most its own.
fn insert_event(v: &mut Vec<Event>, e: Event)
    requires
        sorted_by_when(old(v)@),
    ensures
        final(v)@ == insert_by_when(old(v)@, e),
{
    let ghost s = v@;
    let mut p: usize = v.len();
    while p > 0 && v[p - 1].when > e.when
        invariant
            0 <= p <= v@.len(),
            v@ == s,
            forall|t: int| p <= t < s.len() ==> s[t].when > e.when,
        decreases p,
    {
        p = p - 1;
    }
    proof {
        lemma_insert_by_when_at(s, e, p as int);
    }
    v.insert(p, e);
}

proof fn lemma_insert_by_when_at(s: Seq<Event>, e: Event, p: int)
    requires
        0 <= p <= s.len(),
        forall|t: int| p <= t < s.len() ==> s[t].when > e.when,
        p > 0 ==> s[p - 1].when <= e.when,
    ensures
        insert_by_when(s, e) == s.insert(p, e),
    decreases s.len(),
{
    if p == s.len() {
        if s.len() == 0 {
            assert(insert_by_when(s, e) =~= s.insert(p, e));
        } else {
            assert(s.last().when <= e.when);
            assert(insert_by_when(s, e) =~= s.insert(p, e));
        }
    } else {
        assert(s.last().when > e.when);
        let s0 = s.drop_last();
        lemma_insert_by_when_at(s0, e, p);
        assert(insert_by_when(s, e) == insert_by_when(s0, e).push(s.last()));
        assert(insert_by_when(s0, e).push(s.last()) =~= s.insert(p, e));
    }
}

/// Stable insertion sort ascending by `when`.
pub fn sort_events(v: Vec<Event>) -> (r: Vec<Event>)
    ensures
        r@ == sort_by_when(v@),
        sorted_by_when(r@),
{
    let mut r: Vec<Event> = Vec::new();
    let mut i: usize = 0;
    while i < v.len()
        invariant
            0 <= i <= v@.len(),
            r@ == sort_by_when(v@.subrange(0, i as int)),
            sorted_by_when(r@),
        decreases v@.len() - i,
    {
        proof {
            let pre = v@.subrange(0, i as int);
            let post = v@.subrange(0, i + 1);
            assert(post.drop_last() =~= pre);
            assert(post.last() == v@[i as int]);
            lemma_insert_by_when_props(sort_by_when(pre), v@[i as int]);
        }
        insert_event(&mut r, v[i]);
        i = i + 1;
    }
    proof {
        assert(v@.subrange(0, v@.len() as int) =~= v@);
    }
    r
}

/// The events kept by a timeline built for a request created at `c`.
pub open spec fn keeps_from(c: i64) -> spec_fn(Event) -> bool {
    |e: Event| e.when >= c
}

/// Drop every event that predates the request's creation.
fn retain_at_or_after(v: Vec<Event>, c: i64) -> (r: Vec<Event>)
    ensures
        r@ == v@.filter(keeps_from(c)),
{
    broadcast use Seq::lemma_filter_push;

    let mut r: Vec<Event> = Vec::new();
    let mut i: usize = 0;
    proof {
        reveal(Seq::filter);
        assert(v@.subrange(0, 0).filter(keeps_from(c)) =~= Seq::<Event>::empty());
    }
    while i < v.len()
        invariant
            0 <= i <= v@.len(),
            r@ == v@.subrange(0, i as int).filter(keeps_from(c)),
        decreases v@.len() - i,
    {
        proof {
            let pre = v@.subrange(0, i as int);
            assert(v@.subrange(0, i + 1) =~= pre.push(v@[i as int]));
            pre.lemma_filter_push(v@[i as int], keeps_from(c));
        }
        if v[i].when >= c {
            r.push(v[i]);
            proof {
                assert(keeps_from(c)(v@[i as int]));
            }
        } else {
            proof {
                assert(!keeps_from(c)(v@[i as int]));
            }
        }
        i = i + 1;
    }
    proof {
        assert(v@.subrange(0, v@.len() as int) =~= v@);
    }
    r
}

/// The synthetic event that seeds every timeline: the author opened the
/// request at its creation time.
pub open spec fn creation_event(created_at: i64) -> Event {
    Event { actor: Actor::Author, when: created_at }
}

pub open spec fn opt_event_seq(e: Option<Event>) -> Seq<Event> {
    match e {
        Option::Some(ev) => seq![ev],
        Option::None => Seq::<Event>::empty(),
    }
}

/// Every raw event of one request, in source-encounter order: the synthetic
/// creation event, then the latest qualifying editor review (if any), then
/// issue comments, review comments, and commits.
pub open spec fn raw_events(
    created_at: i64,
    review: Option<Event>,
    comments: Seq<Event>,
    pr_comments: Seq<Event>,
    commits: Seq<Event>,
) -> Seq<Event> {
    seq![creation_event(created_at)] + opt_event_seq(review) + comments + pr_comments + commits
}

/// The built timeline: raw events with pre-creation activity dropped, then
/// stable-sorted ascending by time.
pub open spec fn build_spec(
    created_at: i64,
    review: Option<Event>,
    comments: Seq<Event>,
    pr_comments: Seq<Event>,
    commits: Seq<Event>,
) -> Seq<Event> {
    sort_by_when(
        raw_events(created_at, review, comments, pr_comments, commits).filter(
            keeps_from(created_at),
        ),
    )
}

/// Build the timeline of one request. The result is a function of the inputs
/// alone, so building twice from the same inputs yields the same timeline; it
/// is sorted ascending by time, never empty (the creation event survives its
/// own cutoff), starts at the creation time, and holds no event from before
/// the request existed.
pub fn build(
    created_at: i64,
    review: Option<Event>,
    comments: Vec<Event>,
    pr_comments: Vec<Event>,
    commits: Vec<Event>,
) -> (r: Vec<Event>)
    ensures
        r@ == build_spec(created_at, review, comments@, pr_comments@, commits@),
        sorted_by_when(r@),
        r@.len() >= 1,
        r@[0].when == created_at,
        forall|i: int| 0 <= i < r@.len() ==> r@[i].when >= created_at,
{
    let ghost gc = comments@;
    let ghost gp = pr_comments@;
    let ghost gm = commits@;
    let mut all: Vec<Event> = Vec::new();
    all.push(Event { actor: Actor::Author, when: created_at });
    match review {
        Option::Some(e) => { all.push(e); }
        Option::None => {}
    }
    let mut comments = comments;
    let mut pr_comments = pr_comments;
    let mut commits = commits;
    all.append(&mut comments);
    all.append(&mut pr_comments);
    all.append(&mut commits);
    proof {
        assert(all@ =~= raw_events(created_at, review, gc, gp, gm));
    }
    let filtered = retain_at_or_after(all, created_at);
    let r = sort_events(filtered);
    proof {
        lemma_build_shape(created_at, review, gc, gp, gm);
    }
    r
}

/// Shape of a built timeline: sorted, nonempty, it opens at the creation
/// time, and no element predates creation.
pub proof fn lemma_build_shape(
    created_at: i64,
    review: Option<Event>,
    comments: Seq<Event>,
    pr_comments: Seq<Event>,
    commits: Seq<Event>,
)
    ensures
        sorted_by_when(build_spec(created_at, review, comments, pr_comments, commits)),
        build_spec(created_at, review, comments, pr_comments, commits).len() >= 1,
        build_spec(created_at, review, comments, pr_comments, commits)[0].when == created_at,
        forall|i: int|
            0 <= i < build_spec(created_at, review, comments, pr_comments, commits).len()
                ==> build_spec(created_at, review, comments, pr_comments, commits)[i].when
                >= created_at,
{
    let raw = raw_events(created_at, review, comments, pr_comments, commits);
    let filtered = raw.filter(keeps_from(created_at));
    let t = build_spec(created_at, review, comments, pr_comments, commits);
    lemma_sort_by_when_props(filtered);
    assert forall|i: int| 0 <= i < t.len() implies t[i].when >= created_at by {
        assert(t.to_multiset().count(t[i]) > 0);
        assert(filtered.contains(t[i]));
        let j = choose|j: int| 0 <= j < filtered.len() && filtered[j] == t[i];
        raw.lemma_filter_pred(keeps_from(created_at), j);
    }
    assert(raw[0] == creation_event(created_at));
    assert(keeps_from(created_at)(raw[0]));
    raw.lemma_filter_contains(keeps_from(created_at), 0);
    assert(filtered.contains(creation_event(created_at)));
    lemma_sort_by_when_contains(filtered, creation_event(created_at));
    let m = choose|m: int| 0 <= m < t.len() && t[m] == creation_event(created_at);
    assert(t[m].when == created_at);
    if m > 0 {
        assert(t[0].when <= t[m].when);
    }
}

/// Building a timeline is idempotent: two builds from the same inputs yield
/// the same (sorted) timeline.
pub proof fn lemma_build_deterministic(
    created_at: i64,
    review: Option<Event>,
    comments: Seq<Event>,
    pr_comments: Seq<Event>,
    commits: Seq<Event>,
    t1: Seq<Event>,
    t2: Seq<Event>,
)
    requires
        t1 == build_spec(created_at, review, comments, pr_comments, commits),
        t2 == build_spec(created_at, review, comments, pr_comments, commits),
    ensures
        t1 == t2,
        sorted_by_when(t1),
{
    lemma_build_shape(created_at, review, comments, pr_comments, commits);
}

/// No event from before the request's creation survives into its built
/// timeline.
pub proof fn lemma_build_excludes_pre_creation(
    created_at: i64,
    review: Option<Event>,
    comments: Seq<Event>,
    pr_comments: Seq<Event>,
    commits: Seq<Event>,
)
    ensures
        forall|i: int|
            0 <= i < build_spec(created_at, review, comments, pr_comments, commits).len()
                ==> build_spec(created_at, review, comments, pr_comments, commits)[i].when
                >= created_at,
{
    lemma_build_shape(created_at, review, comments, pr_comments, commits);
}

} // verus!
