//! The ball state machine: given one request's built timeline, decide whether
//! the editors owe the next action and since when.

use vstd::prelude::*;
use crate::events::{Actor, BallState, Event};
use crate::timeline::{build, build_spec, sorted_by_when};

verus! {

/// Index of the last Editor event strictly before position `i`, if any.
pub open spec fn last_editor_before(t: Seq<Event>, i: int) -> Option<int>
    decreases i,
{
    if i <= 0 {
        Option::None
    } else if t[i - 1].actor is Editor {
        Option::Some(i - 1)
    } else {
        last_editor_before(t, i - 1)
    }
}

/// Index of the first Author event at or after position `i` whose time is
/// strictly after `w`, if any.
pub open spec fn first_author_after(t: Seq<Event>, w: i64, i: int) -> Option<int>
    decreases t.len() - i,
{
    if i < 0 || i >= t.len() {
        Option::None
    } else if t[i].actor is Author && t[i].when > w {
        Option::Some(i)
    } else {
        first_author_after(t, w, i + 1)
    }
}

/// The state machine. Find the last Editor event; if none exists the editors
/// have owed a response since the first event. Otherwise find the first
/// Author event strictly after the last editor word: if one exists the ball
/// returned to the editors at that moment, else the request waits on its
/// author.
pub open spec fn ball_state_spec(t: Seq<Event>) -> BallState {
    match last_editor_before(t, t.len() as int) {
        Option::None => if t.len() == 0 {
            BallState::NoActionNeeded
        } else {
            BallState::AwaitingEditor(t[0].when)
        },
        Option::Some(j) => match first_author_after(t, t[j].when, 0) {
            Option::Some(k) => BallState::AwaitingEditor(t[k].when),
            Option::None => BallState::NoActionNeeded,
        },
    }
}

proof fn lemma_last_editor_none(t: Seq<Event>, i: int)
    requires
        i <= t.len(),
        forall|k: int| 0 <= k < i ==> !(t[k].actor is Editor),
    ensures
        last_editor_before(t, i) is None,
    decreases i,
{
    if i > 0 {
        lemma_last_editor_none(t, i - 1);
    }
}

proof fn lemma_last_editor_found(t: Seq<Event>, i: int, j: int)
    requires
        0 <= j < i <= t.len(),
        t[j].actor is Editor,
        forall|k: int| j < k < i ==> !(t[k].actor is Editor),
    ensures
        last_editor_before(t, i) == Option::Some(j),
    decreases i,
{
    if i - 1 > j {
        lemma_last_editor_found(t, i - 1, j);
    }
}

proof fn lemma_first_author_none(t: Seq<Event>, w: i64, i: int)
    requires
        0 <= i,
        forall|k: int| i <= k < t.len() ==> !(t[k].actor is Author && t[k].when > w),
    ensures
        first_author_after(t, w, i) is None,
    decreases t.len() - i,
{
    if i < t.len() {
        lemma_first_author_none(t, w, i + 1);
    }
}

proof fn lemma_first_author_found(t: Seq<Event>, w: i64, i: int, k: int)
    requires
        0 <= i <= k < t.len(),
        t[k].actor is Author && t[k].when > w,
        forall|m: int| i <= m < k ==> !(t[m].actor is Author && t[m].when > w),
    ensures
        first_author_after(t, w, i) == Option::Some(k),
    decreases t.len() - i,
{
    if i < k {
        lemma_first_author_found(t, w, i + 1, k);
    }
}

/// Run the state machine on a built timeline.
pub fn ball_state(timeline: &Vec<Event>) -> (r: BallState)
    ensures
        r == ball_state_spec(timeline@),
{
    let ghost t = timeline@;
    let n = timeline.len();
    let mut i: usize = n;
    let mut last_editor: Option<usize> = None;
    while i > 0 && last_editor.is_none()
        invariant
            0 <= i <= n,
            n == t.len(),
            t == timeline@,
            match last_editor {
                Option::Some(j) => j < n && last_editor_before(t, n as int) == Option::Some(
                    j as int,
                ),
                Option::None => last_editor_before(t, n as int) == last_editor_before(t, i as int),
            },
        decreases i,
    {
        if timeline[i - 1].actor == Actor::Editor {
            last_editor = Some(i - 1);
        }
        i = i - 1;
    }
    let j = match last_editor {
        None => {
            if n == 0 {
                return BallState::NoActionNeeded;
            } else {
                return BallState::AwaitingEditor(timeline[0].when);
            }
        }
        Some(j) => j,
    };
    let w = timeline[j].when;
    let mut k: usize = 0;
    while k < n
        invariant
            0 <= k <= n,
            n == t.len(),
            t == timeline@,
            0 <= j < n,
            w == t[j as int].when,
            last_editor_before(t, n as int) == Option::Some(j as int),
            first_author_after(t, w, 0) == first_author_after(t, w, k as int),
        decreases n - k,
    {
        if timeline[k].actor == Actor::Author && timeline[k].when > w {
            return BallState::AwaitingEditor(timeline[k].when);
        }
        k = k + 1;
    }
    BallState::NoActionNeeded
}

/// Build one request's timeline and run the state machine on it, in one step.
pub fn evaluate_request(
    created_at: i64,
    review: Option<Event>,
    comments: Vec<Event>,
    pr_comments: Vec<Event>,
    commits: Vec<Event>,
) -> (r: BallState)
    ensures
        r == ball_state_spec(build_spec(created_at, review, comments@, pr_comments@, commits@)),
{
    let timeline = build(created_at, review, comments, pr_comments, commits);
    ball_state(&timeline)
}

/// A timeline the editors never touched leaves the ball with them, since its
/// first event.
pub proof fn lemma_no_editor_awaits_since_first(t: Seq<Event>)
    requires
        t.len() > 0,
        forall|i: int| 0 <= i < t.len() ==> !(t[i].actor is Editor),
    ensures
        ball_state_spec(t) == BallState::AwaitingEditor(t[0].when),
{
    lemma_last_editor_none(t, t.len() as int);
}

/// If the last Editor event has no Author event after it in time, the request
/// waits on its author: no editor action is needed.
pub proof fn lemma_author_quiet_after_editor(t: Seq<Event>, j: int)
    requires
        0 <= j < t.len(),
        t[j].actor is Editor,
        forall|i: int| j < i < t.len() ==> !(t[i].actor is Editor),
        forall|i: int|
            0 <= i < t.len() && t[i].actor is Author ==> t[i].when <= t[j].when,
    ensures
        ball_state_spec(t) == BallState::NoActionNeeded,
{
    lemma_last_editor_found(t, t.len() as int, j);
    lemma_first_author_none(t, t[j].when, 0);
}

/// If some Author event follows the last Editor event in time, the editors
/// have owed a response since the earliest such Author event (not the
/// latest).
pub proof fn lemma_author_acted_after_editor(t: Seq<Event>, j: int, k: int)
    requires
        sorted_by_when(t),
        0 <= j < t.len(),
        t[j].actor is Editor,
        forall|i: int| j < i < t.len() ==> !(t[i].actor is Editor),
        0 <= k < t.len(),
        t[k].actor is Author,
        t[k].when > t[j].when,
    ensures
        exists|m: int|
            {
                &&& 0 <= m < t.len()
                &&& t[m].actor is Author
                &&& t[m].when > t[j].when
                &&& ball_state_spec(t) == BallState::AwaitingEditor(t[m].when)
                &&& forall|i: int|
                    0 <= i < t.len() && t[i].actor is Author && t[i].when > t[j].when
                        ==> t[m].when <= t[i].when
            },
{
    lemma_last_editor_found(t, t.len() as int, j);
    let w = t[j].when;
    lemma_first_author_exists(t, w, 0, k);
    let m = first_author_after(t, w, 0)->0;
    lemma_first_author_props(t, w, 0, m);
    assert(ball_state_spec(t) == BallState::AwaitingEditor(t[m].when));
    assert forall|i: int|
        0 <= i < t.len() && t[i].actor is Author && t[i].when > w implies t[m].when
        <= t[i].when by {
        if m <= i {
            assert(t[m].when <= t[i].when);
        }
    }
    assert({
        &&& 0 <= m < t.len()
        &&& t[m].actor is Author
        &&& t[m].when > t[j].when
        &&& ball_state_spec(t) == BallState::AwaitingEditor(t[m].when)
        &&& forall|i: int|
            0 <= i < t.len() && t[i].actor is Author && t[i].when > t[j].when ==> t[m].when
                <= t[i].when
    });
}

proof fn lemma_first_author_exists(t: Seq<Event>, w: i64, i: int, k: int)
    requires
        0 <= i <= k < t.len(),
        t[k].actor is Author,
        t[k].when > w,
    ensures
        first_author_after(t, w, i) is Some,
    decreases t.len() - i,
{
    if i < k && !(t[i].actor is Author && t[i].when > w) {
        lemma_first_author_exists(t, w, i + 1, k);
    }
}

proof fn lemma_first_author_props(t: Seq<Event>, w: i64, i: int, m: int)
    requires
        0 <= i <= t.len(),
        first_author_after(t, w, i) == Option::Some(m),
    ensures
        i <= m < t.len(),
        t[m].actor is Author,
        t[m].when > w,
        forall|x: int| i <= x < m ==> !(t[x].actor is Author && t[x].when > w),
    decreases t.len() - i,
{
    if i < t.len() && !(t[i].actor is Author && t[i].when > w) {
        lemma_first_author_props(t, w, i + 1, m);
    }
}

} // verus!
