//! Classifying raw activity records into timeline events, against the editor
//! and author role sets.

use vstd::prelude::*;
use crate::events::{Actor, Event};
use crate::roster::LoginSet;
use crate::text::{lower_of, lowercase};

verus! {

/// The state a review carried, reduced to what classification distinguishes.
#[derive(Clone, Copy, Debug, PartialEq, Eq, Structural)]
pub enum ReviewState {
    Approved,
    ChangesRequested,
    Commented,
    Dismissed,
    Pending,
    Other,
}

/// One raw review: who submitted it, in what state, and when. Any of the
/// three can be missing in the source data.
pub struct ReviewRecord {
    pub state: Option<ReviewState>,
    pub login: Option<String>,
    pub submitted_at: Option<i64>,
}

/// A review counts only when it asks something of the author ("changes
/// requested" or "commented"; an approval is not actionable), its author is
/// a known editor, and it has a submission time.
pub open spec fn review_qualifies(r: ReviewRecord, editors: Set<Seq<char>>) -> bool {
    &&& (r.state == Option::Some(ReviewState::ChangesRequested) || r.state == Option::Some(
        ReviewState::Commented,
    ))
    &&& (r.login matches Option::Some(l) && editors.contains(lower_of(l@)))
    &&& r.submitted_at is Some
}

/// Among all reviews of one request, only the single latest qualifying one
/// becomes an Event, with actor Editor; if none qualifies there is no review
/// event.
pub fn latest_editor_review(reviews: &Vec<ReviewRecord>, editors: &LoginSet) -> (r: Option<Event>)
    ensures
        r is Some <==> exists|i: int|
            0 <= i < reviews@.len() && review_qualifies(reviews@[i], editors@),
        r matches Some(e) ==> {
            &&& e.actor is Editor
            &&& exists|i: int|
                0 <= i < reviews@.len() && review_qualifies(reviews@[i], editors@)
                    && reviews@[i].submitted_at == Option::Some(e.when)
            &&& forall|i: int|
                0 <= i < reviews@.len() && review_qualifies(reviews@[i], editors@) ==> (
                reviews@[i].submitted_at matches Option::Some(w) && w <= e.when)
        },
{
    let mut best: Option<i64> = None;
    let mut i: usize = 0;
    while i < reviews.len()
        invariant
            0 <= i <= reviews@.len(),
            best is Some <==> exists|j: int|
                0 <= j < i && review_qualifies(reviews@[j], editors@),
            best matches Some(b) ==> {
                &&& exists|j: int|
                    0 <= j < i && review_qualifies(reviews@[j], editors@)
                        && reviews@[j].submitted_at == Option::Some(b)
                &&& forall|j: int|
                    0 <= j < i && review_qualifies(reviews@[j], editors@) ==> (
                    reviews@[j].submitted_at matches Option::Some(w) && w <= b)
            },
        decreases reviews@.len() - i,
    {
        let rec = &reviews[i];
        let state_ok = match rec.state {
            Some(ReviewState::ChangesRequested) => true,
            Some(ReviewState::Commented) => true,
            _ => false,
        };
        let editor_ok = match &rec.login {
            Some(l) => {
                let low = lowercase(l.as_str());
                editors.contains(&low)
            }
            None => false,
        };
        if state_ok && editor_ok {
            match rec.submitted_at {
                Some(w) => {
                    assert(review_qualifies(reviews@[i as int], editors@));
                    match best {
                        Some(b) => {
                            if w >= b {
                                best = Some(w);
                            }
                        }
                        None => {
                            best = Some(w);
                        }
                    }
                }
                None => {
                    assert(!review_qualifies(reviews@[i as int], editors@));
                }
            }
        } else {
            assert(!review_qualifies(reviews@[i as int], editors@));
        }
        i = i + 1;
    }
    match best {
        Some(w) => Some(Event { actor: Actor::Editor, when: w }),
        None => None,
    }
}

/// One raw comment (issue-level or review-level, the shapes coincide here):
/// its author's login, if resolvable, and its creation time.
pub struct CommentRecord {
    pub login: Option<String>,
    pub created_at: i64,
}

pub open spec fn login_view(l: Option<String>) -> Option<Seq<char>> {
    match l {
        Option::Some(s) => Option::Some(s@),
        Option::None => Option::None,
    }
}

/// How one comment classifies: an editor's comment becomes an Editor event,
/// a request author's an Author event; third-party commentary, or a comment
/// with no resolvable author, is invisible.
pub open spec fn comment_event_spec(
    login: Option<Seq<char>>,
    at: i64,
    editors: Set<Seq<char>>,
    authors: Set<Seq<char>>,
) -> Option<Event> {
    match login {
        Option::Some(l) => if editors.contains(lower_of(l)) {
            Option::Some(Event { actor: Actor::Editor, when: at })
        } else if authors.contains(lower_of(l)) {
            Option::Some(Event { actor: Actor::Author, when: at })
        } else {
            Option::None
        },
        Option::None => Option::None,
    }
}

/// Classify one comment against the two role sets.
pub fn classify_comment(
    login: &Option<String>,
    created_at: i64,
    editors: &LoginSet,
    authors: &LoginSet,
) -> (r: Option<Event>)
    ensures
        r == comment_event_spec(login_view(*login), created_at, editors@, authors@),
{
    match login {
        Some(l) => {
            let low = lowercase(l.as_str());
            if editors.contains(&low) {
                Some(Event { actor: Actor::Editor, when: created_at })
            } else if authors.contains(&low) {
                Some(Event { actor: Actor::Author, when: created_at })
            } else {
                None
            }
        }
        None => None,
    }
}

/// The events a sequence of comments contributes, in encounter order.
pub open spec fn comment_events_spec(
    cs: Seq<CommentRecord>,
    editors: Set<Seq<char>>,
    authors: Set<Seq<char>>,
) -> Seq<Event>
    decreases cs.len(),
{
    if cs.len() == 0 {
        Seq::<Event>::empty()
    } else {
        let head = comment_event_spec(login_view(cs[0].login), cs[0].created_at, editors, authors);
        match head {
            Option::Some(e) => seq![e] + comment_events_spec(cs.drop_first(), editors, authors),
            Option::None => comment_events_spec(cs.drop_first(), editors, authors),
        }
    }
}

proof fn lemma_comment_events_push(
    cs: Seq<CommentRecord>,
    x: CommentRecord,
    editors: Set<Seq<char>>,
    authors: Set<Seq<char>>,
)
    ensures
        comment_events_spec(cs.push(x), editors, authors) == match comment_event_spec(
            login_view(x.login),
            x.created_at,
            editors,
            authors,
        ) {
            Option::Some(e) => comment_events_spec(cs, editors, authors).push(e),
            Option::None => comment_events_spec(cs, editors, authors),
        },
    decreases cs.len(),
{
    let head = comment_event_spec(login_view(x.login), x.created_at, editors, authors);
    if cs.len() == 0 {
        assert(cs.push(x)[0] == x);
        assert(cs.push(x).drop_first() =~= Seq::<CommentRecord>::empty());
        assert(comment_events_spec(Seq::<CommentRecord>::empty(), editors, authors)
            == Seq::<Event>::empty());
        match head {
            Option::Some(e) => {
                assert(comment_events_spec(cs.push(x), editors, authors) == seq![e]
                    + Seq::<Event>::empty());
                assert(seq![e] + Seq::<Event>::empty() =~= Seq::<Event>::empty().push(e));
            }
            Option::None => {}
        }
    } else {
        let d = cs.drop_first();
        assert(cs.push(x).drop_first() =~= d.push(x));
        assert(cs.push(x)[0] == cs[0]);
        lemma_comment_events_push(d, x, editors, authors);
        let head0 = comment_event_spec(login_view(cs[0].login), cs[0].created_at, editors, authors);
        match head0 {
            Option::Some(e0) => {
                match head {
                    Option::Some(e) => {
                        assert(seq![e0] + comment_events_spec(d, editors, authors).push(e) =~= (
                        seq![e0] + comment_events_spec(d, editors, authors)).push(e));
                    }
                    Option::None => {}
                }
            }
            Option::None => {}
        }
    }
}

/// Classify a whole comment feed, keeping encounter order.
pub fn classify_comments(
    comments: &Vec<CommentRecord>,
    editors: &LoginSet,
    authors: &LoginSet,
) -> (r: Vec<Event>)
    ensures
        r@ == comment_events_spec(comments@, editors@, authors@),
{
    let mut r: Vec<Event> = Vec::new();
    let mut i: usize = 0;
    proof {
        assert(comments@.subrange(0, 0) =~= Seq::<CommentRecord>::empty());
    }
    while i < comments.len()
        invariant
            0 <= i <= comments@.len(),
            r@ == comment_events_spec(comments@.subrange(0, i as int), editors@, authors@),
        decreases comments@.len() - i,
    {
        proof {
            assert(comments@.subrange(0, i + 1) =~= comments@.subrange(0, i as int).push(
                comments@[i as int],
            ));
            lemma_comment_events_push(
                comments@.subrange(0, i as int),
                comments@[i as int],
                editors@,
                authors@,
            );
        }
        let c = &comments[i];
        match classify_comment(&c.login, c.created_at, editors, authors) {
            Some(e) => {
                r.push(e);
            }
            None => {}
        }
        i = i + 1;
    }
    proof {
        assert(comments@.subrange(0, comments@.len() as int) =~= comments@);
    }
    r
}

/// One raw commit: its committer date and author date, either of which can
/// be missing.
#[derive(Clone, Copy, Debug, PartialEq, Eq, Structural)]
pub struct CommitRecord {
    pub committer_date: Option<i64>,
    pub author_date: Option<i64>,
}

/// A commit is always an Author event; its time is the committer date when
/// present, else the author date; a commit with neither is dropped.
pub open spec fn commit_event_spec(c: CommitRecord) -> Option<Event> {
    match c.committer_date {
        Option::Some(w) => Option::Some(Event { actor: Actor::Author, when: w }),
        Option::None => match c.author_date {
            Option::Some(w) => Option::Some(Event { actor: Actor::Author, when: w }),
            Option::None => Option::None,
        },
    }
}

/// Classify one commit.
pub fn classify_commit(c: &CommitRecord) -> (r: Option<Event>)
    ensures
        r == commit_event_spec(*c),
{
    match c.committer_date {
        Some(w) => Some(Event { actor: Actor::Author, when: w }),
        None => match c.author_date {
            Some(w) => Some(Event { actor: Actor::Author, when: w }),
            None => None,
        },
    }
}

/// The events a sequence of commits contributes, in encounter order.
pub open spec fn commit_events_spec(cs: Seq<CommitRecord>) -> Seq<Event>
    decreases cs.len(),
{
    if cs.len() == 0 {
        Seq::<Event>::empty()
    } else {
        match commit_event_spec(cs[0]) {
            Option::Some(e) => seq![e] + commit_events_spec(cs.drop_first()),
            Option::None => commit_events_spec(cs.drop_first()),
        }
    }
}

proof fn lemma_commit_events_push(cs: Seq<CommitRecord>, x: CommitRecord)
    ensures
        commit_events_spec(cs.push(x)) == match commit_event_spec(x) {
            Option::Some(e) => commit_events_spec(cs).push(e),
            Option::None => commit_events_spec(cs),
        },
    decreases cs.len(),
{
    if cs.len() == 0 {
        assert(cs.push(x)[0] == x);
        assert(cs.push(x).drop_first() =~= Seq::<CommitRecord>::empty());
        assert(commit_events_spec(Seq::<CommitRecord>::empty()) == Seq::<Event>::empty());
        match commit_event_spec(x) {
            Option::Some(e) => {
                assert(commit_events_spec(cs.push(x)) == seq![e] + Seq::<Event>::empty());
                assert(seq![e] + Seq::<Event>::empty() =~= Seq::<Event>::empty().push(e));
            }
            Option::None => {}
        }
    } else {
        let d = cs.drop_first();
        assert(cs.push(x).drop_first() =~= d.push(x));
        assert(cs.push(x)[0] == cs[0]);
        lemma_commit_events_push(d, x);
        match commit_event_spec(cs[0]) {
            Option::Some(e0) => {
                match commit_event_spec(x) {
                    Option::Some(e) => {
                        assert(seq![e0] + commit_events_spec(d).push(e) =~= (seq![e0]
                            + commit_events_spec(d)).push(e));
                    }
                    Option::None => {}
                }
            }
            Option::None => {}
        }
    }
}

/// Classify a whole commit feed, keeping encounter order.
pub fn classify_commits(commits: &Vec<CommitRecord>) -> (r: Vec<Event>)
    ensures
        r@ == commit_events_spec(commits@),
{
    let mut r: Vec<Event> = Vec::new();
    let mut i: usize = 0;
    proof {
        assert(commits@.subrange(0, 0) =~= Seq::<CommitRecord>::empty());
    }
    while i < commits.len()
        invariant
            0 <= i <= commits@.len(),
            r@ == commit_events_spec(commits@.subrange(0, i as int)),
        decreases commits@.len() - i,
    {
        proof {
            assert(commits@.subrange(0, i + 1) =~= commits@.subrange(0, i as int).push(
                commits@[i as int],
            ));
            lemma_commit_events_push(commits@.subrange(0, i as int), commits@[i as int]);
        }
        match classify_commit(&commits[i]) {
            Some(e) => {
                r.push(e);
            }
            None => {}
        }
        i = i + 1;
    }
    proof {
        assert(commits@.subrange(0, commits@.len() as int) =~= commits@);
    }
    r
}

} // verus!
