use eip_board::ball::{ball_state, evaluate_request};
use eip_board::classify::{
    classify_comment, classify_comments, classify_commit, classify_commits, latest_editor_review,
    CommentRecord, CommitRecord, ReviewRecord, ReviewState,
};
use eip_board::events::{Actor, BallState, Event};
use eip_board::roster::LoginSet;
use eip_board::timeline::build;
use eip_board::worklist::{
    assemble_worklist, include_request, make_entry, pr_identifier, should_skip_labels,
    worklist_urls, WorklistEntry,
};

const JAN_01: i64 = 1704067200;
const JAN_05: i64 = 1704412800;
const JAN_10: i64 = 1704844800;
const FEB_01: i64 = 1706745600;

fn editor_event(when: i64) -> Event {
    Event {
        actor: Actor::Editor,
        when,
    }
}

fn author_event(when: i64) -> Event {
    Event {
        actor: Actor::Author,
        when,
    }
}

#[test]
fn build_is_idempotent_and_sorted() {
    let review = Some(editor_event(JAN_05));
    let comments = vec![author_event(JAN_10), editor_event(JAN_05)];
    let pr_comments = vec![author_event(JAN_01)];
    let commits = vec![author_event(FEB_01), author_event(JAN_10)];
    let a = build(
        JAN_01,
        review,
        comments.clone(),
        pr_comments.clone(),
        commits.clone(),
    );
    let b = build(JAN_01, review, comments, pr_comments, commits);
    assert_eq!(a, b);
    for w in a.windows(2) {
        assert!(w[0].when <= w[1].when);
    }
}

#[test]
fn build_seeds_creation_event() {
    let t = build(JAN_01, None, vec![], vec![], vec![]);
    assert_eq!(t, vec![author_event(JAN_01)]);
}

#[test]
fn build_excludes_pre_creation_events() {
    // A commit dated before the request was created (a rebase or
    // cherry-pick) never appears in the built timeline.
    let t = build(JAN_05, None, vec![], vec![], vec![author_event(JAN_01)]);
    assert_eq!(t, vec![author_event(JAN_05)]);
}

#[test]
fn build_keeps_stable_order_for_equal_times() {
    let t = build(
        JAN_01,
        Some(editor_event(JAN_05)),
        vec![author_event(JAN_05)],
        vec![],
        vec![],
    );
    // The review event is collected before the comment event, and equal
    // times keep source-encounter order.
    assert_eq!(
        t,
        vec![
            author_event(JAN_01),
            editor_event(JAN_05),
            author_event(JAN_05)
        ]
    );
}

#[test]
fn no_editor_engagement_awaits_since_creation() {
    let state = evaluate_request(JAN_01, None, vec![], vec![], vec![]);
    assert_eq!(state, BallState::AwaitingEditor(JAN_01));
}

#[test]
fn scenario_untouched_request_enters_worklist_at_creation() {
    // Created January first by its author; no reviews, comments or commits
    // ever: the worklist holds (creation time, link).
    let state = evaluate_request(JAN_01, None, vec![], vec![], vec![]);
    let since = match state {
        BallState::AwaitingEditor(s) => s,
        BallState::NoActionNeeded => panic!("expected an awaiting state"),
    };
    let entry = make_entry(since, Some(String::from("https://example.org/pull/1"))).unwrap();
    let worklist = assemble_worklist(vec![entry]);
    assert_eq!(worklist.len(), 1);
    assert_eq!(worklist[0].since, JAN_01);
    assert_eq!(worklist[0].url, "https://example.org/pull/1");
}

#[test]
fn scenario_author_commit_after_editor_review() {
    // Editor asks for changes January fifth; the author pushes a commit
    // January tenth: the ball returned to the editors at the commit.
    let state = evaluate_request(
        JAN_01,
        Some(editor_event(JAN_05)),
        vec![],
        vec![],
        vec![author_event(JAN_10)],
    );
    assert_eq!(state, BallState::AwaitingEditor(JAN_10));
}

#[test]
fn scenario_editor_comment_without_author_reply() {
    // Editor commented January fifth and nothing followed: the request
    // waits on its author and stays off the worklist.
    let state = evaluate_request(JAN_01, Some(editor_event(JAN_05)), vec![], vec![], vec![]);
    assert_eq!(state, BallState::NoActionNeeded);
}

#[test]
fn earliest_author_event_after_editor_wins() {
    let t = build(
        JAN_01,
        Some(editor_event(JAN_05)),
        vec![author_event(FEB_01), author_event(JAN_10)],
        vec![],
        vec![],
    );
    assert_eq!(ball_state(&t), BallState::AwaitingEditor(JAN_10));
}

#[test]
fn empty_timeline_needs_no_action() {
    assert_eq!(ball_state(&vec![]), BallState::NoActionNeeded);
}

#[test]
fn worklist_sorts_ascending_by_since() {
    let feb = WorklistEntry {
        since: FEB_01,
        url: String::from("https://example.org/pull/2"),
    };
    let jan = WorklistEntry {
        since: JAN_01,
        url: String::from("https://example.org/pull/1"),
    };
    let sorted = assemble_worklist(vec![feb, jan]);
    assert_eq!(sorted[0].since, JAN_01);
    assert_eq!(sorted[1].since, FEB_01);
    let urls = worklist_urls(&sorted);
    assert_eq!(
        urls,
        vec![
            String::from("https://example.org/pull/1"),
            String::from("https://example.org/pull/2")
        ]
    );
}

#[test]
fn worklist_sort_is_stable() {
    let a = WorklistEntry {
        since: JAN_05,
        url: String::from("first"),
    };
    let b = WorklistEntry {
        since: JAN_05,
        url: String::from("second"),
    };
    let sorted = assemble_worklist(vec![a, b]);
    assert_eq!(sorted[0].url, "first");
    assert_eq!(sorted[1].url, "second");
}

#[test]
fn entry_without_link_is_refused() {
    assert!(make_entry(JAN_01, None).is_none());
}

fn editors_of(names: &[&str]) -> LoginSet {
    let mut set = LoginSet::new();
    for n in names {
        set.insert(String::from(*n));
    }
    set
}

#[test]
fn latest_qualifying_editor_review_wins() {
    let editors = editors_of(&["alice", "bob"]);
    let reviews = vec![
        ReviewRecord {
            state: Some(ReviewState::ChangesRequested),
            login: Some(String::from("Alice")),
            submitted_at: Some(JAN_05),
        },
        ReviewRecord {
            state: Some(ReviewState::Commented),
            login: Some(String::from("bob")),
            submitted_at: Some(JAN_10),
        },
    ];
    let event = latest_editor_review(&reviews, &editors).unwrap();
    assert_eq!(event, editor_event(JAN_10));
}

#[test]
fn approval_is_not_an_actionable_review() {
    let editors = editors_of(&["alice"]);
    let reviews = vec![ReviewRecord {
        state: Some(ReviewState::Approved),
        login: Some(String::from("alice")),
        submitted_at: Some(JAN_05),
    }];
    assert!(latest_editor_review(&reviews, &editors).is_none());
}

#[test]
fn non_editor_review_is_ignored() {
    let editors = editors_of(&["alice"]);
    let reviews = vec![ReviewRecord {
        state: Some(ReviewState::ChangesRequested),
        login: Some(String::from("mallory")),
        submitted_at: Some(JAN_05),
    }];
    assert!(latest_editor_review(&reviews, &editors).is_none());
}

#[test]
fn review_without_timestamp_is_ignored() {
    let editors = editors_of(&["alice"]);
    let reviews = vec![ReviewRecord {
        state: Some(ReviewState::ChangesRequested),
        login: Some(String::from("alice")),
        submitted_at: None,
    }];
    assert!(latest_editor_review(&reviews, &editors).is_none());
}

#[test]
fn comments_classify_by_role() {
    let editors = editors_of(&["ed"]);
    let authors = editors_of(&["au"]);
    assert_eq!(
        classify_comment(&Some(String::from("ED")), JAN_05, &editors, &authors),
        Some(editor_event(JAN_05))
    );
    assert_eq!(
        classify_comment(&Some(String::from("au")), JAN_05, &editors, &authors),
        Some(author_event(JAN_05))
    );
    assert_eq!(
        classify_comment(&Some(String::from("visitor")), JAN_05, &editors, &authors),
        None
    );
    assert_eq!(classify_comment(&None, JAN_05, &editors, &authors), None);
}

#[test]
fn comment_feed_keeps_order_and_drops_strangers() {
    let editors = editors_of(&["ed"]);
    let authors = editors_of(&["au"]);
    let feed = vec![
        CommentRecord {
            login: Some(String::from("au")),
            created_at: JAN_01,
        },
        CommentRecord {
            login: Some(String::from("visitor")),
            created_at: JAN_05,
        },
        CommentRecord {
            login: Some(String::from("ed")),
            created_at: JAN_10,
        },
    ];
    let events = classify_comments(&feed, &editors, &authors);
    assert_eq!(events, vec![author_event(JAN_01), editor_event(JAN_10)]);
}

#[test]
fn commit_prefers_committer_date() {
    assert_eq!(
        classify_commit(&CommitRecord {
            committer_date: Some(JAN_10),
            author_date: Some(JAN_05),
        }),
        Some(author_event(JAN_10))
    );
    assert_eq!(
        classify_commit(&CommitRecord {
            committer_date: None,
            author_date: Some(JAN_05),
        }),
        Some(author_event(JAN_05))
    );
    assert_eq!(
        classify_commit(&CommitRecord {
            committer_date: None,
            author_date: None,
        }),
        None
    );
}

#[test]
fn commit_feed_drops_dateless_commits() {
    let feed = vec![
        CommitRecord {
            committer_date: None,
            author_date: None,
        },
        CommitRecord {
            committer_date: Some(JAN_05),
            author_date: None,
        },
    ];
    assert_eq!(classify_commits(&feed), vec![author_event(JAN_05)]);
}

#[test]
fn label_skip_rule() {
    assert!(should_skip_labels(&vec![String::from("a-review")]));
    assert!(!should_skip_labels(&vec![
        String::from("a-review"),
        String::from("e-review")
    ]));
    assert!(!should_skip_labels(&vec![String::from("e-review")]));
    assert!(!should_skip_labels(&vec![]));
}

#[test]
fn draft_requests_are_excluded() {
    assert!(!include_request(Some(true)));
    assert!(include_request(Some(false)));
    assert!(include_request(None));
}

#[test]
fn identifier_prefers_browser_link() {
    let html = Some(String::from("https://example.org/pull/7"));
    let raw = String::from("https://api.example.org/pulls/7");
    assert_eq!(pr_identifier(&html, &raw), "https://example.org/pull/7");
    assert_eq!(pr_identifier(&None, &raw), "https://api.example.org/pulls/7");
}
