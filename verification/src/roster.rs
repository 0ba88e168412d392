//! Role membership: a set of normalized (lower-cased) login identifiers, and
//! the resolver that reads the editor roster document into one.

use vstd::prelude::*;
use vstd::string::StrSliceExecFns;
use crate::text::{lower_of, lowercase, split_on, split_str};

verus! {

/// A set of normalized login identifiers, viewed as the set of its members'
/// character sequences. Used both for the run-wide editor set and for each
/// request's author set.
pub struct LoginSet {
    items: Vec<String>,
}

impl View for LoginSet {
    type V = Set<Seq<char>>;

    closed spec fn view(&self) -> Set<Seq<char>> {
        Set::new(
            |x: Seq<char>|
                exists|i: int| 0 <= i < self.items@.len() && self.items@[i]@ == x,
        )
    }
}

/// The set of views of a sequence of strings.
pub open spec fn views_of(s: Seq<String>) -> Set<Seq<char>> {
    Set::new(|x: Seq<char>| exists|i: int| 0 <= i < s.len() && s[i]@ == x)
}

impl LoginSet {
    pub fn new() -> (r: LoginSet)
        ensures
            r@ == Set::<Seq<char>>::empty(),
    {
        let r = LoginSet { items: Vec::new() };
        proof {
            assert(r@ =~= Set::<Seq<char>>::empty());
        }
        r
    }

    pub fn insert(&mut self, login: String)
        ensures
            final(self)@ == old(self)@.insert(login@),
    {
        let ghost pre = *self;
        self.items.push(login);
        proof {
            assert forall|x: Seq<char>| self@.contains(x) implies pre@.insert(login@).contains(
                x,
            ) by {
                let i = choose|i: int| 0 <= i < self.items@.len() && self.items@[i]@ == x;
                if i < pre.items@.len() {
                    assert(pre@.contains(x));
                }
            }
            assert forall|x: Seq<char>| pre@.insert(login@).contains(x) implies self@.contains(
                x,
            ) by {
                if pre@.contains(x) {
                    let i = choose|i: int| 0 <= i < pre.items@.len() && pre.items@[i]@ == x;
                    assert(self.items@[i]@ == x);
                } else {
                    assert(self.items@[self.items@.len() - 1]@ == x);
                }
            }
            assert(self@ =~= pre@.insert(login@));
        }
    }

    /// Add every login of `logins` to the set.
    pub fn insert_all(&mut self, logins: &Vec<String>)
        ensures
            final(self)@ == old(self)@.union(views_of(logins@)),
    {
        let ghost pre = old(self)@;
        let mut i: usize = 0;
        while i < logins.len()
            invariant
                0 <= i <= logins@.len(),
                self@ == pre.union(views_of(logins@.subrange(0, i as int))),
            decreases logins@.len() - i,
        {
            self.insert(logins[i].clone());
            proof {
                let a = logins@.subrange(0, i as int);
                let b = logins@.subrange(0, i + 1);
                assert forall|x: Seq<char>| views_of(b).contains(x) implies views_of(a).insert(
                    logins@[i as int]@,
                ).contains(x) by {
                    let j = choose|j: int| 0 <= j < b.len() && b[j]@ == x;
                    if j < i {
                        assert(a[j]@ == x);
                    }
                }
                assert forall|x: Seq<char>|
                    views_of(a).insert(logins@[i as int]@).contains(x) implies views_of(
                    b,
                ).contains(x) by {
                    if views_of(a).contains(x) {
                        let j = choose|j: int| 0 <= j < a.len() && a[j]@ == x;
                        assert(b[j]@ == x);
                    } else {
                        assert(b[i as int]@ == x);
                    }
                }
                assert(views_of(b) =~= views_of(a).insert(logins@[i as int]@));
                assert(self@ =~= pre.union(views_of(b)));
            }
            i = i + 1;
        }
        proof {
            assert(logins@.subrange(0, logins@.len() as int) =~= logins@);
        }
    }

    /// Whether the given (already normalized) login is a member.
    pub fn contains(&self, login: &String) -> (r: bool)
        ensures
            r == self@.contains(login@),
    {
        let mut i: usize = 0;
        while i < self.items.len()
            invariant
                0 <= i <= self.items@.len(),
                forall|j: int| 0 <= j < i ==> self.items@[j]@ != login@,
            decreases self.items@.len() - i,
        {
            if self.items[i].eq(login) {
                assert(self@.contains(login@));
                return true;
            }
            i = i + 1;
        }
        proof {
            if self@.contains(login@) {
                let j = choose|j: int| 0 <= j < self.items@.len() && self.items@[j]@ == login@;
            }
        }
        false
    }
}

/// A roster line names an editor when it has the shape of an indented list
/// item: two spaces, a dash, a space, then at least one character.
pub open spec fn line_matches(l: Seq<char>) -> bool {
    l.len() > 4 && l[0] == ' ' && l[1] == ' ' && l[2] == '-' && l[3] == ' '
}

/// What an editor line captures: everything after its four-character prefix.
pub open spec fn line_capture(l: Seq<char>) -> Seq<char> {
    l.subrange(4, l.len() as int)
}

/// The editors a roster document names: the lower-cased capture of every
/// matching line.
pub open spec fn roster_editors(s: Seq<char>) -> Set<Seq<char>> {
    editors_of_lines(split_on(s, '\n'), split_on(s, '\n').len() as int)
}

/// The editors named by the first `k` lines.
pub open spec fn editors_of_lines(lines: Seq<Seq<char>>, k: int) -> Set<Seq<char>> {
    Set::new(
        |x: Seq<char>|
            exists|j: int| 0 <= j < k && j < lines.len() && line_matches(lines[j]) && x == lower_of(
                line_capture(lines[j]),
            ),
    )
}

/// Parse the roster document into the editor set. Lines that do not have the
/// list-item shape are simply not matches, never errors.
pub fn resolve_editors(roster: &str) -> (r: LoginSet)
    ensures
        r@ == roster_editors(roster@),
{
    let lines = split_str(roster, '\n');
    let ghost ls = split_on(roster@, '\n');
    let mut r = LoginSet::new();
    let mut k: usize = 0;
    proof {
        assert(r@ =~= editors_of_lines(ls, 0));
    }
    while k < lines.len()
        invariant
            0 <= k <= lines@.len(),
            lines@.map_values(|t: String| t@) == ls,
            r@ == editors_of_lines(ls, k as int),
        decreases lines@.len() - k,
    {
        let line = &lines[k];
        proof {
            assert(line@ == ls[k as int]);
        }
        let len = line.as_str().unicode_len();
        if len > 4 && line.as_str().get_char(0) == ' ' && line.as_str().get_char(1) == ' '
            && line.as_str().get_char(2) == '-' && line.as_str().get_char(3) == ' ' {
            assert(line_matches(ls[k as int]));
            let captured = line.as_str().substring_char(4, len);
            let low = lowercase(captured);
            r.insert(low);
            proof {
                assert(captured@ == line_capture(ls[k as int]));
                lemma_editors_of_lines_step_match(ls, k as int);
            }
        } else {
            proof {
                assert(!line_matches(ls[k as int]));
                lemma_editors_of_lines_step_skip(ls, k as int);
            }
        }
        k = k + 1;
    }
    proof {
        assert(roster_editors(roster@) =~= editors_of_lines(ls, lines@.len() as int));
    }
    r
}

proof fn lemma_editors_of_lines_step_match(lines: Seq<Seq<char>>, k: int)
    requires
        0 <= k < lines.len(),
        line_matches(lines[k]),
    ensures
        editors_of_lines(lines, k + 1) == editors_of_lines(lines, k).insert(
            lower_of(line_capture(lines[k])),
        ),
{
    let a = editors_of_lines(lines, k);
    let b = editors_of_lines(lines, k + 1);
    let x0 = lower_of(line_capture(lines[k]));
    assert forall|x: Seq<char>| b.contains(x) implies a.insert(x0).contains(x) by {
        let j = choose|j: int|
            0 <= j < k + 1 && j < lines.len() && line_matches(lines[j]) && x == lower_of(
                line_capture(lines[j]),
            );
        if j < k {
            assert(a.contains(x));
        }
    }
    assert forall|x: Seq<char>| a.insert(x0).contains(x) implies b.contains(x) by {
        if a.contains(x) {
            let j = choose|j: int|
                0 <= j < k && j < lines.len() && line_matches(lines[j]) && x == lower_of(
                    line_capture(lines[j]),
                );
            assert(0 <= j < k + 1 && line_matches(lines[j]) && x == lower_of(
                line_capture(lines[j]),
            ));
        } else {
            assert(0 <= k < k + 1 && line_matches(lines[k]) && x == lower_of(
                line_capture(lines[k]),
            ));
        }
    }
    assert(b =~= a.insert(x0));
}

proof fn lemma_editors_of_lines_step_skip(lines: Seq<Seq<char>>, k: int)
    requires
        0 <= k < lines.len(),
        !line_matches(lines[k]),
    ensures
        editors_of_lines(lines, k + 1) == editors_of_lines(lines, k),
{
    let a = editors_of_lines(lines, k);
    let b = editors_of_lines(lines, k + 1);
    assert forall|x: Seq<char>| b.contains(x) implies a.contains(x) by {
        let j = choose|j: int|
            0 <= j < k + 1 && j < lines.len() && line_matches(lines[j]) && x == lower_of(
                line_capture(lines[j]),
            );
        assert(j < k);
    }
    assert(b =~= a);
}

} // verus!
