//! Author identity extraction: which changed documents are target documents,
//! and which login each fragment of a document's "author" field names.
//!
//! A fragment names an author only in the strict shape
//! `<display name> (@<login>)` optionally followed by ` <email>`; anything
//! else contributes nothing.

use vstd::prelude::*;
use vstd::string::StrSliceExecFns;
use eipw_preamble::Preamble;
use crate::text::{lower_of, lowercase, split_on, split_str, trim_spec, trim_str};

verus! {

/// First position at or after `i` holding `c`, or the length if none does.
pub open spec fn find_from(s: Seq<char>, c: char, i: int) -> int
    decreases s.len() - i when 0 <= i <= s.len()
{
    if i >= s.len() {
        i
    } else if s[i] == c {
        i
    } else {
        find_from(s, c, i + 1)
    }
}

proof fn lemma_find_from_props(s: Seq<char>, c: char, i: int)
    requires
        0 <= i <= s.len(),
    ensures
        i <= find_from(s, c, i) <= s.len(),
        find_from(s, c, i) < s.len() ==> s[find_from(s, c, i)] == c,
        forall|t: int| i <= t < find_from(s, c, i) ==> s[t] != c,
    decreases s.len() - i,
{
    if i < s.len() && s[i] != c {
        lemma_find_from_props(s, c, i + 1);
    }
}

fn find_char(s: &str, c: char, from: usize) -> (r: usize)
    requires
        from as int <= s@.len(),
    ensures
        r as int == find_from(s@, c, from as int),
        from <= r <= s@.len(),
        r < s@.len() ==> s@[r as int] == c,
        forall|t: int| from <= t < r ==> s@[t] != c,
{
    let n = s.unicode_len();
    let mut i: usize = from;
    while i < n
        invariant
            from <= i <= n,
            n == s@.len(),
            find_from(s@, c, from as int) == find_from(s@, c, i as int),
            forall|t: int| from <= t < i ==> s@[t] != c,
        decreases n - i,
    {
        if s.get_char(i) == c {
            proof {
                lemma_find_from_props(s@, c, i as int);
            }
            return i;
        }
        i = i + 1;
    }
    i
}

/// Characters allowed in the display-name part: anything but the structural
/// characters of the author shape.
pub open spec fn is_name_char(c: char) -> bool {
    c != '(' && c != ')' && c != '<' && c != '>' && c != ',' && c != '@'
}

fn is_name_c(c: char) -> (r: bool)
    ensures
        r == is_name_char(c),
{
    c != '(' && c != ')' && c != '<' && c != '>' && c != ',' && c != '@'
}

/// Characters allowed in a login: ASCII letters, digits and dashes.
pub open spec fn is_login_char(c: char) -> bool {
    ('a' <= c && c <= 'z') || ('A' <= c && c <= 'Z') || ('0' <= c && c <= '9') || c == '-'
}

fn is_login_c(c: char) -> (r: bool)
    ensures
        r == is_login_char(c),
{
    ('a' <= c && c <= 'z') || ('A' <= c && c <= 'Z') || ('0' <= c && c <= '9') || c == '-'
}

pub open spec fn is_digit_char(c: char) -> bool {
    '0' <= c && c <= '9'
}

fn is_digit_c(c: char) -> (r: bool)
    ensures
        r == is_digit_char(c),
{
    '0' <= c && c <= '9'
}

/// One admissible reading of an email tail `rest`: `rest[k]` is the `@` and
/// `rest[d]` the dot of the address, with no `>` anywhere between the opening
/// `<` region and the closing `>`.
pub open spec fn email_split_at(rest: Seq<char>, k: int, d: int) -> bool {
    let n = rest.len() as int;
    &&& 3 <= k
    &&& k + 2 <= d
    &&& d + 3 <= n
    &&& rest[k] == '@'
    &&& rest[d] == '.'
    &&& forall|t: int| 3 <= t < k ==> rest[t] != '>'
    &&& forall|t: int| k < t < n - 1 ==> rest[t] != '>'
}

/// The optional email tail of an author fragment: a space, then
/// `<localpart@domain>` where the domain contains a dot, closed by the final
/// `>` of the fragment.
pub open spec fn email_matches(rest: Seq<char>) -> bool {
    let n = rest.len() as int;
    &&& n >= 8
    &&& rest[0] == ' '
    &&& rest[1] == '<'
    &&& rest[2] != '@'
    &&& rest[n - 1] == '>'
    &&& exists|k: int, d: int| email_split_at(rest, k, d)
}

/// Decide `email_matches` on the suffix of `s` that starts at `from`.
fn email_check(s: &str, from: usize) -> (r: bool)
    requires
        from as int <= s@.len(),
    ensures
        r == email_matches(s@.subrange(from as int, s@.len() as int)),
{
    let n = s.unicode_len();
    let ghost rest = s@.subrange(from as int, n as int);
    proof {
        assert(rest.len() == n - from);
        assert forall|x: int| 0 <= x < n - from implies #[trigger] rest[x] == s@[from + x] by {}
    }
    let m = n - from;
    if m < 8 {
        return false;
    }
    if s.get_char(from) != ' ' || s.get_char(from + 1) != '<' || s.get_char(from + 2) == '@'
        || s.get_char(n - 1) != '>' {
        return false;
    }
    // No '>' may occur strictly inside the bracketed region.
    let mut t: usize = from + 3;
    while t < n - 1
        invariant
            from + 3 <= t <= n - 1,
            n == s@.len(),
            from + 8 <= n,
            rest == s@.subrange(from as int, n as int),
            forall|x: int| from + 3 <= x < t ==> s@[x] != '>',
        decreases n - t,
    {
        if s.get_char(t) == '>' {
            proof {
                let tr: int = t as int - from as int;
                assert(rest[tr] == s@[from + tr]);
                assert forall|k: int, d: int| !email_split_at(rest, k, d) by {
                    if email_split_at(rest, k, d) {
                        if tr < k {
                            assert(rest[tr] != '>');
                        } else if tr == k {
                            assert(rest[k] == '@');
                        } else {
                            assert(rest[tr] != '>');
                        }
                    }
                }
            }
            return false;
        }
        t = t + 1;
    }
    // First '@' strictly inside the brackets.
    let mut k: usize = from + 3;
    while k < n - 1 && s.get_char(k) != '@'
        invariant
            from + 3 <= k <= n - 1,
            n == s@.len(),
            from + 8 <= n,
            rest == s@.subrange(from as int, n as int),
            forall|x: int| from + 3 <= x < k ==> s@[x] != '@',
        decreases n - k,
    {
        k = k + 1;
    }
    if k == n - 1 {
        proof {
            assert forall|kk: int, d: int| !email_split_at(rest, kk, d) by {
                if email_split_at(rest, kk, d) {
                    assert(kk + 5 <= rest.len());
                    assert(rest[kk] == s@[from + kk]);
                    assert(s@[from + kk] != '@');
                }
            }
        }
        return false;
    }
    // First '.' far enough after the '@' but leaving room for the domain's
    // last label and the closing '>'.
    let mut d: usize = k + 2;
    while d <= n - 3 && s.get_char(d) != '.'
        invariant
            k + 2 <= d <= n,
            n == s@.len(),
            from + 8 <= n,
            from + 3 <= k < n - 1,
            rest == s@.subrange(from as int, n as int),
            forall|x: int| k + 2 <= x < d ==> s@[x] != '.',
        decreases n - d,
    {
        d = d + 1;
    }
    if d > n - 3 {
        proof {
            assert forall|kk: int, dd: int| !email_split_at(rest, kk, dd) by {
                if email_split_at(rest, kk, dd) {
                    assert(rest[kk] == s@[from + kk]);
                    assert(rest[dd] == s@[from + dd]);
                    assert(from + kk >= k as int) by {
                        if from + kk < k as int {
                            assert(s@[from + kk] != '@');
                        }
                    }
                    assert(s@[from + dd] == '.');
                    assert(k + 2 <= from + dd && from + dd + 3 <= n);
                }
            }
        }
        return false;
    }
    proof {
        let kr: int = k as int - from as int;
        let dr: int = d as int - from as int;
        assert(rest[kr] == s@[k as int]);
        assert(rest[dr] == s@[d as int]);
        assert(email_split_at(rest, kr, dr));
        assert(rest[0] == s@[from as int]);
        assert(rest[1] == s@[from + 1]);
        assert(rest[2] == s@[from + 2]);
        assert(rest[rest.len() - 1] == s@[n - 1]);
    }
    true
}


/// The login an author fragment captures, if the fragment has the strict
/// author shape: a nonempty display name, a space, `(@login)`, and an
/// optional email tail.
pub open spec fn author_capture(f: Seq<char>) -> Option<Seq<char>> {
    let n = f.len() as int;
    let i = find_from(f, '(', 0);
    if !(2 <= i && i + 1 < n && f[i - 1] == ' ' && f[i + 1] == '@' && (forall|t: int|
        0 <= t < i - 1 ==> is_name_char(f[t]))) {
        Option::None
    } else {
        let j = find_from(f, ')', i + 2);
        if !(i + 2 < j && j < n && (forall|t: int| i + 2 <= t < j ==> is_login_char(f[t]))) {
            Option::None
        } else if j + 1 == n || email_matches(f.subrange(j + 1, n)) {
            Option::Some(f.subrange(i + 2, j))
        } else {
            Option::None
        }
    }
}

/// Extract and normalize the login of one author fragment, or nothing if the
/// fragment does not have the author shape.
#[verifier::loop_isolation(false)]
pub fn author_login(frag: &str) -> (r: Option<String>)
    ensures
        r is Some <==> author_capture(frag@) is Some,
        r matches Some(l) ==> author_capture(frag@) matches Some(c) && l@ == lower_of(c),
{
    let n = frag.unicode_len();
    let i = find_char(frag, '(', 0);
    proof {
        lemma_find_from_props(frag@, '(', 0);
    }
    if i < 2 || i >= n || i + 1 >= n {
        return None;
    }
    if frag.get_char(i - 1) != ' ' || frag.get_char(i + 1) != '@' {
        return None;
    }
    let mut t: usize = 0;
    while t < i - 1
        invariant
            0 <= t <= i - 1,
            2 <= i,
            i + 1 < n,
            n == frag@.len(),
            forall|u: int| 0 <= u < t ==> is_name_char(frag@[u]),
        decreases i - t,
    {
        if !is_name_c(frag.get_char(t)) {
            return None;
        }
        t = t + 1;
    }
    let j = find_char(frag, ')', i + 2);
    proof {
        lemma_find_from_props(frag@, ')', i + 2);
    }
    if j >= n || j == i + 2 {
        return None;
    }
    let mut u: usize = i + 2;
    while u < j
        invariant
            i + 2 <= u <= j,
            j < n,
            n == frag@.len(),
            forall|x: int| i + 2 <= x < u ==> is_login_char(frag@[x]),
        decreases j - u,
    {
        if !is_login_c(frag.get_char(u)) {
            return None;
        }
        u = u + 1;
    }
    if j + 1 < n {
        if !email_check(frag, j + 1) {
            return None;
        }
    }
    let login = frag.substring_char(i + 2, j);
    proof {
        assert(author_capture(frag@) == Option::Some(frag@.subrange(i + 2, j as int)));
    }
    Some(lowercase(login))
}

/// The login one raw (untrimmed) fragment of an author field contributes.
pub open spec fn fragment_login(f: Seq<char>) -> Option<Seq<char>> {
    match author_capture(trim_spec(f)) {
        Option::Some(l) => Option::Some(lower_of(l)),
        Option::None => Option::None,
    }
}

/// The logins of a sequence of fragments, in order, skipping fragments that
/// do not have the author shape.
pub open spec fn frags_logins(fr: Seq<Seq<char>>) -> Seq<Seq<char>>
    decreases fr.len(),
{
    if fr.len() == 0 {
        Seq::<Seq<char>>::empty()
    } else {
        match fragment_login(fr[0]) {
            Option::Some(l) => seq![l] + frags_logins(fr.drop_first()),
            Option::None => frags_logins(fr.drop_first()),
        }
    }
}

proof fn lemma_frags_logins_push(fr: Seq<Seq<char>>, x: Seq<char>)
    ensures
        frags_logins(fr.push(x)) == match fragment_login(x) {
            Option::Some(l) => frags_logins(fr).push(l),
            Option::None => frags_logins(fr),
        },
    decreases fr.len(),
{
    if fr.len() == 0 {
        assert(fr.push(x)[0] == x);
        assert(fr.push(x).drop_first() =~= Seq::<Seq<char>>::empty());
        assert(frags_logins(Seq::<Seq<char>>::empty()) == Seq::<Seq<char>>::empty());
        assert(frags_logins(fr) == Seq::<Seq<char>>::empty());
        match fragment_login(x) {
            Option::Some(l) => {
                assert(frags_logins(fr.push(x)) == seq![l] + Seq::<Seq<char>>::empty());
                assert(seq![l] + Seq::<Seq<char>>::empty() =~= Seq::<Seq<char>>::empty().push(l));
            }
            Option::None => {
                assert(frags_logins(fr.push(x)) == Seq::<Seq<char>>::empty());
            }
        }
    } else {
        let d = fr.drop_first();
        assert(fr.push(x).drop_first() =~= d.push(x));
        assert(fr.push(x)[0] == fr[0]);
        lemma_frags_logins_push(d, x);
        match fragment_login(fr[0]) {
            Option::Some(l0) => {
                match fragment_login(x) {
                    Option::Some(l) => {
                        assert(frags_logins(fr.push(x)) == seq![l0] + frags_logins(d).push(l));
                        assert(seq![l0] + frags_logins(d).push(l) =~= (seq![l0] + frags_logins(
                            d,
                        )).push(l));
                    }
                    Option::None => {
                        assert(frags_logins(fr.push(x)) == seq![l0] + frags_logins(d));
                    }
                }
            }
            Option::None => {
                match fragment_login(x) {
                    Option::Some(l) => {
                        assert(frags_logins(fr.push(x)) == frags_logins(d).push(l));
                    }
                    Option::None => {
                        assert(frags_logins(fr.push(x)) == frags_logins(d));
                    }
                }
            }
        }
    }
}

/// The logins an author field names: split the field on commas, trim each
/// fragment, and keep those with the author shape, in order.
pub open spec fn field_logins(field: Seq<char>) -> Seq<Seq<char>> {
    frags_logins(split_on(field, ','))
}

/// Extract every login an author field names, normalized, in order.
pub fn authors_from_field(field: &str) -> (r: Vec<String>)
    ensures
        r@.map_values(|t: String| t@) == field_logins(field@),
{
    let frags = split_str(field, ',');
    let ghost fr = split_on(field@, ',');
    let mut r: Vec<String> = Vec::new();
    let mut i: usize = 0;
    proof {
        assert(fr.subrange(0, 0) =~= Seq::<Seq<char>>::empty());
        assert(r@.map_values(|t: String| t@) =~= frags_logins(fr.subrange(0, 0)));
    }
    while i < frags.len()
        invariant
            0 <= i <= frags@.len(),
            frags@.map_values(|t: String| t@) == fr,
            r@.map_values(|t: String| t@) == frags_logins(fr.subrange(0, i as int)),
        decreases frags@.len() - i,
    {
        proof {
            assert(fr.subrange(0, i + 1) =~= fr.subrange(0, i as int).push(fr[i as int]));
            lemma_frags_logins_push(fr.subrange(0, i as int), fr[i as int]);
            assert(frags@[i as int]@ == fr[i as int]);
        }
        let trimmed = trim_str(frags[i].as_str());
        match author_login(trimmed.as_str()) {
            Some(login) => {
                proof {
                    assert((r@.push(login)).map_values(|t: String| t@) =~= r@.map_values(
                        |t: String| t@,
                    ).push(login@));
                }
                r.push(login);
            }
            None => {}
        }
        i = i + 1;
    }
    proof {
        assert(fr.subrange(0, fr.len() as int) =~= fr);
    }
    r
}

/// What the "author" preamble field of a document holds, if the document
/// splits into a metadata block that parses and carries that field.
pub uninterp spec fn preamble_author_of(doc: Seq<char>) -> Option<Seq<char>>;

/// Relies on eipw_preamble's Preamble::split, Preamble::parse and
/// Preamble::by_name: whether the leading metadata block of a document
/// splits off and parses, and what its "author" field holds, depend on the
/// document text alone (the origin name passed to parse only labels error
/// messages, which are discarded here).
#[verifier::external_body]
fn preamble_author(doc: &str) -> (r: Option<String>)
    ensures
        r is Some <==> preamble_author_of(doc@) is Some,
        r matches Some(s) ==> preamble_author_of(doc@) matches Some(v) && s@ == v,
{
    let (preamble, _body) = match Preamble::split(doc) {
        Ok(o) => o,
        Err(_) => return None,
    };
    let parsed = match Preamble::parse(None, preamble) {
        Ok(o) => o,
        Err(_) => return None,
    };
    parsed.by_name("author").map(|f| f.value().to_string())
}

/// The logins a whole document names: the logins of its trimmed "author"
/// field, or none when the metadata cannot be split or parsed or has no
/// author field.
pub open spec fn document_logins(doc: Seq<char>) -> Seq<Seq<char>> {
    match preamble_author_of(doc) {
        Option::Some(field) => field_logins(trim_spec(field)),
        Option::None => Seq::<Seq<char>>::empty(),
    }
}

/// Extract every author login a changed document names. A document whose
/// metadata does not parse contributes nothing, and only that document is
/// affected.
pub fn authors_from_document(doc: &str) -> (r: Vec<String>)
    ensures
        r@.map_values(|t: String| t@) == document_logins(doc@),
{
    match preamble_author(doc) {
        Some(field) => {
            let trimmed = trim_str(field.as_str());
            authors_from_field(trimmed.as_str())
        }
        None => {
            let r: Vec<String> = Vec::new();
            proof {
                assert(r@.map_values(|t: String| t@) =~= Seq::<Seq<char>>::empty());
            }
            r
        }
    }
}

/// A run of at least one digit starting at `s`, followed immediately by
/// `.md`.
pub open spec fn digit_run_dot_md(p: Seq<char>, s: int, m: int) -> bool {
    &&& m >= 1
    &&& s + m + 3 <= p.len()
    &&& (forall|t: int| s <= t < s + m ==> is_digit_char(p[t]))
    &&& p[s + m] == '.'
    &&& p[s + m + 1] == 'm'
    &&& p[s + m + 2] == 'd'
}

/// A target-document name occurs at position `i`: `EIPS/` or `ERCS/`, then
/// `eip-` or `erc-`, then digits, then `.md`.
pub open spec fn target_match_at(p: Seq<char>, i: int) -> bool {
    &&& 0 <= i
    &&& i + 13 <= p.len()
    &&& p[i] == 'E'
    &&& ((p[i + 1] == 'I' && p[i + 2] == 'P') || (p[i + 1] == 'R' && p[i + 2] == 'C'))
    &&& p[i + 3] == 'S'
    &&& p[i + 4] == '/'
    &&& p[i + 5] == 'e'
    &&& ((p[i + 6] == 'i' && p[i + 7] == 'p') || (p[i + 6] == 'r' && p[i + 7] == 'c'))
    &&& p[i + 8] == '-'
    &&& exists|m: int| #[trigger] digit_run_dot_md(p, i + 9, m)
}

/// A path names a target document when a target-document name occurs
/// anywhere in it.
pub open spec fn is_target_path(p: Seq<char>) -> bool {
    exists|i: int| target_match_at(p, i)
}

fn check_target_at(p: &str, i: usize) -> (r: bool)
    requires
        i as int <= p@.len(),
    ensures
        r == target_match_at(p@, i as int),
{
    let n = p.unicode_len();
    if n < 13 || i > n - 13 {
        return false;
    }
    let ok = p.get_char(i) == 'E'
        && ((p.get_char(i + 1) == 'I' && p.get_char(i + 2) == 'P') || (p.get_char(i + 1) == 'R'
            && p.get_char(i + 2) == 'C')) && p.get_char(i + 3) == 'S' && p.get_char(i + 4) == '/'
        && p.get_char(i + 5) == 'e' && ((p.get_char(i + 6) == 'i' && p.get_char(i + 7) == 'p') || (
    p.get_char(i + 6) == 'r' && p.get_char(i + 7) == 'c')) && p.get_char(i + 8) == '-';
    if !ok {
        return false;
    }
    let start = i + 9;
    let mut e: usize = start;
    while e < n && is_digit_c(p.get_char(e))
        invariant
            start <= e <= n,
            n == p@.len(),
            start + 4 <= n,
            forall|x: int| start <= x < e ==> is_digit_char(p@[x]),
        decreases n - e,
    {
        e = e + 1;
    }
    let run = e - start;
    if run >= 1 && e <= n - 3 && p.get_char(e) == '.' && p.get_char(e + 1) == 'm' && p.get_char(
        e + 2,
    ) == 'd' {
        proof {
            assert(digit_run_dot_md(p@, start as int, run as int));
        }
        return true;
    }
    proof {
        assert forall|m: int| !digit_run_dot_md(p@, start as int, m) by {
            if digit_run_dot_md(p@, start as int, m) {
                if m < run {
                    assert(is_digit_char(p@[start + m]));
                } else if m > run {
                    assert(e < n ==> !is_digit_char(p@[e as int]));
                    assert(is_digit_char(p@[start + run]));
                } else {
                    assert(p@[start + m] == '.');
                    assert(p@[start + m + 1] == 'm');
                    assert(p@[start + m + 2] == 'd');
                }
            }
        }
    }
    false
}

/// Whether a changed file's path names a target document.
pub fn is_target_document(path: &str) -> (r: bool)
    ensures
        r == is_target_path(path@),
{
    let n = path.unicode_len();
    let mut i: usize = 0;
    while i < n
        invariant
            0 <= i <= n,
            n == path@.len(),
            forall|j: int| 0 <= j < i ==> !target_match_at(path@, j),
        decreases n - i,
    {
        if check_target_at(path, i) {
            return true;
        }
        i = i + 1;
    }
    proof {
        if is_target_path(path@) {
            let j = choose|j: int| target_match_at(path@, j);
            assert(j + 13 <= n);
        }
    }
    false
}

} // verus!
