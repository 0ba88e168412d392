use eip_board::authors::{
    author_login, authors_from_document, authors_from_field, is_target_document,
};
use eip_board::roster::resolve_editors;
use eip_board::text::{split_str, trim_str};

#[test]
fn roster_lines_become_lowercased_editors() {
    let roster = "editors:\n  - Alice\n  - BOB-7\nnot a list item\n- unindented\n";
    let editors = resolve_editors(roster);
    assert!(editors.contains(&String::from("alice")));
    assert!(editors.contains(&String::from("bob-7")));
    assert!(!editors.contains(&String::from("Alice")));
    assert!(!editors.contains(&String::from("unindented")));
    assert!(!editors.contains(&String::from("editors:")));
}

#[test]
fn roster_line_needs_a_captured_name() {
    // "  - " with nothing after it captures nothing.
    let editors = resolve_editors("  - \n  - carol");
    assert!(editors.contains(&String::from("carol")));
    assert!(!editors.contains(&String::from("")));
}

#[test]
fn author_fragment_with_login_is_kept() {
    // The canonical shape contributes the lower-cased login.
    let logins = authors_from_field("Jane Doe (@janedoe)");
    assert_eq!(logins, vec![String::from("janedoe")]);
}

#[test]
fn author_fragment_without_login_contributes_nothing() {
    // An email-only identity has no "(@login)" and is discarded.
    let logins = authors_from_field("Jane Doe <jane@x.com>");
    assert!(logins.is_empty());
}

#[test]
fn author_field_mixes_fragments() {
    let logins = authors_from_field(
        "Jane Doe (@JaneDoe), John <j@x.com>, Bob Smith (@bob-s) <bob@ex.org>",
    );
    assert_eq!(logins, vec![String::from("janedoe"), String::from("bob-s")]);
}

#[test]
fn author_fragment_is_trimmed() {
    let logins = authors_from_field("   Jane Doe (@JD)   ");
    assert_eq!(logins, vec![String::from("jd")]);
}

#[test]
fn author_login_accepts_email_tail() {
    assert_eq!(
        author_login("Ann B (@ab) <x@y.z>"),
        Some(String::from("ab"))
    );
}

#[test]
fn author_login_rejects_malformed_shapes() {
    // Trailing text that is not an email tail.
    assert_eq!(author_login("Ann B (@ab) extra"), None);
    // Email tail without an at sign.
    assert_eq!(author_login("Ann B (@ab) <xy.z>"), None);
    // Email tail without a dot in the domain.
    assert_eq!(author_login("Ann B (@ab) <x@yz>"), None);
    // Empty login.
    assert_eq!(author_login("Ann B (@)"), None);
    // Missing display name.
    assert_eq!(author_login("(@ab)"), None);
    // Display name with a forbidden character.
    assert_eq!(author_login("Ann @ B (@ab)"), None);
    // Login with a forbidden character.
    assert_eq!(author_login("Ann B (@a_b)"), None);
}

#[test]
fn target_document_paths() {
    assert!(is_target_document("EIPS/eip-1.md"));
    assert!(is_target_document("ERCS/erc-20.md"));
    assert!(is_target_document("docs/EIPS/eip-9999.md"));
    // The two halves may mix, as the pattern is two independent choices.
    assert!(is_target_document("EIPS/erc-7.md"));
    assert!(!is_target_document("EIPS/eip-1.txt"));
    assert!(!is_target_document("EIPS/eip-.md"));
    assert!(!is_target_document("eip-1.md"));
    assert!(!is_target_document("EIPS/eip-1md"));
    assert!(!is_target_document(""));
}

#[test]
fn document_preamble_authors_are_extracted() {
    let doc = "---\nauthor: Jane Doe (@jane), Bob (@BOB)\nstatus: Draft\n---\n\nBody text.\n";
    let logins = authors_from_document(doc);
    assert_eq!(logins, vec![String::from("jane"), String::from("bob")]);
}

#[test]
fn document_without_preamble_has_no_authors() {
    assert!(authors_from_document("Just a plain file.\n").is_empty());
}

#[test]
fn document_with_unparsable_preamble_has_no_authors() {
    // A preamble line without a colon does not parse; the document is
    // skipped, not an error.
    let doc = "---\nauthor: Jane Doe (@jane)\nbroken line without delimiter\n---\nBody.\n";
    assert!(authors_from_document(doc).is_empty());
}

#[test]
fn document_without_author_field_has_no_authors() {
    let doc = "---\nstatus: Draft\n---\nBody.\n";
    assert!(authors_from_document(doc).is_empty());
}

#[test]
fn split_behaves_like_str_split() {
    let pieces = split_str("a,b,,c", ',');
    assert_eq!(
        pieces,
        vec![
            String::from("a"),
            String::from("b"),
            String::from(""),
            String::from("c")
        ]
    );
    assert_eq!(split_str("", ','), vec![String::from("")]);
    let expected: Vec<String> = "x\ny\n".split('\n').map(String::from).collect();
    assert_eq!(split_str("x\ny\n", '\n'), expected);
}

#[test]
fn trim_behaves_like_str_trim() {
    assert_eq!(trim_str("  hello \t\n"), String::from("hello"));
    assert_eq!(trim_str(""), String::from(""));
    assert_eq!(trim_str(" \u{a0} "), String::from(""));
    assert_eq!(trim_str("inner space kept"), String::from("inner space kept"));
}
