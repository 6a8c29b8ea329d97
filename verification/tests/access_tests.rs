use pasta_store::access::{
    confirm_matches, decide_delete, delete_needs_auth, edit_needs_auth, view_needs_auth,
    DeleteDecision, Flags,
};

fn open_flags() -> Flags {
    Flags { readonly: false, private: false, editable: true, encrypt_server: false, encrypt_client: false }
}

#[test]
fn view_gating() {
    assert!(!view_needs_auth(open_flags()));
    assert!(view_needs_auth(Flags { private: true, ..open_flags() }));
    assert!(view_needs_auth(Flags { encrypt_server: true, ..open_flags() }));
    // Client-side encryption alone does not force a server-side prompt.
    assert!(!view_needs_auth(Flags { encrypt_client: true, ..open_flags() }));
    // Read-only does not gate viewing.
    assert!(!view_needs_auth(Flags { readonly: true, ..open_flags() }));
}

#[test]
fn edit_and_delete_gating() {
    assert!(!edit_needs_auth(open_flags()));
    assert!(!delete_needs_auth(open_flags()));
    for f in [
        Flags { readonly: true, ..open_flags() },
        Flags { encrypt_server: true, ..open_flags() },
        Flags { editable: false, ..open_flags() },
    ] {
        assert!(edit_needs_auth(f));
        assert!(delete_needs_auth(f));
    }
    // Privacy gates viewing, not editing.
    assert!(!edit_needs_auth(Flags { private: true, ..open_flags() }));
}

#[test]
fn unrestricted_delete_needs_nothing() {
    assert_eq!(decide_delete(open_flags(), "", "yes, delete"), DeleteDecision::Unrestricted);
    assert_eq!(decide_delete(open_flags(), "whatever", "yes, delete"), DeleteDecision::Unrestricted);
}

#[test]
fn gated_delete_prompts_without_input() {
    let f = Flags { readonly: true, ..open_flags() };
    assert_eq!(decide_delete(f, "", "yes, delete"), DeleteDecision::AuthPrompt);
}

#[test]
fn gated_delete_wants_the_exact_phrase() {
    let f = Flags { encrypt_server: true, ..open_flags() };
    assert_eq!(decide_delete(f, "yes, delete", "yes, delete"), DeleteDecision::Confirmed);
    assert_eq!(decide_delete(f, "  yes, delete \n", "yes, delete"), DeleteDecision::Confirmed);
    assert_eq!(decide_delete(f, "Yes, delete", "yes, delete"), DeleteDecision::ReAuthPrompt);
    assert_eq!(decide_delete(f, "no", "yes, delete"), DeleteDecision::ReAuthPrompt);
}

#[test]
fn confirmation_trims_surrounding_whitespace_only() {
    assert!(confirm_matches("delete", "delete"));
    assert!(confirm_matches("  delete\t", "delete"));
    assert!(!confirm_matches("del ete", "delete"));
    assert!(!confirm_matches("Delete", "delete"));
    assert!(!confirm_matches("", "delete"));
    assert!(confirm_matches("   ", ""));
}
