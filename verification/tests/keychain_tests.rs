use llm_wiki::keychain::{key_present, key_to_store, KEY_NAME, SERVICE};

#[test]
fn stored_key_is_trimmed_and_reported_present() {
    let stored = key_to_store("  AIza-key \n").unwrap();
    assert_eq!(stored, "AIza-key");
    assert!(key_present(Some(&stored)));
}

#[test]
fn blank_key_is_refused_and_blank_is_absent() {
    assert_eq!(key_to_store("   ").unwrap_err(), "API key must not be empty");
    assert!(!key_present(Some(" \t")));
    assert!(!key_present(None));
}

#[test]
fn keychain_entry_names() {
    assert_eq!(SERVICE, "llm-wiki");
    assert_eq!(KEY_NAME, "llm-wiki-gemini-key");
}
