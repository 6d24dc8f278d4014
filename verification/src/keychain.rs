//! The Gemini key's place in the OS keychain, and what is stored and
//! reported there.  Reading and writing the keychain is the caller's.
use vstd::prelude::*;

use crate::text::{trim, trim_str};

verus! {

/// The keychain service the key is stored under.
pub const SERVICE: &'static str = "llm-wiki";

/// The keychain entry that holds the key.
pub const KEY_NAME: &'static str = "llm-wiki-gemini-key";

/// The key as it is stored: trimmed; a blank key is refused and nothing is
/// stored.
pub fn key_to_store(key: &str) -> (r: Result<String, String>)
    ensures
        match r {
            Ok(k) => trim(key@).len() > 0 && k@ == trim(key@),
            Err(e) => trim(key@).len() == 0 && e@ == crate::gemini::EMPTY_KEY@,
        },
{
    crate::gemini::supplied_key(key)
}

/// A key is present when the keychain holds one that is not blank; a
/// keychain that cannot be read holds none.
pub fn key_present(stored: Option<&str>) -> (b: bool)
    ensures
        b == (match stored {
            Some(k) => trim(k@).len() > 0,
            None => false,
        }),
{
    match stored {
        Some(k) => {
            let t = trim_str(k);
            !t.as_str().is_empty()
        },
        None => false,
    }
}

/// Law: a key accepted for storage is reported present once stored: what
/// is stored is the trimmed key, which is not blank.
pub proof fn lemma_stored_key_present(key: Seq<char>)
    requires
        trim(key).len() > 0,
    ensures
        trim(trim(key)).len() > 0,
{
    crate::text::lemma_trim_idempotent(key, crate::text::CharClass::Whitespace);
}

} // verus!
