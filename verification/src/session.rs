//! Decisions around accounts and saved characters: what the login page does
//! once a login answers, which row a save writes, and character page links.
use vstd::prelude::*;
use crate::text::push_str;

verus! {

/// What the login page does after a login attempt answered.
#[derive(PartialEq, Eq, Structural, Clone, Copy)]
pub enum AfterLogin {
    /// Nothing to do (the login failed, or there is no current-user lookup).
    Stay,
    /// The current user is known: go to the home page.
    GoHome,
    /// Ask for the current user again before leaving the page.
    RefetchUser,
}

/// After a login attempt: stay unless it succeeded; with no current-user
/// lookup to wait for, stay; once the lookup shows a signed-in user, go
/// home; until then, refetch it (`user_signed_in`: `None` without a lookup).
pub fn after_login(succeeded: bool, user_signed_in: Option<bool>) -> (r: AfterLogin)
    ensures
        r == (if !succeeded {
            AfterLogin::Stay
        } else {
            match user_signed_in {
                None => AfterLogin::Stay,
                Some(true) => AfterLogin::GoHome,
                Some(false) => AfterLogin::RefetchUser,
            }
        }),
{
    if !succeeded {
        return AfterLogin::Stay;
    }
    match user_signed_in {
        None => AfterLogin::Stay,
        Some(true) => AfterLogin::GoHome,
        Some(false) => AfterLogin::RefetchUser,
    }
}

/// Where a validated save goes.
pub enum SaveTarget {
    /// A new character: it gets a fresh id and the signed-in user as owner.
    Create,
    /// An existing character of the signed-in user, owned by `owner`.
    Update { owner: String },
    /// The id names no character of the signed-in user.
    NotFound,
}

/// The target of a save: a new character when the id is empty, else the
/// signed-in user's existing character (`existing_owner`: its owner, looked
/// up among that user's characters), or not found.
pub fn save_target(character_id: &str, existing_owner: Option<String>) -> (r: SaveTarget)
    ensures
        character_id@.len() == 0 ==> r is Create,
        character_id@.len() > 0 ==> match existing_owner {
            Some(o) => r matches SaveTarget::Update { owner } && owner == o,
            None => r is NotFound,
        },
{
    if character_id.unicode_len() == 0 {
        SaveTarget::Create
    } else {
        match existing_owner {
            Some(owner) => SaveTarget::Update { owner },
            None => SaveTarget::NotFound,
        }
    }
}

/// The text of the not-found refusal.
pub fn not_found_message() -> (r: &'static str)
    ensures
        r@ == "character not found"@,
{
    "character not found"
}

/// Link to a character's sheet (`"/characters/<id>"`) or its editor
/// (`"/characters/<id>/edit"`).
pub fn character_href(id: &str, edit: bool) -> (r: String)
    ensures
        r@ == "/characters/"@ + id@ + (if edit { "/edit"@ } else { seq![] }),
{
    let mut s = String::new();
    push_str(&mut s, "/characters/");
    push_str(&mut s, id);
    if edit {
        push_str(&mut s, "/edit");
    }
    proof {
        assert(s@ =~= "/characters/"@ + id@ + (if edit { "/edit"@ } else { seq![] }));
    }
    s
}

} // verus!
