//! Tags.
//!
//! A classification you apply on purpose. Uniqueness is on the Spanish fold
//! rather than the raw name, so `Localización` and `localizacion` are one tag,
//! while `año` and `ano` stay two, because they are different words.

use vstd::prelude::*;

use crate::domain::{is_uuid_text, new_id};
use crate::error::{invalid, is_invalid, AppError};
use crate::note_state::{fold_es, fold_seq};
use crate::text::{chars_of, string_of, trim, trim_chars};

verus! {

#[derive(Debug, Clone)]
pub struct Tag {
    pub id: String,
    pub name: String,
    /// The Spanish fold of the name: what makes two names one tag.
    pub fold: String,
    pub created_at: i128,
}

/// The key a tag is found by: the fold of its trimmed name, or nothing for a
/// name that is only whitespace.
pub fn tag_key(name: &str) -> (res: Option<String>)
    ensures
        trim(name@).len() == 0 ==> res is None,
        trim(name@).len() != 0 ==> (res matches Some(k) && k@ == fold_seq(trim(name@))),
{
    let trimmed = trim_chars(&chars_of(name));
    if trimmed.len() == 0 {
        return None;
    }
    let t = string_of(&trimmed);
    Some(fold_es(t.as_str()))
}

/// Finds or creates a tag by name, given the tag already stored under the
/// name's key, if any. Idempotent, so attaching the same tag twice under
/// different capitalisation does not produce a second one.
pub fn ensure(name: &str, existing: Option<Tag>, now: i128) -> (res: Result<Tag, AppError>)
    ensures
        trim(name@).len() == 0 ==> (res matches Err(e) && is_invalid(e, "a tag needs a name"@)),
        trim(name@).len() != 0 ==> (match existing {
            Some(t) => res == Ok::<Tag, AppError>(t),
            None => res matches Ok(t) && {
                &&& is_uuid_text(t.id@)
                &&& t.name@ == trim(name@)
                &&& t.fold@ == fold_seq(trim(name@))
                &&& t.created_at == now
            },
        }),
{
    let trimmed = trim_chars(&chars_of(name));
    if trimmed.len() == 0 {
        return Err(invalid("a tag needs a name"));
    }
    match existing {
        Some(t) => Ok(t),
        None => {
            let name = string_of(&trimmed);
            let fold = fold_es(name.as_str());
            Ok(Tag { id: new_id(), name, fold, created_at: now })
        },
    }
}

} // verus!
