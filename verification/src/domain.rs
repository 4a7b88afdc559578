//! Stored domain types, and the two values every note is stamped with: its
//! content hash and its id.
//!
//! This module holds facts only. The knowledge state of a note is derived from
//! those facts in [`crate::note_state`], never stored here.
//!
//! Instants are nanoseconds since the Unix epoch, UTC.

use vstd::prelude::*;

use sha2::{Digest, Sha256};
use vstd::utf8::encode_utf8;

use crate::note_state::{spec_flags, NoteFlags};
use crate::text::{chars_of, hex_digit, hex_lower, hex_lower_exec, string_of, trim, trim_chars};

verus! {

/// Long and atomic are the same entity at different stages, not different
/// types. An atomic note is one concept plus its explanation.
#[derive(Debug, Clone, Copy, PartialEq, Eq, Structural)]
pub enum NoteKind {
    Long,
    Atomic,
}

/// The stored facts a note's knowledge state is derived from. Nothing here is
/// a status.
#[derive(Debug, Clone)]
pub struct Note {
    pub id: String,
    pub kind: NoteKind,
    pub title: String,
    /// One line describing the concept.
    pub summary: String,
    pub body_json: String,
    /// Rendered HTML, so the document view can show real formatting.
    pub body_html: String,
    /// Plaintext projection. Search reads this, and the hash is taken over it.
    pub body_text: String,
    pub content_hash: String,
    /// When it first became a written note rather than a bare capture.
    pub distilled_at: Option<i128>,
    /// Last blind reproduction.
    pub last_recall_at: Option<i128>,
    /// Last Contrast step: the source revealed and compared.
    pub last_checked_at: Option<i128>,
    /// When a review last failed.
    pub last_recall_failed_at: Option<i128>,
    /// Last ordinary edit. A blind rewrite deliberately does not touch this.
    pub content_edited_at: Option<i128>,
    /// Content hash at the moment of the last recall that counted.
    pub content_hash_at_recall: Option<String>,
    /// The long note this one was distilled from, when there is one.
    pub source_note_id: Option<String>,
    /// The day this note is the page for, when it is one.
    pub journal_day: Option<String>,
    pub created_at: i128,
    pub updated_at: i128,
}

/// A note plus both derived axes, which is what the interface consumes.
#[derive(Debug, Clone)]
pub struct NoteView {
    pub note: Note,
    pub flags: NoteFlags,
}

impl NoteView {
    pub fn of(note: Note) -> (res: NoteView)
        ensures
            res.note == note,
            res.flags == spec_flags(note),
    {
        let flags = note.flags();
        NoteView { note, flags }
    }
}

/// Where a question came from. This *is* its priority.
#[derive(Debug, Clone, Copy, PartialEq, Eq, Structural)]
pub enum QuestionOrigin {
    /// Found while reconstructing a topic from memory. Outranks everything.
    RecallGap,
    /// A card you failed in review.
    ReviewFailure,
    /// Anything captured without the system observing a gap.
    Capture,
}

impl QuestionOrigin {
    pub open spec fn spec_rank(self) -> int {
        match self {
            QuestionOrigin::RecallGap => 0,
            QuestionOrigin::ReviewFailure => 1,
            QuestionOrigin::Capture => 2,
        }
    }

    /// Lower sorts first. Ordering is by origin, never by date.
    pub fn rank(self) -> (res: i64)
        ensures
            res == self.spec_rank(),
    {
        match self {
            QuestionOrigin::RecallGap => 0,
            QuestionOrigin::ReviewFailure => 1,
            QuestionOrigin::Capture => 2,
        }
    }
}

#[derive(Debug, Clone, Copy, PartialEq, Eq, Structural)]
pub enum QuestionStatus {
    Open,
    Investigating,
    /// Requires a linked answer note.
    Resolved,
    /// One click, no confirmation.
    Abandoned,
    /// The question turned out to rest on a wrong premise.
    Dissolved,
}

#[derive(Debug, Clone)]
pub struct Question {
    pub id: String,
    pub text: String,
    pub status: QuestionStatus,
    pub origin: QuestionOrigin,
    pub topic_id: Option<String>,
    pub source_note_id: Option<String>,
    pub answer_note_id: Option<String>,
    pub created_at: i128,
    pub updated_at: i128,
}

#[derive(Debug, Clone)]
pub struct Topic {
    pub id: String,
    pub title: String,
    /// Presentation only. Never gates reviewability.
    pub study: bool,
    pub created_at: i128,
    pub updated_at: i128,
    pub last_visited_at: i128,
}

#[derive(Debug, Clone, Copy, PartialEq, Eq, Structural)]
pub enum CanvasNodeKind {
    Note,
    Ink,
    Image,
    Pdf,
    /// A whole topic, appearing as an object on another topic's canvas.
    Topic,
    /// Loose text written straight onto the board.
    Text,
    /// A page on the web.
    Link,
    /// An open question, placed beside the cards that might answer it.
    Question,
}

/// A drawn pointer from one canvas node to another.
#[derive(Debug, Clone)]
pub struct CanvasEdge {
    pub id: String,
    pub topic_id: String,
    pub source_id: String,
    pub target_id: String,
    /// Usually empty.
    pub label: String,
    pub created_at: i128,
}

/// The SHA-256 digest of `data`, as computed by the `sha2` crate.
pub uninterp spec fn spec_sha256(data: Seq<u8>) -> Seq<u8>;

/// Calls `sha2::Sha256::digest`. Trusted to return the SHA-256 digest of the
/// bytes, named `spec_sha256`, which is 32 bytes long; nothing more about the
/// digest is stated.
#[verifier::external_body]
fn sha256(data: &[u8]) -> (res: Vec<u8>)
    ensures
        res@ == spec_sha256(data@),
        res@.len() == 32,
{
    Sha256::digest(data).to_vec()
}

/// The content hash of a body: lowercase hex of the SHA-256 of the UTF-8 bytes
/// of the trimmed plaintext.
pub open spec fn spec_content_hash(body_text: Seq<char>) -> Seq<char> {
    hex_lower(spec_sha256(encode_utf8(trim(body_text))))
}

/// Two lowercase hex digits for each byte.
proof fn lemma_hex_lower(b: Seq<u8>)
    ensures
        hex_lower(b).len() == 2 * b.len(),
        forall|i: int| 0 <= i < hex_lower(b).len() ==> is_lower_hex(#[trigger] hex_lower(b)[i]),
    decreases b.len(),
{
    if b.len() > 0 {
        lemma_hex_lower(b.drop_last());
        let hi = b.last() / 16;
        let lo = b.last() % 16;
        assert(is_lower_hex(hex_digit(hi)));
        assert(is_lower_hex(hex_digit(lo)));
        let prev = hex_lower(b.drop_last());
        assert forall|i: int| 0 <= i < hex_lower(b).len() implies is_lower_hex(#[trigger] hex_lower(b)[i]) by {
            if i < prev.len() {
                assert(hex_lower(b)[i] == prev[i]);
            }
        }
    }
}

/// Hash taken over the plaintext projection, so that reformatting alone never
/// invalidates a recall: 64 lowercase hex digits.
pub fn content_hash(body_text: &str) -> (res: String)
    ensures
        res@ == spec_content_hash(body_text@),
        res@.len() == 64,
        forall|i: int| 0 <= i < 64 ==> is_lower_hex(#[trigger] res@[i]),
{
    let chars = chars_of(body_text);
    let trimmed = trim_chars(&chars);
    let trimmed_text = string_of(&trimmed);
    let bytes = trimmed_text.as_str().as_bytes();
    let digest = sha256(bytes);
    proof {
        lemma_hex_lower(digest@);
    }
    hex_lower_exec(&digest)
}

/// A lowercase hexadecimal digit.
pub open spec fn is_lower_hex(c: char) -> bool {
    ('0' <= c && c <= '9') || ('a' <= c && c <= 'f')
}

/// The hyphenated lowercase text form of a UUID: 36 characters, hyphens at 8,
/// 13, 18 and 23, lowercase hex everywhere else.
pub open spec fn is_uuid_text(s: Seq<char>) -> bool {
    &&& s.len() == 36
    &&& forall|i: int|
        0 <= i < 36 ==> if i == 8 || i == 13 || i == 18 || i == 23 {
            #[trigger] s[i] == '-'
        } else {
            is_lower_hex(s[i])
        }
}

/// A fresh random id.
///
/// Calls `uuid::Uuid::new_v4` and formats it with `to_string`. Trusted to give
/// the hyphenated lowercase form, which uuid's `Display` writes; which random
/// id comes back is not stated.
#[verifier::external_body]
pub fn new_id() -> (res: String)
    ensures
        is_uuid_text(res@),
{
    uuid::Uuid::new_v4().to_string()
}

} // verus!
