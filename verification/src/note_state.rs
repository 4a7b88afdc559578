//! The two axes of a note's knowledge state.
//!
//! Everything here is derived from stored facts. Nothing in this module is
//! written to the database, which is why there are no illegal transitions to
//! guard and no way for a note to get stuck.

use vstd::prelude::*;

use crate::domain::Note;
use crate::text::{ascii_lower, ascii_lower_seq, chars_of, contains, contains_chars, occurs_at, string_of};

verus! {

/// A recall made within this many hours of an ordinary edit is recorded, but
/// does not clear [`RecallState::EditedSinceRecall`].
pub const RECALL_COOLING_HOURS: i64 = 24;

/// [`RECALL_COOLING_HOURS`] in nanoseconds.
pub const RECALL_COOLING_NANOS: i128 = 86_400_000_000_000;

/// Axis 1. Exactly one of these is true at any moment.
#[derive(Debug, Clone, Copy, PartialEq, Eq, Structural)]
pub enum RecallState {
    /// Captured, never written into.
    Raw,
    /// Written with the source visible.
    Draft,
    /// Reproduced blind, and unchanged since.
    Recalled,
    /// The body changed after the recall that produced it.
    EditedSinceRecall,
    /// Recalled once, then failed in review.
    Failing,
}

impl RecallState {
    /// The state names something to do.
    pub open spec fn spec_needs_action(self) -> bool {
        self == RecallState::EditedSinceRecall || self == RecallState::Failing
    }

    /// The state is rendered at all.
    pub open spec fn spec_is_visible(self) -> bool {
        !(self == RecallState::Raw || self == RecallState::Draft)
    }

    pub open spec fn spec_may_enter_document(self) -> bool {
        self != RecallState::Raw
    }

    pub open spec fn spec_may_review(self) -> bool {
        self == RecallState::Recalled || self == RecallState::Failing || self
            == RecallState::EditedSinceRecall
    }

    /// The word shown on the card.
    pub fn label(self) -> (res: &'static str)
        ensures
            self == RecallState::Raw ==> res@ == "not distilled"@,
            self == RecallState::Draft ==> res@ == "draft"@,
            self == RecallState::Recalled ==> res@ == "recalled"@,
            self == RecallState::EditedSinceRecall ==> res@ == "edited since recall"@,
            self == RecallState::Failing ==> res@ == "failing"@,
    {
        match self {
            RecallState::Raw => "not distilled",
            RecallState::Draft => "draft",
            RecallState::Recalled => "recalled",
            RecallState::EditedSinceRecall => "edited since recall",
            RecallState::Failing => "failing",
        }
    }

    /// Whether the state names something to do.
    pub fn needs_action(self) -> (res: bool)
        ensures
            res == self.spec_needs_action(),
    {
        match self {
            RecallState::EditedSinceRecall | RecallState::Failing => true,
            _ => false,
        }
    }

    /// Whether this state is rendered at all: a note that has never been
    /// reproduced from memory says nothing about memory.
    pub fn is_visible(self) -> (res: bool)
        ensures
            res == self.spec_is_visible(),
    {
        match self {
            RecallState::Raw | RecallState::Draft => false,
            _ => true,
        }
    }

    /// A raw note has no worked body, so it never enters a document.
    pub fn may_enter_document(self) -> (res: bool)
        ensures
            res == self.spec_may_enter_document(),
    {
        match self {
            RecallState::Raw => false,
            _ => true,
        }
    }

    /// A card exists exactly when the note has been reproduced blind.
    pub fn may_review(self) -> (res: bool)
        ensures
            res == self.spec_may_review(),
    {
        match self {
            RecallState::Recalled | RecallState::Failing | RecallState::EditedSinceRecall => true,
            _ => false,
        }
    }
}

/// Both axes, computed together.
#[derive(Debug, Clone, Copy, PartialEq, Eq, Structural)]
pub struct NoteFlags {
    pub state: RecallState,
    /// False for notes that never attempted memory.
    pub visible: bool,
    /// Axis 2: reproduced from memory but never contrasted against a source.
    pub never_contrasted: bool,
}

/// Axis 1, as a function of the stored facts.
///
/// `failing` outranks `edited since recall`; both are superseded by a newer
/// recall.
pub open spec fn spec_recall_state(n: Note) -> RecallState {
    match n.last_recall_at {
        None => if n.distilled_at is Some {
            RecallState::Draft
        } else {
            RecallState::Raw
        },
        Some(recalled_at) => if n.last_recall_failed_at matches Some(failed_at) && failed_at
            > recalled_at {
            RecallState::Failing
        } else if !(n.content_hash_at_recall matches Some(h) && h@ == n.content_hash@) {
            RecallState::EditedSinceRecall
        } else {
            RecallState::Recalled
        },
    }
}

/// Axis 2, as a function of the stored facts.
pub open spec fn spec_never_contrasted(n: Note) -> bool {
    n.last_recall_at is Some && n.last_checked_at is None
}

pub open spec fn spec_flags(n: Note) -> NoteFlags {
    NoteFlags {
        state: spec_recall_state(n),
        visible: spec_recall_state(n).spec_is_visible(),
        never_contrasted: spec_never_contrasted(n),
    }
}

/// A recall at `at` is within the cooling window of the last ordinary edit.
pub open spec fn spec_recall_is_cooling(n: Note, at: i128) -> bool {
    n.content_edited_at matches Some(edited) && at - edited < RECALL_COOLING_NANOS
}

impl Note {
    /// Axis 1.
    pub fn recall_state(&self) -> (res: RecallState)
        ensures
            res == spec_recall_state(*self),
    {
        let recalled_at = match self.last_recall_at {
            None => {
                return match self.distilled_at {
                    Some(_) => RecallState::Draft,
                    None => RecallState::Raw,
                };
            },
            Some(r) => r,
        };
        if let Some(failed_at) = self.last_recall_failed_at {
            if failed_at > recalled_at {
                return RecallState::Failing;
            }
        }
        let unchanged = match &self.content_hash_at_recall {
            Some(h) => *h == self.content_hash,
            None => false,
        };
        if !unchanged {
            return RecallState::EditedSinceRecall;
        }
        RecallState::Recalled
    }

    /// Axis 2. Only meaningful once something has been recalled.
    pub fn never_contrasted(&self) -> (res: bool)
        ensures
            res == spec_never_contrasted(*self),
    {
        self.last_recall_at.is_some() && self.last_checked_at.is_none()
    }

    pub fn flags(&self) -> (res: NoteFlags)
        ensures
            res == spec_flags(*self),
    {
        let state = self.recall_state();
        NoteFlags { state, visible: state.is_visible(), never_contrasted: self.never_contrasted() }
    }

    /// True when a recall recorded at `at` is too close to the last ordinary
    /// edit to count as knowledge.
    pub fn recall_is_cooling(&self, at: i128) -> (res: bool)
        ensures
            res == spec_recall_is_cooling(*self, at),
    {
        match self.content_edited_at {
            None => false,
            Some(edited) => {
                if edited > i128::MAX - RECALL_COOLING_NANOS {
                    true
                } else {
                    at < edited + RECALL_COOLING_NANOS
                }
            },
        }
    }
}

/// The accent fold applied before lowercasing: the five accented vowels lose
/// their accent; `ñ` and `ü` are left standing.
pub open spec fn fold_char(c: char) -> char {
    if c == 'á' || c == 'à' || c == 'ä' || c == 'â' {
        'a'
    } else if c == 'é' || c == 'è' || c == 'ë' || c == 'ê' {
        'e'
    } else if c == 'í' || c == 'ì' || c == 'ï' || c == 'î' {
        'i'
    } else if c == 'ó' || c == 'ò' || c == 'ö' || c == 'ô' {
        'o'
    } else if c == 'ú' || c == 'ù' || c == 'û' {
        'u'
    } else if c == 'Á' || c == 'À' || c == 'Ä' || c == 'Â' {
        'A'
    } else if c == 'É' || c == 'È' || c == 'Ë' || c == 'Ê' {
        'E'
    } else if c == 'Í' || c == 'Ì' || c == 'Ï' || c == 'Î' {
        'I'
    } else if c == 'Ó' || c == 'Ò' || c == 'Ö' || c == 'Ô' {
        'O'
    } else if c == 'Ú' || c == 'Ù' || c == 'Û' {
        'U'
    } else {
        c
    }
}

/// The Unicode lowercase mapping of one character, as `char::to_lowercase`
/// yields it.
pub uninterp spec fn spec_char_lowercase(c: char) -> Seq<char>;

/// Calls `char::to_lowercase`. Trusted to yield the Unicode lowercase mapping,
/// named `spec_char_lowercase`; of that mapping only these facts are stated:
/// an ASCII letter lowercases to its ASCII lowercase letter, any other ASCII
/// character and `ñ` (which has no lowercase mapping) yield themselves.
#[verifier::external_body]
fn char_lowercase(c: char) -> (res: Vec<char>)
    ensures
        res@ == spec_char_lowercase(c),
        (c as u32) < 128 ==> res@ == seq![ascii_lower(c)],
        c == 'ñ' ==> res@ == seq!['ñ'],
{
    c.to_lowercase().collect()
}

/// The lowercase mapping of one character after the accent fold: ASCII
/// letters by ASCII lowercasing, `ñ` unchanged, any other character by its
/// Unicode lowercase mapping.
pub open spec fn lower_of(c: char) -> Seq<char> {
    if (c as u32) < 128 {
        seq![ascii_lower(c)]
    } else if c == 'ñ' {
        seq!['ñ']
    } else {
        spec_char_lowercase(c)
    }
}

/// `fold_es` on a sequence of characters.
pub open spec fn fold_seq(s: Seq<char>) -> Seq<char>
    decreases s.len(),
{
    if s.len() == 0 {
        Seq::empty()
    } else {
        fold_seq(s.drop_last()) + lower_of(fold_char(s.last()))
    }
}

fn fold_char_exec(c: char) -> (res: char)
    ensures
        res == fold_char(c),
{
    match c {
        'á' | 'à' | 'ä' | 'â' => 'a',
        'é' | 'è' | 'ë' | 'ê' => 'e',
        'í' | 'ì' | 'ï' | 'î' => 'i',
        'ó' | 'ò' | 'ö' | 'ô' => 'o',
        'ú' | 'ù' | 'û' => 'u',
        'Á' | 'À' | 'Ä' | 'Â' => 'A',
        'É' | 'È' | 'Ë' | 'Ê' => 'E',
        'Í' | 'Ì' | 'Ï' | 'Î' => 'I',
        'Ó' | 'Ò' | 'Ö' | 'Ô' => 'O',
        'Ú' | 'Ù' | 'Û' => 'U',
        other => other,
    }
}

fn fold_chars(s: &Vec<char>) -> (res: Vec<char>)
    ensures
        res@ == fold_seq(s@),
{
    let mut out: Vec<char> = Vec::new();
    let mut i: usize = 0;
    while i < s.len()
        invariant
            i <= s@.len(),
            out@ == fold_seq(s@.subrange(0, i as int)),
        decreases s.len() - i,
    {
        let lower = char_lowercase(fold_char_exec(s[i]));
        assert(lower@ == lower_of(fold_char(s@[i as int])));
        let mut k: usize = 0;
        let ghost before = out@;
        while k < lower.len()
            invariant
                k <= lower@.len(),
                out@ == before + lower@.subrange(0, k as int),
            decreases lower.len() - k,
        {
            out.push(lower[k]);
            k = k + 1;
            assert(out@ =~= before + lower@.subrange(0, k as int));
        }
        assert(lower@.subrange(0, lower@.len() as int) =~= lower@);
        assert(s@.subrange(0, i + 1).drop_last() =~= s@.subrange(0, i as int));
        i = i + 1;
    }
    assert(s@.subrange(0, s@.len() as int) =~= s@);
    out
}

/// Folds Spanish text for matching: search and deduplication only.
///
/// Only the five accented vowels are folded, and `ñ`/`ü` are left standing, so
/// `año` never collapses into `ano`.
pub fn fold_es(input: &str) -> (res: String)
    ensures
        res@ == fold_seq(input@),
{
    let chars = chars_of(input);
    let folded = fold_chars(&chars);
    string_of(&folded)
}

/// Case- and accent-insensitive containment, for search boxes.
pub open spec fn spec_matches_es(haystack: Seq<char>, needle: Seq<char>) -> bool {
    contains(fold_seq(haystack), fold_seq(needle))
}

pub fn matches_es(haystack: &str, needle: &str) -> (res: bool)
    ensures
        res == spec_matches_es(haystack@, needle@),
{
    let h = fold_chars(&chars_of(haystack));
    let n = fold_chars(&chars_of(needle));
    contains_chars(&h, &n)
}

/// Only two states carry colour, and every visible state is either one of
/// them or `recalled`.
pub proof fn law_visible_is_coloured_or_recalled(s: RecallState)
    ensures
        s.spec_is_visible() == (s == RecallState::Recalled || s.spec_needs_action()),
{
}

/// A card exists exactly for the states that are shown: those of a note that
/// has been reproduced blind.
pub proof fn law_card_exists_iff_visible(s: RecallState)
    ensures
        s.spec_may_review() == s.spec_is_visible(),
{
}

/// Visibility tracks whether a recall was ever attempted.
pub proof fn law_visible_iff_recall_attempted(n: Note)
    ensures
        spec_flags(n).visible == (n.last_recall_at is Some),
{
}

/// An unrecalled note is never marked as uncontrasted.
pub proof fn law_uncontrasted_only_after_recall(n: Note)
    ensures
        spec_flags(n).never_contrasted ==> n.last_recall_at is Some,
{
}

/// Nothing decays with time, and contrast is a separate axis: the recall
/// state depends only on the recall, failure and distillation events and on
/// whether the content still hashes as it did at the recall. Two notes that
/// agree on those are in the same state, whatever their other timestamps
/// (creation, update, last edit, last contrast) say.
pub proof fn law_state_depends_only_on_recall_events(a: Note, b: Note)
    requires
        a.last_recall_at == b.last_recall_at,
        a.distilled_at == b.distilled_at,
        a.last_recall_failed_at == b.last_recall_failed_at,
        a.content_hash@ == b.content_hash@,
        a.content_hash_at_recall.is_some() == b.content_hash_at_recall.is_some(),
        a.content_hash_at_recall.is_some() ==> a.content_hash_at_recall.unwrap()@
            == b.content_hash_at_recall.unwrap()@,
    ensures
        spec_recall_state(a) == spec_recall_state(b),
{
}

/// Folding distributes over concatenation.
pub proof fn lemma_fold_concat(a: Seq<char>, b: Seq<char>)
    ensures
        fold_seq(a + b) == fold_seq(a) + fold_seq(b),
    decreases b.len(),
{
    if b.len() == 0 {
        assert(a + b =~= a);
        assert(fold_seq(a) + fold_seq(b) =~= fold_seq(a));
    } else {
        lemma_fold_concat(a, b.drop_last());
        assert((a + b).drop_last() =~= a + b.drop_last());
        assert((a + b).last() == b.last());
        assert(fold_seq(a + b) =~= fold_seq(a) + fold_seq(b));
    }
}

proof fn lemma_fold_single(c: char)
    ensures
        fold_seq(seq![c]) == lower_of(fold_char(c)),
{
    assert(seq![c].drop_last() =~= Seq::<char>::empty());
    assert(fold_seq(Seq::<char>::empty()) =~= Seq::<char>::empty());
    assert(seq![c].last() == c);
    assert(Seq::<char>::empty() + lower_of(fold_char(c)) =~= lower_of(fold_char(c)));
}

proof fn lemma_fold_around(a: Seq<char>, c: char, b: Seq<char>)
    ensures
        fold_seq(a + seq![c] + b) == fold_seq(a) + lower_of(fold_char(c)) + fold_seq(b),
{
    lemma_fold_concat(a + seq![c], b);
    lemma_fold_concat(a, seq![c]);
    lemma_fold_single(c);
}

/// `ñ` is never stripped to `n`: wherever it stands it folds to itself, so
/// `año` and `ano` fold apart.
pub proof fn law_fold_keeps_the_enye(a: Seq<char>, b: Seq<char>)
    ensures
        fold_seq(a + seq!['ñ'] + b) == fold_seq(a) + seq!['ñ'] + fold_seq(b),
{
    lemma_fold_around(a, 'ñ', b);
}

/// An accented vowel folds exactly as its plain vowel does, wherever it
/// stands: `localización` and `localizacion` fold alike.
pub proof fn law_fold_drops_accents(a: Seq<char>, c: char, b: Seq<char>)
    ensures
        fold_seq(a + seq![c] + b) == fold_seq(a + seq![fold_char(c)] + b),
{
    lemma_fold_around(a, c, b);
    lemma_fold_around(a, fold_char(c), b);
    assert(fold_char(fold_char(c)) == fold_char(c));
}

/// Every text matches itself, and the empty query matches every text.
pub proof fn law_matches_itself_and_empty_query(h: Seq<char>)
    ensures
        spec_matches_es(h, h),
        spec_matches_es(h, Seq::empty()),
{
    assert(fold_seq(h).subrange(0, fold_seq(h).len() as int) =~= fold_seq(h));
    assert(occurs_at(fold_seq(h), fold_seq(h), 0));
    assert(fold_seq(Seq::<char>::empty()) =~= Seq::<char>::empty());
    assert(fold_seq(h).subrange(0, 0) =~= Seq::<char>::empty());
    assert(occurs_at(fold_seq(h), fold_seq(Seq::<char>::empty()), 0));
}

/// Two characters that agree but for ASCII case fold alike.
proof fn lemma_case_of_one(c: char, d: char)
    requires
        ascii_lower(c) == ascii_lower(d),
    ensures
        lower_of(fold_char(c)) == lower_of(fold_char(d)),
{
    if (c as u32) < 128 && (d as u32) < 128 {
        assert(fold_char(c) == c);
        assert(fold_char(d) == d);
    } else if (c as u32) < 128 {
        assert(ascii_lower(d) == d);
        assert((ascii_lower(c) as u32) < 128);
    } else if (d as u32) < 128 {
        assert(ascii_lower(c) == c);
        assert((ascii_lower(d) as u32) < 128);
    } else {
        assert(c == d);
    }
}

/// Texts that agree but for ASCII case fold alike.
proof fn lemma_case_of_text(h: Seq<char>, h2: Seq<char>)
    requires
        ascii_lower_seq(h) == ascii_lower_seq(h2),
    ensures
        fold_seq(h) == fold_seq(h2),
    decreases h.len(),
{
    assert(h.len() == ascii_lower_seq(h).len() && h2.len() == ascii_lower_seq(h2).len());
    if h.len() > 0 {
        let k = h.len() - 1;
        assert(ascii_lower_seq(h)[k] == ascii_lower(h[k]));
        assert(ascii_lower_seq(h2)[k] == ascii_lower(h2[k]));
        assert(ascii_lower_seq(h.drop_last()) =~= ascii_lower_seq(h).drop_last());
        assert(ascii_lower_seq(h2.drop_last()) =~= ascii_lower_seq(h2).drop_last());
        lemma_case_of_text(h.drop_last(), h2.drop_last());
        lemma_case_of_one(h.last(), h2.last());
    }
}

/// ASCII case never changes a match: texts that agree but for ASCII case
/// fold alike and match alike, whatever else they hold.
/// `matches_es("Árbol de decisión", "ARBOL")` answers as `"arbol"` would.
pub proof fn law_ascii_case_never_changes_a_match(h: Seq<char>, h2: Seq<char>, n: Seq<char>, n2: Seq<char>)
    requires
        ascii_lower_seq(h) == ascii_lower_seq(h2),
        ascii_lower_seq(n) == ascii_lower_seq(n2),
    ensures
        fold_seq(h) == fold_seq(h2),
        fold_seq(n) == fold_seq(n2),
        spec_matches_es(h, n) == spec_matches_es(h2, n2),
{
    lemma_case_of_text(h, h2);
    lemma_case_of_text(n, n2);
}

/// A recall is cooling for exactly one day, 86 400 seconds in nanoseconds,
/// after the last ordinary edit, and never for a note that was never edited.
pub proof fn law_the_cooling_window_is_one_day(n: Note, at: i128)
    ensures
        spec_recall_is_cooling(n, at) == (n.content_edited_at is Some && at
            - n.content_edited_at.unwrap() < 86_400_000_000_000),
{
}

/// The five vowels lose their accent, grave, acute, circumflex or diaeresis
/// alike (`ü` keeps its diaeresis), and upper-case vowels fold to the same
/// lower-case vowel; `ñ`, `Ñ` and `ü` keep their marks.
pub proof fn law_each_accented_vowel_folds_to_its_vowel(c: char)
    ensures
        (c == 'á' || c == 'à' || c == 'ä' || c == 'â' || c == 'Á' || c == 'À' || c == 'Ä' || c
            == 'Â') ==> fold_seq(seq![c]) == seq!['a'],
        (c == 'é' || c == 'è' || c == 'ë' || c == 'ê' || c == 'É' || c == 'È' || c == 'Ë' || c
            == 'Ê') ==> fold_seq(seq![c]) == seq!['e'],
        (c == 'í' || c == 'ì' || c == 'ï' || c == 'î' || c == 'Í' || c == 'Ì' || c == 'Ï' || c
            == 'Î') ==> fold_seq(seq![c]) == seq!['i'],
        (c == 'ó' || c == 'ò' || c == 'ö' || c == 'ô' || c == 'Ó' || c == 'Ò' || c == 'Ö' || c
            == 'Ô') ==> fold_seq(seq![c]) == seq!['o'],
        (c == 'ú' || c == 'ù' || c == 'û' || c == 'Ú' || c == 'Ù' || c == 'Û') ==> fold_seq(
            seq![c],
        ) == seq!['u'],
        fold_seq(seq!['ñ']) == seq!['ñ'],
        fold_char('Ñ') == 'Ñ',
        fold_char('ü') == 'ü',
        fold_char('Ü') == 'Ü',
{
    lemma_fold_single(c);
    lemma_fold_single('ñ');
}

} // verus!
