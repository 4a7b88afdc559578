//! Files you brought in: images and PDFs.
//!
//! An asset is not a note. It carries no title, no knowledge state and no
//! card, and it never enters review. The file is copied into the app's own
//! directory and named by its id, so the name a file arrived with can be anything at
//! all, including the name of something already there.

use vstd::prelude::*;

use crate::domain::{is_uuid_text, new_id, CanvasNodeKind};
use crate::error::{is_invalid, AppError};
use crate::text::{ascii_lower_chars, ascii_lower_seq, chars_of, push_range, string_of};

verus! {

#[derive(Debug, Clone, Copy, PartialEq, Eq, Structural)]
pub enum AssetKind {
    Image,
    Pdf,
}

/// The name of the directory copies live in.
pub open spec fn assets_name() -> Seq<char> {
    seq!['a', 's', 's', 'e', 't', 's']
}

/// `base` joined with `assets`, as a path on a Unix system: a separator is
/// put between them unless `base` is empty or already ends in one.
pub open spec fn asset_dir_of(base: Seq<char>) -> Seq<char> {
    if base.len() == 0 || base.last() == '/' {
        base + assets_name()
    } else {
        base.push('/') + assets_name()
    }
}

/// The app's data directory, as a path. Assets live beside the database.
pub struct DataDir(pub String);

impl DataDir {
    /// Where copies live.
    pub fn asset_dir(&self) -> (res: String)
        ensures
            res@ == asset_dir_of(self.0@),
    {
        dir(self.0.as_str())
    }
}

/// Where copies live, under the app's data directory.
pub fn dir(data_dir: &str) -> (res: String)
    ensures
        res@ == asset_dir_of(data_dir@),
{
    let mut out = chars_of(data_dir);
    let n = out.len();
    if n > 0 && out[n - 1] != '/' {
        out.push('/');
    }
    let name = vec!['a', 's', 's', 'e', 't', 's'];
    push_range(&mut out, &name, 0, 6);
    proof {
        assert(name@.subrange(0, 6) =~= assets_name());
    }
    string_of(&out)
}

/// What is accepted, and what it is called: the kind and MIME type for an
/// extension, whatever its case. Deliberately a short list: anything the
/// view cannot render inline would arrive as a card you could not look at.
pub open spec fn asset_type(ext: Seq<char>) -> Option<(AssetKind, Seq<char>)> {
    let e = ascii_lower_seq(ext);
    if e == seq!['p', 'n', 'g'] {
        Some((AssetKind::Image, "image/png"@))
    } else if e == seq!['j', 'p', 'g'] || e == seq!['j', 'p', 'e', 'g'] {
        Some((AssetKind::Image, "image/jpeg"@))
    } else if e == seq!['g', 'i', 'f'] {
        Some((AssetKind::Image, "image/gif"@))
    } else if e == seq!['w', 'e', 'b', 'p'] {
        Some((AssetKind::Image, "image/webp"@))
    } else if e == seq!['s', 'v', 'g'] {
        Some((AssetKind::Image, "image/svg+xml"@))
    } else if e == seq!['a', 'v', 'i', 'f'] {
        Some((AssetKind::Image, "image/avif"@))
    } else if e == seq!['p', 'd', 'f'] {
        Some((AssetKind::Pdf, "application/pdf"@))
    } else {
        None
    }
}

/// A classification, with the MIME type as characters.
pub open spec fn type_view(t: Option<(AssetKind, &str)>) -> Option<(AssetKind, Seq<char>)> {
    match t {
        Some((k, m)) => Some((k, m@)),
        None => None,
    }
}

fn same_chars(a: &Vec<char>, b: &Vec<char>) -> (res: bool)
    ensures
        res == (a@ == b@),
{
    if a.len() != b.len() {
        return false;
    }
    let mut i: usize = 0;
    while i < a.len()
        invariant
            i <= a@.len() == b@.len(),
            forall|k: int| 0 <= k < i ==> a@[k] == b@[k],
        decreases a@.len() - i,
    {
        if a[i] != b[i] {
            return false;
        }
        i = i + 1;
    }
    assert(a@ =~= b@);
    true
}

/// The kind and MIME type of a file with this extension, if it is one that
/// is accepted.
pub fn classify(ext: &str) -> (res: Option<(AssetKind, &'static str)>)
    ensures
        type_view(res) == asset_type(ext@),
{
    let e = ascii_lower_chars(&chars_of(ext));
    if same_chars(&e, &vec!['p', 'n', 'g']) {
        Some((AssetKind::Image, "image/png"))
    } else if same_chars(&e, &vec!['j', 'p', 'g']) || same_chars(&e, &vec!['j', 'p', 'e', 'g']) {
        Some((AssetKind::Image, "image/jpeg"))
    } else if same_chars(&e, &vec!['g', 'i', 'f']) {
        Some((AssetKind::Image, "image/gif"))
    } else if same_chars(&e, &vec!['w', 'e', 'b', 'p']) {
        Some((AssetKind::Image, "image/webp"))
    } else if same_chars(&e, &vec!['s', 'v', 'g']) {
        Some((AssetKind::Image, "image/svg+xml"))
    } else if same_chars(&e, &vec!['a', 'v', 'i', 'f']) {
        Some((AssetKind::Image, "image/avif"))
    } else if same_chars(&e, &vec!['p', 'd', 'f']) {
        Some((AssetKind::Pdf, "application/pdf"))
    } else {
        None
    }
}

/// What bringing a file in will record, before anything is copied.
pub struct ImportPlan {
    pub id: String,
    pub kind: AssetKind,
    pub mime: String,
    /// What it was called when it arrived. Shown on the card, never used as
    /// a path.
    pub file_name: String,
    /// Where the copy lives, relative to the asset directory.
    pub rel_path: String,
}

/// The refusal of a file that is neither an image nor a PDF.
pub open spec fn refusal_of(ext: Seq<char>) -> Seq<char> {
    "cannot bring in a ."@ + ext + " — images and PDFs only"@
}

/// The name a file is shown under when it arrived with none.
pub open spec fn unnamed() -> Seq<char> {
    seq!['f', 'i', 'l', 'e']
}

/// Plans bringing in a file with this extension and name: a fresh id, the
/// copy named by that id and the extension in lower case, and the name the
/// file arrived with kept for display. Anything but an image or a PDF is refused.
pub fn plan_import(ext: &str, file_name: Option<String>) -> (res: Result<ImportPlan, AppError>)
    ensures
        asset_type(ext@) is None ==> (res matches Err(e) && is_invalid(e, refusal_of(ext@))),
        asset_type(ext@) matches Some((kind, mime)) ==> (res matches Ok(plan) && {
            &&& is_uuid_text(plan.id@)
            &&& plan.kind == kind
            &&& plan.mime@ == mime
            &&& plan.file_name@ == match file_name {
                Some(n) => n@,
                None => unnamed(),
            }
            &&& plan.rel_path@ == plan.id@.push('.') + ascii_lower_seq(ext@)
        }),
{
    let ext_chars = chars_of(ext);
    let (kind, mime) = match classify(ext) {
        Some(found) => found,
        None => {
            let mut msg = chars_of("cannot bring in a .");
            let n = ext_chars.len();
            push_range(&mut msg, &ext_chars, 0, n);
            let tail = chars_of(" — images and PDFs only");
            let m = tail.len();
            push_range(&mut msg, &tail, 0, m);
            proof {
                assert(ext_chars@.subrange(0, n as int) =~= ext@);
                assert(tail@.subrange(0, m as int) =~= tail@);
            }
            return Err(AppError::Invalid(string_of(&msg)));
        },
    };
    let name = match file_name {
        Some(n) => n,
        None => string_of(&vec!['f', 'i', 'l', 'e']),
    };
    let id = new_id();
    let mut path = chars_of(id.as_str());
    path.push('.');
    let lower = ascii_lower_chars(&ext_chars);
    let k = lower.len();
    push_range(&mut path, &lower, 0, k);
    proof {
        assert(lower@.subrange(0, k as int) =~= lower@);
    }
    Ok(
        ImportPlan {
            id,
            kind,
            mime: mime.to_owned(),
            file_name: name,
            rel_path: string_of(&path),
        },
    )
}

/// The kind of canvas node an imported file is placed as.
pub fn node_kind(kind: AssetKind) -> (res: CanvasNodeKind)
    ensures
        kind == AssetKind::Image ==> res == CanvasNodeKind::Image,
        kind == AssetKind::Pdf ==> res == CanvasNodeKind::Pdf,
{
    match kind {
        AssetKind::Image => CanvasNodeKind::Image,
        AssetKind::Pdf => CanvasNodeKind::Pdf,
    }
}

/// Each accepted extension, in any ASCII case, is always taken as the same
/// kind with the same MIME type, and nothing else is accepted:
/// png, jpg and jpeg, gif, webp, svg, avif as images, pdf as a PDF.
pub proof fn law_the_accepted_extensions(ext: Seq<char>)
    ensures
        ascii_lower_seq(ext) == seq!['p', 'n', 'g'] ==> asset_type(ext) == Some(
            (AssetKind::Image, "image/png"@),
        ),
        ascii_lower_seq(ext) == seq!['j', 'p', 'g'] ==> asset_type(ext) == Some(
            (AssetKind::Image, "image/jpeg"@),
        ),
        ascii_lower_seq(ext) == seq!['j', 'p', 'e', 'g'] ==> asset_type(ext) == Some(
            (AssetKind::Image, "image/jpeg"@),
        ),
        ascii_lower_seq(ext) == seq!['g', 'i', 'f'] ==> asset_type(ext) == Some(
            (AssetKind::Image, "image/gif"@),
        ),
        ascii_lower_seq(ext) == seq!['w', 'e', 'b', 'p'] ==> asset_type(ext) == Some(
            (AssetKind::Image, "image/webp"@),
        ),
        ascii_lower_seq(ext) == seq!['s', 'v', 'g'] ==> asset_type(ext) == Some(
            (AssetKind::Image, "image/svg+xml"@),
        ),
        ascii_lower_seq(ext) == seq!['a', 'v', 'i', 'f'] ==> asset_type(ext) == Some(
            (AssetKind::Image, "image/avif"@),
        ),
        ascii_lower_seq(ext) == seq!['p', 'd', 'f'] ==> asset_type(ext) == Some(
            (AssetKind::Pdf, "application/pdf"@),
        ),
        asset_type(ext) is Some ==> {
            ||| ascii_lower_seq(ext) == seq!['p', 'n', 'g']
            ||| ascii_lower_seq(ext) == seq!['j', 'p', 'g']
            ||| ascii_lower_seq(ext) == seq!['j', 'p', 'e', 'g']
            ||| ascii_lower_seq(ext) == seq!['g', 'i', 'f']
            ||| ascii_lower_seq(ext) == seq!['w', 'e', 'b', 'p']
            ||| ascii_lower_seq(ext) == seq!['s', 'v', 'g']
            ||| ascii_lower_seq(ext) == seq!['a', 'v', 'i', 'f']
            ||| ascii_lower_seq(ext) == seq!['p', 'd', 'f']
        },
{
}

/// Two imports whose ids differ never share a stored path, whatever names
/// and extensions they came with: the path starts with the whole id.
pub proof fn law_distinct_ids_never_share_a_path(
    id1: Seq<char>,
    ext1: Seq<char>,
    id2: Seq<char>,
    ext2: Seq<char>,
)
    requires
        is_uuid_text(id1),
        is_uuid_text(id2),
        id1 != id2,
    ensures
        id1.push('.') + ascii_lower_seq(ext1) != id2.push('.') + ascii_lower_seq(ext2),
{
    let p1 = id1.push('.') + ascii_lower_seq(ext1);
    let p2 = id2.push('.') + ascii_lower_seq(ext2);
    if p1 == p2 {
        assert(p1.subrange(0, 36) =~= id1);
        assert(p2.subrange(0, 36) =~= id2);
    }
}

} // verus!
