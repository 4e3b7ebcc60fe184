//! Decisions of the serving boundary on static files below the root.
use vstd::prelude::*;
use crate::paths::{
    guess_image_content_type, image_content_type, is_image_file, is_image_path, is_within_base,
    within_base,
};

verus! {

/// What to answer to a request for a static file.
#[derive(Debug, Clone, PartialEq, Eq)]
pub enum StaticAccess {
    /// The path resolves outside the root: refuse it.
    Denied,
    /// The path does not resolve to anything, or not to an image.
    NotFound,
    /// Read the resolved file and send it with this media type.
    Serve { content_type: String },
}

/// The answer to a request for `requested`, whose canonical form is
/// `canonical` (`None` when it could not be resolved), under the root.
pub open spec fn static_answer(
    requested: Seq<char>,
    canonical: Option<Seq<char>>,
    base: Seq<char>,
    r: StaticAccess,
) -> bool {
    match canonical {
        None => r is NotFound,
        Some(c) => if !within_base(c, base) {
            r is Denied
        } else if !is_image_path(requested) {
            r is NotFound
        } else {
            match r {
                StaticAccess::Serve { content_type } => content_type@ == image_content_type(
                    requested,
                ),
                _ => false,
            }
        },
    }
}

/// Decides a request for the static file `requested` (a path below the
/// root), given its canonical form and the canonical root `base_dir`. A path
/// that resolves outside the root is denied; only images are served, so any
/// other file inside the root is answered as not found.
pub fn static_access(requested: &str, canonical: Option<String>, base_dir: &str) -> (r: StaticAccess)
    ensures
        static_answer(
            requested@,
            match canonical {
                Some(c) => Some(c@),
                None => None,
            },
            base_dir@,
            r,
        ),
{
    match canonical {
        None => StaticAccess::NotFound,
        Some(c) => {
            if !is_within_base(c.as_str(), base_dir) {
                StaticAccess::Denied
            } else if !is_image_file(requested) {
                StaticAccess::NotFound
            } else {
                StaticAccess::Serve { content_type: guess_image_content_type(requested) }
            }
        },
    }
}

/// A request whose path resolves outside the root is refused, whatever
/// was requested and whatever lies inside the root under the same name.
pub proof fn lemma_escape_denied(
    requested: Seq<char>,
    canonical: Seq<char>,
    base: Seq<char>,
    r: StaticAccess,
)
    requires
        !within_base(canonical, base),
        static_answer(requested, Some(canonical), base, r),
    ensures
        r is Denied,
{
}

} // verus!
