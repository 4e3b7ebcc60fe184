//! Rules on paths written as text with '/' separators: extensions, document
//! and image kinds, and the place of a path relative to the root directory.
use vstd::prelude::*;
use crate::text::{
    chars_of, eq_ignore_ascii_case, find_last, last_index_of, lemma_last_index_of_bounds,
    string_from_chars, tail_eq_ignore_ascii_case,
};

verus! {

/// A path without the '/' separators that end it, as `std::path::Path`
/// reads "a/b.md/" as "a/b.md".
pub open spec fn trim_trailing_slashes(p: Seq<char>) -> Seq<char>
    decreases p.len(),
{
    if p.len() > 0 && p.last() == '/' {
        trim_trailing_slashes(p.drop_last())
    } else {
        p
    }
}

/// The extension of a path that does not end in '/': the text after its
/// last '.', when that dot lies in the last segment (after the last '/') and
/// is not the segment's first character, and the segment is not "..". A
/// leading dot (".profile") names a hidden file, not an extension.
pub open spec fn segment_extension(p: Seq<char>) -> Option<Seq<char>> {
    let slash = last_index_of(p, '/');
    let dot = last_index_of(p, '.');
    if dot > slash + 1 && !(dot == p.len() - 1 && slash == p.len() - 3 && p[p.len() - 2] == '.') {
        Some(p.subrange(dot + 1, p.len() as int))
    } else {
        None
    }
}

/// The extension of a path, after the separators that end it are dropped.
pub open spec fn extension_of(p: Seq<char>) -> Option<Seq<char>> {
    segment_extension(trim_trailing_slashes(p))
}

/// Whether the extension of a path that does not end in '/' is `e`, ASCII
/// letters compared without case.
pub open spec fn segment_has_extension(p: Seq<char>, e: Seq<char>) -> bool {
    match segment_extension(p) {
        Some(x) => eq_ignore_ascii_case(x, e),
        None => false,
    }
}

/// Whether the extension of `p` is `e`, ASCII letters compared without case.
pub open spec fn has_extension(p: Seq<char>, e: Seq<char>) -> bool {
    segment_has_extension(trim_trailing_slashes(p), e)
}

/// A markdown document: extension "md" or "markdown", in any case.
pub open spec fn is_markdown_path(p: Seq<char>) -> bool {
    has_extension(p, "md"@) || has_extension(p, "markdown"@)
}

/// An image that the server hands out as a static asset.
pub open spec fn is_image_path(p: Seq<char>) -> bool {
    ||| has_extension(p, "png"@)
    ||| has_extension(p, "jpg"@)
    ||| has_extension(p, "jpeg"@)
    ||| has_extension(p, "gif"@)
    ||| has_extension(p, "svg"@)
    ||| has_extension(p, "webp"@)
    ||| has_extension(p, "bmp"@)
    ||| has_extension(p, "ico"@)
}

/// The media type served for a static file, chosen by its extension.
pub open spec fn image_content_type(p: Seq<char>) -> Seq<char> {
    if has_extension(p, "png"@) {
        "image/png"@
    } else if has_extension(p, "jpg"@) || has_extension(p, "jpeg"@) {
        "image/jpeg"@
    } else if has_extension(p, "gif"@) {
        "image/gif"@
    } else if has_extension(p, "svg"@) {
        "image/svg+xml"@
    } else if has_extension(p, "webp"@) {
        "image/webp"@
    } else if has_extension(p, "bmp"@) {
        "image/bmp"@
    } else if has_extension(p, "ico"@) {
        "image/x-icon"@
    } else {
        "application/octet-stream"@
    }
}

/// The characters of `s` without the '/' separators that end it.
fn trimmed_chars(s: &str) -> (r: Vec<char>)
    ensures
        r@ == trim_trailing_slashes(s@),
{
    let mut cs = chars_of(s);
    while cs.len() > 0 && cs[cs.len() - 1] == '/'
        invariant
            trim_trailing_slashes(cs@) == trim_trailing_slashes(s@),
        decreases cs.len(),
    {
        assert(cs@.drop_last() == cs@.subrange(0, cs.len() - 1));
        cs.pop();
    }
    cs
}

/// The position where the extension of `cs` starts, if it has one.
fn extension_start(cs: &Vec<char>) -> (r: Option<usize>)
    ensures
        r is None <==> segment_extension(cs@) is None,
        r is Some ==> r->0 <= cs.len() && segment_extension(cs@) == Some(
            cs@.subrange(r->0 as int, cs@.len() as int),
        ),
{
    proof {
        lemma_last_index_of_bounds(cs@, '/');
        lemma_last_index_of_bounds(cs@, '.');
    }
    let n: usize = cs.len();
    let dot = find_last(cs, '.');
    match dot {
        None => None,
        Some(d) => {
            assert(d < cs.len());
            match find_last(cs, '/') {
                None => {
                    if d > 0 && !(d + 1 == n && n == 2 && cs[0] == '.') {
                        Some(d + 1)
                    } else {
                        None
                    }
                },
                Some(s) => {
                    assert(s < cs.len());
                    if d > s + 1 && !(d + 1 == n && s + 3 == n && cs[n - 2] == '.') {
                        Some(d + 1)
                    } else {
                        None
                    }
                },
            }
        },
    }
}

/// Whether the extension that starts at `start` equals `e` without ASCII case.
fn extension_is(cs: &Vec<char>, start: Option<usize>, e: &str) -> (r: bool)
    requires
        start is None <==> segment_extension(cs@) is None,
        start is Some ==> start->0 <= cs.len() && segment_extension(cs@) == Some(
            cs@.subrange(start->0 as int, cs@.len() as int),
        ),
    ensures
        r == segment_has_extension(cs@, e@),
{
    match start {
        None => false,
        Some(i) => {
            let t = chars_of(e);
            tail_eq_ignore_ascii_case(cs, i, &t)
        },
    }
}

/// Whether `path` names a markdown document.
pub fn is_markdown_file(path: &str) -> (r: bool)
    ensures
        r == is_markdown_path(path@),
{
    let cs = trimmed_chars(path);
    let start = extension_start(&cs);
    extension_is(&cs, start, "md") || extension_is(&cs, start, "markdown")
}

/// Whether `file_path` names an image.
pub fn is_image_file(file_path: &str) -> (r: bool)
    ensures
        r == is_image_path(file_path@),
{
    let cs = trimmed_chars(file_path);
    let start = extension_start(&cs);
    extension_is(&cs, start, "png") || extension_is(&cs, start, "jpg") || extension_is(
        &cs,
        start,
        "jpeg",
    ) || extension_is(&cs, start, "gif") || extension_is(&cs, start, "svg") || extension_is(
        &cs,
        start,
        "webp",
    ) || extension_is(&cs, start, "bmp") || extension_is(&cs, start, "ico")
}

/// The media type to send with the static file `file_path`.
pub fn guess_image_content_type(file_path: &str) -> (r: String)
    ensures
        r@ == image_content_type(file_path@),
{
    let cs = trimmed_chars(file_path);
    let start = extension_start(&cs);
    if extension_is(&cs, start, "png") {
        "image/png".to_owned()
    } else if extension_is(&cs, start, "jpg") || extension_is(&cs, start, "jpeg") {
        "image/jpeg".to_owned()
    } else if extension_is(&cs, start, "gif") {
        "image/gif".to_owned()
    } else if extension_is(&cs, start, "svg") {
        "image/svg+xml".to_owned()
    } else if extension_is(&cs, start, "webp") {
        "image/webp".to_owned()
    } else if extension_is(&cs, start, "bmp") {
        "image/bmp".to_owned()
    } else if extension_is(&cs, start, "ico") {
        "image/x-icon".to_owned()
    } else {
        "application/octet-stream".to_owned()
    }
}

/// The path of `p` relative to the directory `base`, when `p` lies strictly
/// below `base`: `base` is a leading run of whole segments of `p`, and
/// something follows it. Both are canonical absolute paths.
pub open spec fn relative_to(p: Seq<char>, base: Seq<char>) -> Option<Seq<char>> {
    let n = base.len() as int;
    if n > 0 && base.last() == '/' {
        if p.len() > n && p.take(n) == base {
            Some(p.skip(n))
        } else {
            None
        }
    } else if p.len() > n + 1 && p.take(n) == base && p[n] == '/' {
        Some(p.skip(n + 1))
    } else {
        None
    }
}

/// `p` is `base` itself or lies below it.
pub open spec fn within_base(p: Seq<char>, base: Seq<char>) -> bool {
    p == base || relative_to(p, base) is Some
}

/// Why a path was refused.
#[derive(Debug, Clone, Copy, PartialEq, Eq)]
pub enum PathError {
    /// The path does not lie below the root directory.
    NotWithinBase,
}

/// Whether `b` is a prefix of `p`.
fn starts_with_chars(p: &Vec<char>, b: &Vec<char>) -> (r: bool)
    ensures
        r == (b.len() <= p.len() && p@.take(b.len() as int) == b@),
{
    if b.len() > p.len() {
        return false;
    }
    let mut i: usize = 0;
    while i < b.len()
        invariant
            b.len() <= p.len(),
            i <= b.len(),
            forall|j: int| 0 <= j < i ==> p@[j] == b@[j],
        decreases b.len() - i,
    {
        if p[i] != b[i] {
            assert(p@.take(b.len() as int)[i as int] != b@[i as int]);
            return false;
        }
        i = i + 1;
    }
    assert(p@.take(b.len() as int) =~= b@);
    true
}

/// The start, in `p`, of the part that lies below `base`.
fn relative_start(p: &Vec<char>, base: &Vec<char>) -> (r: Option<usize>)
    ensures
        r is None <==> relative_to(p@, base@) is None,
        r is Some ==> r->0 <= p.len() && relative_to(p@, base@) == Some(p@.skip(r->0 as int)),
{
    let n: usize = base.len();
    if !starts_with_chars(p, base) {
        return None;
    }
    if n > 0 && base[n - 1] == '/' {
        if p.len() > n {
            Some(n)
        } else {
            None
        }
    } else if p.len() - n > 1 && p[n] == '/' {
        Some(n + 1)
    } else {
        None
    }
}

/// The key of the canonical path `file_path` under the canonical root
/// `base_dir`: the part of the path below the root.
pub fn calculate_relative_path(file_path: &str, base_dir: &str) -> (r: Result<String, PathError>)
    ensures
        r is Ok <==> relative_to(file_path@, base_dir@) is Some,
        r is Ok ==> Some(r->Ok_0@) == relative_to(file_path@, base_dir@),
{
    let p = chars_of(file_path);
    let b = chars_of(base_dir);
    match relative_start(&p, &b) {
        None => Err(PathError::NotWithinBase),
        Some(i) => {
            let tail = string_from_chars(p.as_slice().split_at(i).1);
            Ok(tail)
        },
    }
}

/// Whether the canonical path `path` is the canonical root `base_dir` or lies
/// below it.
pub fn is_within_base(path: &str, base_dir: &str) -> (r: bool)
    ensures
        r == within_base(path@, base_dir@),
{
    let p = chars_of(path);
    let b = chars_of(base_dir);
    if p.len() == b.len() && starts_with_chars(&p, &b) {
        assert(p@ =~= p@.take(b.len() as int));
        return true;
    }
    proof {
        if p@ == b@ {
            assert(p@.take(b.len() as int) =~= b@);
        }
    }
    relative_start(&p, &b).is_some()
}

} // verus!
