//! Tracked documents, and the map from keys to documents that a sequence of
//! them with distinct keys stands for.
use vstd::prelude::*;

verus! {

/// The MD5 digest of a text's UTF-8 bytes.
pub uninterp spec fn md5_digest(text: Seq<char>) -> Seq<u8>;

/// Relies on `md5::compute`: the 16-byte digest of the bytes given, which
/// depends on those bytes alone.
#[verifier::external_body]
pub(crate) fn content_digest(text: &str) -> (r: [u8; 16])
    ensures
        r@ == md5_digest(text@),
{
    md5::compute(text.as_bytes()).0
}

/// One monitored document.
pub struct TrackedFile {
    /// Its key: the path below the root, with '/' separators.
    pub relative_path: String,
    /// Its canonical location.
    pub path: String,
    /// Its modification time as last observed, in nanoseconds since the epoch.
    pub last_modified: u64,
    /// Its text as last read.
    pub markdown: String,
    /// The digest of `markdown`.
    pub content_hash: [u8; 16],
}

/// What a tracked document is, apart from its key.
pub struct TrackedView {
    pub path: Seq<char>,
    pub last_modified: u64,
    pub markdown: Seq<char>,
    pub content_hash: Seq<u8>,
}

/// The view of a document at `path`, modified at `last_modified`, holding `markdown`.
pub open spec fn file_view(path: Seq<char>, last_modified: u64, markdown: Seq<char>) -> TrackedView {
    TrackedView { path, last_modified, markdown, content_hash: md5_digest(markdown) }
}

impl View for TrackedFile {
    type V = TrackedView;

    open spec fn view(&self) -> TrackedView {
        TrackedView {
            path: self.path@,
            last_modified: self.last_modified,
            markdown: self.markdown@,
            content_hash: self.content_hash@,
        }
    }
}

impl TrackedFile {
    /// The document at `path` under `key`, with its digest computed.
    pub fn new(key: String, path: String, last_modified: u64, markdown: String) -> (r: TrackedFile)
        ensures
            r.relative_path@ == key@,
            r@ == file_view(path@, last_modified, markdown@),
    {
        let content_hash = content_digest(markdown.as_str());
        TrackedFile { relative_path: key, path, last_modified, markdown, content_hash }
    }
}

/// The keys of `s`, in order.
pub open spec fn keys_of(s: Seq<TrackedFile>) -> Seq<Seq<char>> {
    s.map_values(|f: TrackedFile| f.relative_path@)
}

/// The map from keys to documents; a later entry wins over an earlier one.
pub open spec fn map_of(s: Seq<TrackedFile>) -> Map<Seq<char>, TrackedView>
    decreases s.len(),
{
    if s.len() == 0 {
        Map::empty()
    } else {
        map_of(s.drop_last()).insert(s.last().relative_path@, s.last()@)
    }
}

pub proof fn lemma_map_of(s: Seq<TrackedFile>)
    requires
        keys_of(s).no_duplicates(),
    ensures
        map_of(s).dom() == keys_of(s).to_set(),
        forall|i: int| 0 <= i < s.len() ==> map_of(s)[#[trigger] s[i].relative_path@] == s[i]@,
    decreases s.len(),
{
    if s.len() > 0 {
        let t = s.drop_last();
        assert(keys_of(t) =~= keys_of(s).drop_last());
        lemma_map_of(t);
        assert(keys_of(s) =~= keys_of(t).push(s.last().relative_path@));
        assert(map_of(s).dom() =~= keys_of(s).to_set()) by {
            assert forall|k: Seq<char>| keys_of(s).to_set().contains(k) implies map_of(
                s,
            ).dom().contains(k) by {
                let j = choose|j: int| 0 <= j < keys_of(s).len() && keys_of(s)[j] == k;
                if j < t.len() {
                    assert(keys_of(t)[j] == k);
                }
            }
            assert forall|k: Seq<char>| map_of(s).dom().contains(k) implies keys_of(
                s,
            ).to_set().contains(k) by {
                if k != s.last().relative_path@ {
                    let j = choose|j: int| 0 <= j < keys_of(t).len() && keys_of(t)[j] == k;
                    assert(keys_of(s)[j] == k);
                } else {
                    assert(keys_of(s)[s.len() - 1] == k);
                }
            }
        }
        assert forall|i: int| 0 <= i < s.len() implies map_of(s)[#[trigger] s[i].relative_path@]
            == s[i]@ by {
            if i < s.len() - 1 {
                assert(t[i] == s[i]);
                assert(keys_of(s)[i] != keys_of(s)[s.len() - 1]);
            }
        }
    }
}

/// Replacing an entry by one with the same key replaces that key's document.
pub proof fn lemma_map_of_update(s: Seq<TrackedFile>, i: int, x: TrackedFile)
    requires
        keys_of(s).no_duplicates(),
        0 <= i < s.len(),
        x.relative_path@ == s[i].relative_path@,
    ensures
        keys_of(s.update(i, x)) == keys_of(s),
        map_of(s.update(i, x)) == map_of(s).insert(x.relative_path@, x@),
{
    let u = s.update(i, x);
    assert(keys_of(u) =~= keys_of(s));
    lemma_map_of(s);
    lemma_map_of(u);
    assert forall|k: Seq<char>| #[trigger] map_of(u).dom().contains(k) implies map_of(u)[k] == map_of(
        s,
    ).insert(x.relative_path@, x@)[k] by {
        assert(map_of(u).dom() == keys_of(u).to_set());
        assert(keys_of(u).to_set().contains(k));
        let j = choose|j: int| 0 <= j < keys_of(u).len() && keys_of(u)[j] == k;
        assert(keys_of(u)[j] == u[j].relative_path@);
        assert(map_of(u)[u[j].relative_path@] == u[j]@);
        if j != i {
            assert(keys_of(s)[j] != keys_of(s)[i]);
            assert(map_of(s)[s[j].relative_path@] == s[j]@);
        }
    }
    assert(keys_of(s)[i] == x.relative_path@);
    assert(keys_of(s).to_set().contains(x.relative_path@));
    assert(map_of(u).dom() =~= map_of(s).insert(x.relative_path@, x@).dom());
    assert(map_of(u) =~= map_of(s).insert(x.relative_path@, x@));
}

/// Appending an entry with a new key adds that key's document.
pub proof fn lemma_map_of_push(s: Seq<TrackedFile>, x: TrackedFile)
    requires
        keys_of(s).no_duplicates(),
        !keys_of(s).contains(x.relative_path@),
    ensures
        keys_of(s.push(x)) == keys_of(s).push(x.relative_path@),
        keys_of(s.push(x)).no_duplicates(),
        map_of(s.push(x)) == map_of(s).insert(x.relative_path@, x@),
{
    assert(keys_of(s.push(x)) =~= keys_of(s).push(x.relative_path@));
    assert(s.push(x).drop_last() =~= s);
}

} // verus!
