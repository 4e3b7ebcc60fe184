//! The file index: the one mutable registry of tracked documents, keyed by
//! their path below the root directory.
use vstd::prelude::*;
use crate::documents::{
    file_view, keys_of, lemma_map_of, lemma_map_of_push, lemma_map_of_update, map_of, TrackedFile,
    TrackedView,
};
use crate::classify::{announced, detect_file_change, lemma_message_announces};
use crate::messages::{change_message, ApiFile, ServerMessage};
use crate::paths::is_markdown_path;
use crate::paths::is_markdown_file;
use crate::order::{sort_unique, strictly_sorted};
use crate::paths::{calculate_relative_path, relative_to, PathError};
use crate::text::texts;

verus! {

/// A document read from disk, at its canonical location.
pub struct FileRead {
    pub path: String,
    /// Modification time in nanoseconds since the epoch.
    pub last_modified: u64,
    pub markdown: String,
}

/// What to do about a markdown document that was created or changed.
#[derive(Debug, Clone, PartialEq, Eq)]
pub enum MarkdownAction {
    /// Nothing: not a document, outside the root, or untracked with a single file.
    Ignore,
    /// Refresh the tracked document under `key`, then ask clients to reload.
    Refresh { key: String },
    /// Read the new document, track it under `key`, and announce it.
    Add { key: String },
}

/// The paths of a list of API entries.
pub open spec fn api_paths(v: Seq<ApiFile>) -> Seq<Seq<char>> {
    v.map_values(|f: ApiFile| f.spec_path())
}

/// Why the index refused an operation.
#[derive(Debug, Clone, Copy, PartialEq, Eq)]
pub enum IndexError {
    /// No document is tracked under the key given.
    FileNotFound,
}

/// The key of a document at `path` under the root `base`.
pub open spec fn key_of(path: Seq<char>, base: Seq<char>) -> Seq<char> {
    relative_to(path, base)->0
}

/// Every file of `files` lies below `base`.
pub open spec fn all_within(files: Seq<FileRead>, base: Seq<char>) -> bool {
    forall|i: int| 0 <= i < files.len() ==> (#[trigger] relative_to(files[i].path@, base)) is Some
}

/// The documents of `files`, keyed below `base`; a later file wins over an
/// earlier one with the same key.
pub open spec fn loaded_map(files: Seq<FileRead>, base: Seq<char>) -> Map<Seq<char>, TrackedView>
    decreases files.len(),
{
    if files.len() == 0 {
        Map::empty()
    } else {
        let f = files.last();
        loaded_map(files.drop_last(), base).insert(
            key_of(f.path@, base),
            file_view(f.path@, f.last_modified, f.markdown@),
        )
    }
}

/// What was read from a file.
pub struct FileContents {
    /// Modification time in nanoseconds since the epoch.
    pub last_modified: u64,
    pub markdown: String,
}

/// One file found by a scan of the root, at its canonical location, with
/// what was read from it: `None` where it was not read (its key is tracked
/// and the file is not newer) or could not be read.
pub struct ScanEntry {
    pub path: String,
    pub contents: Option<FileContents>,
}

/// The key of a scanned file, when it lies below the root.
pub open spec fn scan_key(e: ScanEntry, base: Seq<char>) -> Option<Seq<char>> {
    relative_to(e.path@, base)
}

/// The keys of a scan.
pub open spec fn scan_keys(scan: Seq<ScanEntry>, base: Seq<char>) -> Set<Seq<char>> {
    Set::new(|k: Seq<char>| exists|i: int| 0 <= i < scan.len() && scan_key(scan[i], base) == Some(k))
}

/// Entry `i` of the scan has key `k` and was read.
pub open spec fn readable_at(scan: Seq<ScanEntry>, base: Seq<char>, k: Seq<char>, i: int) -> bool {
    &&& 0 <= i < scan.len()
    &&& scan_key(scan[i], base) == Some(k)
    &&& scan[i].contents is Some
}

/// Entry `i` is the first of the scan with key `k` that was read.
pub open spec fn first_readable(scan: Seq<ScanEntry>, base: Seq<char>, k: Seq<char>, i: int) -> bool {
    &&& readable_at(scan, base, k, i)
    &&& forall|j: int| 0 <= j < i ==> !readable_at(scan, base, k, j)
}

/// The document that a scanned entry that was read stands for.
pub open spec fn entry_view(e: ScanEntry) -> TrackedView {
    file_view(e.path@, e.contents->0.last_modified, e.contents->0.markdown@)
}

/// The first entry of the scan with key `k` that was read.
pub open spec fn first_read_index(scan: Seq<ScanEntry>, base: Seq<char>, k: Seq<char>) -> int {
    choose|i: int| first_readable(scan, base, k, i)
}

/// The tracked key `k` has a read entry in the scan (the first one) whose
/// file is strictly newer than the stored document.
pub open spec fn newer_in_scan(
    old: Map<Seq<char>, TrackedView>,
    scan: Seq<ScanEntry>,
    base: Seq<char>,
    k: Seq<char>,
) -> bool {
    &&& old.contains_key(k)
    &&& exists|i: int| readable_at(scan, base, k, i)
    &&& scan[first_read_index(scan, base, k)].contents->0.last_modified > old[k].last_modified
}

/// The document of a tracked key after its newer content in the scan is
/// taken in: from the scan when newer, as it was otherwise.
pub open spec fn retained_view(
    old: Map<Seq<char>, TrackedView>,
    scan: Seq<ScanEntry>,
    base: Seq<char>,
    k: Seq<char>,
) -> TrackedView {
    if newer_in_scan(old, scan, base, k) {
        let c = scan[first_read_index(scan, base, k)].contents->0;
        file_view(old[k].path, c.last_modified, c.markdown@)
    } else {
        old[k]
    }
}

/// The documents after a pass that changed something: the tracked keys
/// that the scan still finds keep their documents untouched, those it no
/// longer finds are dropped, and each new key is added from the first of its
/// entries that was read; a new key none of whose entries was read stays out.
pub open spec fn rebuilt(
    old: Map<Seq<char>, TrackedView>,
    scan: Seq<ScanEntry>,
    base: Seq<char>,
) -> Map<Seq<char>, TrackedView> {
    Map::new(
        |k: Seq<char>|
            scan_keys(scan, base).contains(k) && (old.contains_key(k) || exists|i: int|
                readable_at(scan, base, k, i)),
        |k: Seq<char>|
            if old.contains_key(k) {
                old[k]
            } else {
                entry_view(scan[first_read_index(scan, base, k)])
            },
    )
}

/// A reconciliation pass from the documents `old` given the scan `scan`:
/// outside directory mode, or when the scan finds exactly the tracked keys,
/// nothing changes; otherwise the documents are rebuilt from the scan.
pub open spec fn reconciled(
    old: Map<Seq<char>, TrackedView>,
    base: Seq<char>,
    directory_mode: bool,
    scan: Seq<ScanEntry>,
    changed: bool,
    new: Map<Seq<char>, TrackedView>,
) -> bool {
    if !directory_mode || old.dom() == scan_keys(scan, base) {
        !changed && new == old
    } else {
        changed && new == rebuilt(old, scan, base)
    }
}

/// The documents after taking in, for every tracked key, the newer content
/// that the scan read for it; the keys stay as they are.
pub open spec fn refreshed_from_scan(
    old: Map<Seq<char>, TrackedView>,
    scan: Seq<ScanEntry>,
    base: Seq<char>,
) -> Map<Seq<char>, TrackedView> {
    Map::new(|k: Seq<char>| old.contains_key(k), |k: Seq<char>| retained_view(old, scan, base, k))
}

/// Some tracked key has newer content in the scan.
pub open spec fn has_newer(
    old: Map<Seq<char>, TrackedView>,
    scan: Seq<ScanEntry>,
    base: Seq<char>,
) -> bool {
    exists|k: Seq<char>| #[trigger] newer_in_scan(old, scan, base, k)
}

/// The first read entry for a key is the one `first_read_index` names.
pub proof fn lemma_first_read_index(scan: Seq<ScanEntry>, base: Seq<char>, k: Seq<char>, i: int)
    requires
        first_readable(scan, base, k, i),
    ensures
        first_read_index(scan, base, k) == i,
{
    let j = first_read_index(scan, base, k);
    assert(first_readable(scan, base, k, j));
    if j < i {
        assert(!readable_at(scan, base, k, j));
    }
    if i < j {
        assert(!readable_at(scan, base, k, i));
    }
}

/// A key with a read entry has a first one.
pub proof fn lemma_first_readable_exists(scan: Seq<ScanEntry>, base: Seq<char>, k: Seq<char>, i: int)
    requires
        readable_at(scan, base, k, i),
    ensures
        first_readable(scan, base, k, first_read_index(scan, base, k)),
    decreases i,
{
    if exists|j: int| 0 <= j < i && readable_at(scan, base, k, j) {
        let j = choose|j: int| 0 <= j < i && readable_at(scan, base, k, j);
        lemma_first_readable_exists(scan, base, k, j);
    } else {
        assert(first_readable(scan, base, k, i));
    }
}

/// The keys present in a list of optional keys.
pub open spec fn listed(keys: Seq<Option<String>>) -> Set<Seq<char>> {
    Set::new(|k: Seq<char>| exists|j: int| 0 <= j < keys.len() && keys[j] is Some && keys[j]->0@ == k)
}

/// Whether `k` is present in `keys`.
fn key_listed(keys: &Vec<Option<String>>, k: &String) -> (r: bool)
    ensures
        r == listed(keys@).contains(k@),
{
    let mut j: usize = 0;
    while j < keys.len()
        invariant
            j <= keys.len(),
            forall|p: int| 0 <= p < j ==> !(keys@[p] is Some && keys@[p]->0@ == k@),
        decreases keys.len() - j,
    {
        if let Some(x) = &keys[j] {
            if *x == *k {
                return true;
            }
        }
        j = j + 1;
    }
    false
}

/// The documents after a refresh of `key` from a file modified at `t` that
/// holds `markdown`: the document is replaced only when it is tracked and
/// `t` is strictly newer than its stored modification time.
pub open spec fn refreshed(
    files: Map<Seq<char>, TrackedView>,
    key: Seq<char>,
    t: u64,
    markdown: Seq<char>,
) -> Map<Seq<char>, TrackedView> {
    if files.contains_key(key) && t > files[key].last_modified {
        files.insert(key, file_view(files[key].path, t, markdown))
    } else {
        files
    }
}

/// Refreshing twice from the same file state is the same as refreshing once.
pub proof fn lemma_refresh_idempotent(
    files: Map<Seq<char>, TrackedView>,
    key: Seq<char>,
    t: u64,
    markdown: Seq<char>,
)
    ensures
        refreshed(refreshed(files, key, t, markdown), key, t, markdown) == refreshed(
            files,
            key,
            t,
            markdown,
        ),
{
}

/// After a refresh from a file state, a second refresh from the same state
/// takes nothing in, so it reports nothing (see `FileIndex::refresh_file`):
/// the events of one replace announce it at most once.
pub proof fn lemma_refresh_reports_once(
    files: Map<Seq<char>, TrackedView>,
    key: Seq<char>,
    t: u64,
    markdown: Seq<char>,
)
    ensures
        ({
            let after = refreshed(files, key, t, markdown);
            !(after.contains_key(key) && t > after[key].last_modified)
        }),
{
}

/// The registry of tracked documents under one root directory.
pub struct FileIndex {
    base_dir: String,
    entries: Vec<TrackedFile>,
    is_directory_mode: bool,
}

/// Index of the entry with key `key`, if any.
fn find_entry(entries: &Vec<TrackedFile>, key: &String) -> (r: Option<usize>)
    ensures
        r is None <==> !keys_of(entries@).contains(key@),
        r is Some ==> r->0 < entries.len() && entries@[r->0 as int].relative_path@ == key@,
{
    let mut i: usize = 0;
    while i < entries.len()
        invariant
            i <= entries.len(),
            forall|j: int| 0 <= j < i ==> entries@[j].relative_path@ != key@,
        decreases entries.len() - i,
    {
        if entries[i].relative_path == *key {
            assert(keys_of(entries@)[i as int] == key@);
            return Some(i);
        }
        i = i + 1;
    }
    proof {
        if keys_of(entries@).contains(key@) {
            let j = choose|j: int| 0 <= j < keys_of(entries@).len() && keys_of(entries@)[j] == key@;
            assert(entries@[j].relative_path@ == key@);
        }
    }
    None
}

/// A copy of `f`.
fn copy_file(f: &TrackedFile) -> (r: TrackedFile)
    ensures
        r.relative_path@ == f.relative_path@,
        r@ == f@,
{
    TrackedFile {
        relative_path: f.relative_path.clone(),
        path: f.path.clone(),
        last_modified: f.last_modified,
        markdown: f.markdown.clone(),
        content_hash: f.content_hash,
    }
}

impl FileIndex {
    /// The tracked documents by key.
    pub closed spec fn files(&self) -> Map<Seq<char>, TrackedView> {
        map_of(self.entries@)
    }

    /// The tracked keys in the index's own order.
    pub closed spec fn key_order(&self) -> Seq<Seq<char>> {
        keys_of(self.entries@)
    }

    /// The canonical root directory.
    pub closed spec fn base(&self) -> Seq<char> {
        self.base_dir@
    }

    /// Whether the index serves a whole directory tree, not one file.
    pub closed spec fn directory_mode(&self) -> bool {
        self.is_directory_mode
    }

    /// Keys are distinct, and each document lies below the root under its key.
    pub closed spec fn wf(&self) -> bool {
        &&& keys_of(self.entries@).no_duplicates()
        &&& forall|i: int|
            0 <= i < self.entries@.len() ==> relative_to(
                (#[trigger] self.entries@[i]).path@,
                self.base_dir@,
            ) == Some(self.entries@[i].relative_path@)
    }

    /// What a well-formed index guarantees: its order lists each key once,
    /// and every tracked document lies strictly below the root, under the
    /// key it is tracked by.
    pub proof fn lemma_wf(&self)
        requires
            self.wf(),
        ensures
            self.key_order().no_duplicates(),
            self.key_order().to_set() == self.files().dom(),
            forall|k: Seq<char>| #[trigger]
                self.files().contains_key(k) ==> relative_to(self.files()[k].path, self.base())
                    == Some(k),
    {
        lemma_map_of(self.entries@);
        assert forall|k: Seq<char>| #[trigger] self.files().contains_key(k) implies relative_to(
            self.files()[k].path,
            self.base(),
        ) == Some(k) by {
            let j = choose|j: int|
                0 <= j < keys_of(self.entries@).len() && keys_of(self.entries@)[j] == k;
            assert(self.entries@[j].relative_path@ == k);
        }
    }

    /// The index of the documents `file_paths` under the canonical root
    /// `base_dir`. Fails when one of them does not lie below the root.
    pub fn new(base_dir: String, file_paths: Vec<FileRead>, is_directory_mode: bool) -> (r: Result<
        FileIndex,
        PathError,
    >)
        ensures
            r is Ok <==> all_within(file_paths@, base_dir@),
            r is Ok ==> {
                let ix = r->Ok_0;
                &&& ix.wf()
                &&& ix.base() == base_dir@
                &&& ix.directory_mode() == is_directory_mode
                &&& ix.files() == loaded_map(file_paths@, base_dir@)
            },
    {
        let ghost b = base_dir@;
        let mut ix = FileIndex { base_dir: base_dir.clone(), entries: Vec::new(), is_directory_mode };
        let mut i: usize = 0;
        assert(file_paths@.take(0) =~= Seq::<FileRead>::empty());
        assert(ix.files() =~= loaded_map(file_paths@.take(0), ix.base_dir@));
        while i < file_paths.len()
            invariant
                i <= file_paths.len(),
                ix.wf(),
                ix.directory_mode() == is_directory_mode,
                ix.base_dir@ == b,
                base_dir@ == b,
                all_within(file_paths@.take(i as int), ix.base_dir@),
                ix.files() == loaded_map(file_paths@.take(i as int), ix.base_dir@),
            decreases file_paths.len() - i,
        {
            let f = &file_paths[i];
            assert(file_paths@.take(i + 1).drop_last() =~= file_paths@.take(i as int));
            assert(file_paths@.take(i + 1).last() == file_paths@[i as int]);
            match calculate_relative_path(f.path.as_str(), ix.base_dir.as_str()) {
                Err(e) => {
                    proof {
                        assert(relative_to(file_paths@[i as int].path@, ix.base_dir@) is None);
                        if all_within(file_paths@, ix.base_dir@) {
                            assert(relative_to(file_paths@[i as int].path@, ix.base_dir@) is Some);
                        }
                        assert(!all_within(file_paths@, b));
                    }
                    return Err(e);
                },
                Ok(key) => {
                    assert(relative_to(file_paths@[i as int].path@, ix.base_dir@) is Some);
                    let tf = TrackedFile::new(
                        key,
                        f.path.clone(),
                        f.last_modified,
                        f.markdown.clone(),
                    );
                    ix.put(tf);
                    assert(all_within(file_paths@.take(i + 1), ix.base_dir@)) by {
                        assert forall|j: int| 0 <= j < i + 1 implies (#[trigger] relative_to(
                            file_paths@.take(i + 1)[j].path@,
                            ix.base_dir@,
                        )) is Some by {
                            if j < i {
                                assert(file_paths@.take(i as int)[j] == file_paths@.take(
                                    i + 1,
                                )[j]);
                            } else {
                                assert(file_paths@.take(i + 1)[j] == file_paths@[i as int]);
                            }
                        }
                    }
                },
            }
            i = i + 1;
        }
        assert(file_paths@.take(file_paths.len() as int) =~= file_paths@);
        Ok(ix)
    }

    /// Inserts `tf`, replacing the document with the same key if there is one.
    fn put(&mut self, tf: TrackedFile)
        requires
            old(self).wf(),
            relative_to(tf.path@, old(self).base()) == Some(tf.relative_path@),
        ensures
            final(self).wf(),
            final(self).base() == old(self).base(),
            final(self).directory_mode() == old(self).directory_mode(),
            final(self).files() == old(self).files().insert(tf.relative_path@, tf@),
    {
        match find_entry(&self.entries, &tf.relative_path) {
            Some(j) => {
                proof {
                    lemma_map_of_update(self.entries@, j as int, tf);
                }
                self.entries.set(j, tf);
            },
            None => {
                proof {
                    lemma_map_of_push(self.entries@, tf);
                }
                self.entries.push(tf);
            },
        }
    }

    /// The key of each scanned entry, where it has one.
    fn keys_of_scan(&self, scanned: &Vec<ScanEntry>) -> (keys: Vec<Option<String>>)
        ensures
            keys.len() == scanned.len(),
            forall|j: int|
                0 <= j < scanned.len() ==> (#[trigger] keys@[j] is Some <==> scan_key(
                    scanned@[j],
                    self.base(),
                ) is Some) && (keys@[j] is Some ==> Some(keys@[j]->0@) == scan_key(
                    scanned@[j],
                    self.base(),
                )),
            listed(keys@) == scan_keys(scanned@, self.base()),
    {
        let mut keys: Vec<Option<String>> = Vec::new();
        let mut i: usize = 0;
        while i < scanned.len()
            invariant
                i <= scanned.len(),
                keys.len() == i,
                forall|j: int|
                    0 <= j < i ==> (#[trigger] keys@[j] is Some <==> scan_key(
                        scanned@[j],
                        self.base(),
                    ) is Some) && (keys@[j] is Some ==> Some(keys@[j]->0@) == scan_key(
                        scanned@[j],
                        self.base(),
                    )),
            decreases scanned.len() - i,
        {
            match calculate_relative_path(scanned[i].path.as_str(), self.base_dir.as_str()) {
                Ok(k) => keys.push(Some(k)),
                Err(_) => keys.push(None),
            }
            i = i + 1;
        }
        assert forall|k: Seq<char>| listed(keys@).contains(k) implies scan_keys(
            scanned@,
            self.base(),
        ).contains(k) by {
            let j = choose|j: int| 0 <= j < keys@.len() && keys@[j] is Some && keys@[j]->0@ == k;
            assert(keys@[j] is Some);
        }
        assert forall|k: Seq<char>| scan_keys(scanned@, self.base()).contains(k) implies listed(
            keys@,
        ).contains(k) by {
            let j = choose|j: int|
                0 <= j < scanned@.len() && scan_key(scanned@[j], self.base()) == Some(k);
            assert(keys@[j] is Some);
        }
        assert(listed(keys@) =~= scan_keys(scanned@, self.base()));
        keys
    }

    /// Whether the listed keys are exactly the tracked ones.
    fn same_keys(&self, keys: &Vec<Option<String>>) -> (r: bool)
        requires
            self.wf(),
        ensures
            r == (self.files().dom() == listed(keys@)),
    {
        proof {
            lemma_map_of(self.entries@);
        }
        let mut i: usize = 0;
        while i < self.entries.len()
            invariant
                self.wf(),
                self.files().dom() == keys_of(self.entries@).to_set(),
                i <= self.entries.len(),
                forall|p: int| 0 <= p < i ==> listed(keys@).contains(#[trigger] self.entries@[p].relative_path@),
            decreases self.entries.len() - i,
        {
            if !key_listed(keys, &self.entries[i].relative_path) {
                proof {
                    let k = self.entries@[i as int].relative_path@;
                    assert(keys_of(self.entries@)[i as int] == k);
                    assert(self.files().dom().contains(k));
                }
                return false;
            }
            i = i + 1;
        }
        let mut j: usize = 0;
        while j < keys.len()
            invariant
                self.wf(),
                self.files().dom() == keys_of(self.entries@).to_set(),
                forall|p: int| 0 <= p < self.entries.len() ==> listed(keys@).contains(#[trigger] self.entries@[p].relative_path@),
                j <= keys.len(),
                forall|p: int| 0 <= p < j && (#[trigger] keys@[p]) is Some ==> self.files().dom().contains(keys@[p]->0@),
            decreases keys.len() - j,
        {
            if let Some(k) = &keys[j] {
                if find_entry(&self.entries, k).is_none() {
                    assert(listed(keys@).contains(k@));
                    return false;
                }
            }
            j = j + 1;
        }
        assert forall|k: Seq<char>| self.files().dom().contains(k) implies listed(keys@).contains(k) by {
            let p = choose|p: int| 0 <= p < keys_of(self.entries@).len() && keys_of(self.entries@)[p] == k;
            assert(self.entries@[p].relative_path@ == k);
        }
        assert forall|k: Seq<char>| listed(keys@).contains(k) implies self.files().dom().contains(k) by {
            let p = choose|p: int| 0 <= p < keys@.len() && keys@[p] is Some && keys@[p]->0@ == k;
            assert(keys@[p] is Some);
        }
        assert(self.files().dom() =~= listed(keys@));
        true
    }

    /// The first entry of the scan with key `key` that was read, if any.
    fn first_read_entry(
        &self,
        keys: &Vec<Option<String>>,
        scanned: &Vec<ScanEntry>,
        key: &String,
    ) -> (r: Option<usize>)
        requires
            keys.len() == scanned.len(),
            forall|p: int|
                0 <= p < scanned.len() ==> (#[trigger] keys@[p] is Some <==> scan_key(
                    scanned@[p],
                    self.base(),
                ) is Some) && (keys@[p] is Some ==> Some(keys@[p]->0@) == scan_key(
                    scanned@[p],
                    self.base(),
                )),
        ensures
            r is Some ==> r->0 < scanned.len() && first_readable(
                scanned@,
                self.base(),
                key@,
                r->0 as int,
            ),
            r is None ==> forall|i: int| !readable_at(scanned@, self.base(), key@, i),
    {
        let mut j: usize = 0;
        while j < scanned.len()
            invariant
                j <= scanned.len(),
                keys.len() == scanned.len(),
                forall|p: int|
                    0 <= p < scanned.len() ==> (#[trigger] keys@[p] is Some <==> scan_key(
                        scanned@[p],
                        self.base(),
                    ) is Some) && (keys@[p] is Some ==> Some(keys@[p]->0@) == scan_key(
                        scanned@[p],
                        self.base(),
                    )),
                forall|p: int| 0 <= p < j ==> !readable_at(scanned@, self.base(), key@, p),
            decreases scanned.len() - j,
        {
            if let Some(k) = &keys[j] {
                if *k == *key && scanned[j].contents.is_some() {
                    return Some(j);
                }
            }
            proof {
                if keys@[j as int] is Some {
                    assert(Some(keys@[j as int]->0@) == scan_key(scanned@[j as int], self.base()));
                }
            }
            j = j + 1;
        }
        None
    }

    /// The tracked documents, each with the newer content that the scan read
    /// for it taken in; and whether any was.
    fn refreshed_entries(&self, keys: &Vec<Option<String>>, scanned: &Vec<ScanEntry>) -> (r: (
        Vec<TrackedFile>,
        bool,
    ))
        requires
            self.wf(),
            keys.len() == scanned.len(),
            forall|p: int|
                0 <= p < scanned.len() ==> (#[trigger] keys@[p] is Some <==> scan_key(
                    scanned@[p],
                    self.base(),
                ) is Some) && (keys@[p] is Some ==> Some(keys@[p]->0@) == scan_key(
                    scanned@[p],
                    self.base(),
                )),
        ensures
            keys_of(r.0@).no_duplicates(),
            forall|i: int|
                0 <= i < r.0@.len() ==> relative_to((#[trigger] r.0@[i]).path@, self.base())
                    == Some(r.0@[i].relative_path@),
            forall|k: Seq<char>|
                #[trigger] map_of(r.0@).contains_key(k) <==> self.files().contains_key(k),
            forall|k: Seq<char>|
                #[trigger] map_of(r.0@).contains_key(k) ==> map_of(r.0@)[k] == retained_view(
                    self.files(),
                    scanned@,
                    self.base(),
                    k,
                ),
            r.1 == exists|k: Seq<char>| #[trigger]
                newer_in_scan(self.files(), scanned@, self.base(), k),
    {
        proof {
            lemma_map_of(self.entries@);
        }
        let mut kept: Vec<TrackedFile> = Vec::new();
        let mut refreshed: bool = false;
        let mut i: usize = 0;
        while i < self.entries.len()
            invariant
                self.wf(),
                self.files().dom() == keys_of(self.entries@).to_set(),
                forall|p: int|
                    0 <= p < self.entries@.len() ==> self.files()[#[trigger] self.entries@[p].relative_path@]
                        == self.entries@[p]@,
                keys.len() == scanned.len(),
                forall|p: int|
                    0 <= p < scanned.len() ==> (#[trigger] keys@[p] is Some <==> scan_key(
                        scanned@[p],
                        self.base(),
                    ) is Some) && (keys@[p] is Some ==> Some(keys@[p]->0@) == scan_key(
                        scanned@[p],
                        self.base(),
                    )),
                i <= self.entries.len(),
                keys_of(kept@).no_duplicates(),
                forall|p: int|
                    0 <= p < kept@.len() ==> relative_to((#[trigger] kept@[p]).path@, self.base())
                        == Some(kept@[p].relative_path@),
                forall|k: Seq<char>|
                    #[trigger] map_of(kept@).contains_key(k) <==> keys_of(self.entries@).take(
                        i as int,
                    ).contains(k),
                forall|k: Seq<char>|
                    #[trigger] map_of(kept@).contains_key(k) ==> map_of(kept@)[k] == retained_view(
                        self.files(),
                        scanned@,
                        self.base(),
                        k,
                    ),
                refreshed == exists|p: int|
                    0 <= p < i && #[trigger] newer_in_scan(
                        self.files(),
                        scanned@,
                        self.base(),
                        self.entries@[p].relative_path@,
                    ),
            decreases self.entries.len() - i,
        {
            let ghost k = self.entries@[i as int].relative_path@;
            let ghost before = kept@;
            let ghost was = refreshed;
            assert(keys_of(self.entries@).take(i + 1) =~= keys_of(self.entries@).take(i as int).push(k));
            assert(self.files()[k] == self.entries@[i as int]@);
            assert(self.files().contains_key(k)) by {
                assert(keys_of(self.entries@)[i as int] == k);
            }
            {
                proof {
                    lemma_map_of(kept@);
                    if keys_of(kept@).contains(k) {
                        assert(map_of(kept@).contains_key(k));
                        let q = choose|q: int| 0 <= q < i && keys_of(self.entries@).take(i as int)[q] == k;
                        assert(keys_of(self.entries@)[q] == keys_of(self.entries@)[i as int]);
                    }
                }
                let mut f = copy_file(&self.entries[i]);
                match self.first_read_entry(keys, scanned, &self.entries[i].relative_path) {
                    Some(j) => {
                        proof {
                            lemma_first_read_index(scanned@, self.base(), k, j as int);
                        }
                        if let Some(c) = &scanned[j].contents {
                            if c.last_modified > self.entries[i].last_modified {
                                f = TrackedFile::new(
                                    self.entries[i].relative_path.clone(),
                                    self.entries[i].path.clone(),
                                    c.last_modified,
                                    c.markdown.clone(),
                                );
                                refreshed = true;
                            }
                        }
                    },
                    None => {},
                }
                assert(f@ == retained_view(self.files(), scanned@, self.base(), k));
                assert(refreshed == (was || newer_in_scan(self.files(), scanned@, self.base(), k)));
                proof {
                    lemma_map_of_push(kept@, f);
                }
                kept.push(f);
                assert forall|p: int|
                    0 <= p < kept@.len() implies relative_to((#[trigger] kept@[p]).path@, self.base())
                        == Some(kept@[p].relative_path@) by {
                    if p < before.len() {
                        assert(kept@[p] == before[p]);
                    }
                }
            }
            assert forall|k2: Seq<char>|
                #[trigger] map_of(kept@).contains_key(k2) <==> keys_of(self.entries@).take(
                    i + 1,
                ).contains(k2) by {
                let t = keys_of(self.entries@).take(i as int);
                assert(keys_of(self.entries@).take(i + 1) == t.push(k));
                if t.push(k).contains(k2) && k2 != k {
                    let q = choose|q: int| 0 <= q < t.push(k).len() && t.push(k)[q] == k2;
                    assert(t[q] == k2);
                }
                if t.contains(k2) {
                    let q = choose|q: int| 0 <= q < t.len() && t[q] == k2;
                    assert(t.push(k)[q] == k2);
                }
                assert(t.push(k)[i as int] == k);
            }
            assert(refreshed == exists|p: int|
                0 <= p < i + 1 && #[trigger] newer_in_scan(
                    self.files(),
                    scanned@,
                    self.base(),
                    self.entries@[p].relative_path@,
                )) by {
                if refreshed && !was {
                    assert(newer_in_scan(self.files(), scanned@, self.base(), self.entries@[i as int].relative_path@));
                }
            }
            i = i + 1;
        }
        assert(keys_of(self.entries@).take(i as int) =~= keys_of(self.entries@));
        proof {
            if exists|k: Seq<char>| #[trigger] newer_in_scan(self.files(), scanned@, self.base(), k) {
                let k = choose|k: Seq<char>| #[trigger] newer_in_scan(
                    self.files(),
                    scanned@,
                    self.base(),
                    k,
                );
                assert(keys_of(self.entries@).to_set().contains(k));
                let p = choose|p: int|
                    0 <= p < keys_of(self.entries@).len() && keys_of(self.entries@)[p] == k;
                assert(self.entries@[p].relative_path@ == k);
            }
        }
        (kept, refreshed)
    }

    /// Copies of the tracked documents whose keys are listed.
    fn kept_entries(&self, keys: &Vec<Option<String>>) -> (kept: Vec<TrackedFile>)
        requires
            self.wf(),
        ensures
            keys_of(kept@).no_duplicates(),
            forall|i: int|
                0 <= i < kept@.len() ==> relative_to((#[trigger] kept@[i]).path@, self.base())
                    == Some(kept@[i].relative_path@),
            forall|k: Seq<char>|
                #[trigger] map_of(kept@).contains_key(k) <==> self.files().contains_key(k)
                    && listed(keys@).contains(k),
            forall|k: Seq<char>|
                #[trigger] map_of(kept@).contains_key(k) ==> map_of(kept@)[k] == self.files()[k],
    {
        proof {
            lemma_map_of(self.entries@);
        }
        let mut kept: Vec<TrackedFile> = Vec::new();
        let mut i: usize = 0;
        while i < self.entries.len()
            invariant
                self.wf(),
                self.files().dom() == keys_of(self.entries@).to_set(),
                forall|p: int|
                    0 <= p < self.entries@.len() ==> self.files()[#[trigger] self.entries@[p].relative_path@]
                        == self.entries@[p]@,
                i <= self.entries.len(),
                keys_of(kept@).no_duplicates(),
                forall|p: int|
                    0 <= p < kept@.len() ==> relative_to((#[trigger] kept@[p]).path@, self.base())
                        == Some(kept@[p].relative_path@),
                forall|k: Seq<char>|
                    #[trigger] map_of(kept@).contains_key(k) <==> keys_of(self.entries@).take(
                        i as int,
                    ).contains(k) && listed(keys@).contains(k),
                forall|k: Seq<char>|
                    #[trigger] map_of(kept@).contains_key(k) ==> map_of(kept@)[k] == self.files()[k],
            decreases self.entries.len() - i,
        {
            let ghost k = self.entries@[i as int].relative_path@;
            let ghost before = kept@;
            assert(keys_of(self.entries@).take(i + 1) =~= keys_of(self.entries@).take(i as int).push(k));
            if key_listed(keys, &self.entries[i].relative_path) {
                proof {
                    lemma_map_of(kept@);
                    if keys_of(kept@).contains(k) {
                        assert(map_of(kept@).contains_key(k));
                        let q = choose|q: int| 0 <= q < i && keys_of(self.entries@).take(i as int)[q] == k;
                        assert(keys_of(self.entries@)[q] == keys_of(self.entries@)[i as int]);
                    }
                }
                let f = copy_file(&self.entries[i]);
                proof {
                    lemma_map_of_push(kept@, f);
                }
                kept.push(f);
                assert forall|p: int|
                    0 <= p < kept@.len() implies relative_to((#[trigger] kept@[p]).path@, self.base())
                        == Some(kept@[p].relative_path@) by {
                    if p < before.len() {
                        assert(kept@[p] == before[p]);
                    }
                }
            }
            assert forall|k2: Seq<char>|
                #[trigger] map_of(kept@).contains_key(k2) <==> keys_of(self.entries@).take(
                    i + 1,
                ).contains(k2) && listed(keys@).contains(k2) by {
                let t = keys_of(self.entries@).take(i as int);
                assert(keys_of(self.entries@).take(i + 1) == t.push(k));
                if t.push(k).contains(k2) && k2 != k {
                    let q = choose|q: int| 0 <= q < t.push(k).len() && t.push(k)[q] == k2;
                    assert(t[q] == k2);
                }
                if t.contains(k2) {
                    let q = choose|q: int| 0 <= q < t.len() && t[q] == k2;
                    assert(t.push(k)[q] == k2);
                }
                assert(t.push(k)[i as int] == k);
            }
            i = i + 1;
        }
        assert(keys_of(self.entries@).take(i as int) =~= keys_of(self.entries@));
        kept
    }

    /// Brings the index in line with a fresh scan of the root (directory mode
    /// only). When the scan finds exactly the tracked keys nothing changes and
    /// `false` is returned. Otherwise tracked keys that the scan no longer
    /// finds are dropped, the others are kept untouched, new keys are added
    /// from entries that were read (the others are skipped, to be retried by
    /// a later pass), and `true` is returned.
    pub fn rescan_directory(&mut self, scanned: &Vec<ScanEntry>) -> (changed: bool)
        requires
            old(self).wf(),
        ensures
            final(self).wf(),
            final(self).base() == old(self).base(),
            final(self).directory_mode() == old(self).directory_mode(),
            reconciled(
                old(self).files(),
                old(self).base(),
                old(self).directory_mode(),
                scanned@,
                changed,
                final(self).files(),
            ),
    {
        if !self.is_directory_mode {
            return false;
        }
        let keys = self.keys_of_scan(scanned);
        if self.same_keys(&keys) {
            return false;
        }
        let ghost old_files = self.files();
        let ghost base = self.base();
        let ghost sk = scan_keys(scanned@, base);
        let mut kept = self.kept_entries(&keys);
        let mut j: usize = 0;
        while j < scanned.len()
            invariant
                j <= scanned.len(),
                base == self.base_dir@,
                keys.len() == scanned.len(),
                forall|p: int|
                    0 <= p < scanned.len() ==> (#[trigger] keys@[p] is Some <==> scan_key(
                        scanned@[p],
                        base,
                    ) is Some) && (keys@[p] is Some ==> Some(keys@[p]->0@) == scan_key(
                        scanned@[p],
                        base,
                    )),
                listed(keys@) == sk,
                sk == scan_keys(scanned@, base),
                keys_of(kept@).no_duplicates(),
                forall|p: int|
                    0 <= p < kept@.len() ==> relative_to((#[trigger] kept@[p]).path@, base)
                        == Some(kept@[p].relative_path@),
                forall|k: Seq<char>|
                    #[trigger] map_of(kept@).contains_key(k) <==> sk.contains(k) && (
                    old_files.contains_key(k) || exists|p: int|
                        0 <= p < j && readable_at(scanned@, base, k, p)),
                forall|k: Seq<char>|
                    #[trigger] map_of(kept@).contains_key(k) && old_files.contains_key(k)
                        ==> map_of(kept@)[k] == old_files[k],
                forall|k: Seq<char>|
                    #[trigger] map_of(kept@).contains_key(k) && !old_files.contains_key(k)
                        ==> exists|p: int|
                        0 <= p < j && first_readable(scanned@, base, k, p) && map_of(kept@)[k]
                            == entry_view(scanned@[p]),
            decreases scanned.len() - j,
        {
            let ghost before = kept@;
            proof {
                lemma_map_of(kept@);
            }
            if let Some(k) = &keys[j] {
                if let Some(c) = &scanned[j].contents {
                    if find_entry(&kept, k).is_none() {
                        let ghost kv = k@;
                        assert(!map_of(kept@).contains_key(kv));
                        assert(readable_at(scanned@, base, kv, j as int));
                        assert(sk.contains(kv));
                        assert(!old_files.contains_key(kv));
                        assert(first_readable(scanned@, base, kv, j as int));
                        let f = TrackedFile::new(
                            k.clone(),
                            scanned[j].path.clone(),
                            c.last_modified,
                            c.markdown.clone(),
                        );
                        proof {
                            lemma_map_of_push(kept@, f);
                        }
                        kept.push(f);
                        assert forall|p: int|
                            0 <= p < kept@.len() implies relative_to(
                                (#[trigger] kept@[p]).path@,
                                base,
                            ) == Some(kept@[p].relative_path@) by {
                            if p < before.len() {
                                assert(kept@[p] == before[p]);
                            }
                        }
                        assert forall|k2: Seq<char>|
                            #[trigger] map_of(kept@).contains_key(k2) && !old_files.contains_key(
                                k2,
                            ) implies exists|p: int|
                            0 <= p < j + 1 && first_readable(scanned@, base, k2, p)
                                && map_of(kept@)[k2] == entry_view(scanned@[p]) by {
                            if k2 == kv {
                                assert(first_readable(scanned@, base, k2, j as int));
                            } else {
                                assert(map_of(before).contains_key(k2));
                            }
                        }
                    } else {
                        assert(map_of(kept@).contains_key(k@));
                    }
                }
            }
            assert forall|k2: Seq<char>|
                #[trigger] map_of(kept@).contains_key(k2) <==> sk.contains(k2) && (
                old_files.contains_key(k2) || exists|p: int|
                    0 <= p < j + 1 && readable_at(scanned@, base, k2, p)) by {
                if sk.contains(k2) && !old_files.contains_key(k2) && readable_at(
                    scanned@,
                    base,
                    k2,
                    j as int,
                ) {
                    assert(keys@[j as int] is Some);
                }
            }
            j = j + 1;
        }
        proof {
            let target = rebuilt(old_files, scanned@, base);
            assert forall|k: Seq<char>| #[trigger] map_of(kept@).contains_key(k) implies map_of(
                kept@,
            )[k] == target[k] by {
                if !old_files.contains_key(k) {
                    let p = choose|p: int|
                        0 <= p < j && first_readable(scanned@, base, k, p) && map_of(kept@)[k]
                            == entry_view(scanned@[p]);
                    lemma_first_read_index(scanned@, base, k, p);
                }
            }
            assert(map_of(kept@).dom() =~= target.dom());
            assert(map_of(kept@) =~= target);
        }
        self.entries = kept;
        true
    }

    /// Takes in, for every tracked key, the newer content that the scan read
    /// for it (from the key's first read entry, when its file is strictly
    /// newer than the stored document); the keys stay as they are. Returns the
    /// reload to announce when some document was taken in, `None` otherwise.
    pub fn refresh_from_scan(&mut self, scanned: &Vec<ScanEntry>) -> (r: Option<ServerMessage>)
        requires
            old(self).wf(),
        ensures
            final(self).wf(),
            final(self).base() == old(self).base(),
            final(self).directory_mode() == old(self).directory_mode(),
            final(self).files() == refreshed_from_scan(old(self).files(), scanned@, old(self).base()),
            r is Some <==> has_newer(old(self).files(), scanned@, old(self).base()),
            r is Some ==> r->0 is Reload,
    {
        let keys = self.keys_of_scan(scanned);
        let (fresh, any) = self.refreshed_entries(&keys, scanned);
        proof {
            let target = refreshed_from_scan(self.files(), scanned@, self.base());
            assert(map_of(fresh@).dom() =~= target.dom());
            assert(map_of(fresh@) =~= target);
        }
        self.entries = fresh;
        if any {
            Some(ServerMessage::Reload)
        } else {
            None
        }
    }

    /// A reconciliation pass followed by its classification: `None` when the
    /// pass changed nothing, otherwise the one message that announces the
    /// change from the keys before the pass to the keys after it.
    pub fn rescan_and_detect_changes(&mut self, scanned: &Vec<ScanEntry>) -> (r: Option<ServerMessage>)
        requires
            old(self).wf(),
        ensures
            final(self).wf(),
            final(self).base() == old(self).base(),
            final(self).directory_mode() == old(self).directory_mode(),
            reconciled(
                old(self).files(),
                old(self).base(),
                old(self).directory_mode(),
                scanned@,
                r is Some,
                final(self).files(),
            ),
            r is Some ==> announced(r->0, old(self).key_order(), final(self).key_order()),
    {
        proof {
            self.lemma_wf();
        }
        let old_files = self.keys();
        let changed = self.rescan_directory(scanned);
        if !changed {
            return None;
        }
        proof {
            self.lemma_wf();
        }
        let new_files = self.keys();
        let change = detect_file_change(&old_files, &new_files);
        let msg = change_message(change);
        proof {
            lemma_message_announces(change, msg, texts(old_files@), texts(new_files@));
        }
        Some(msg)
    }

    /// What to do about the file at `path`, whose canonical form is
    /// `canonical`, after it was created or changed: refresh it when it is
    /// tracked, add it when it is new and the whole tree is served.
    pub fn handle_markdown_file_change(&self, path: &str, canonical: &str) -> (r: MarkdownAction)
        requires
            self.wf(),
        ensures
            !is_markdown_path(path@) ==> r is Ignore,
            is_markdown_path(path@) ==> match relative_to(canonical@, self.base()) {
                None => r is Ignore,
                Some(k) => if self.files().contains_key(k) {
                    r matches MarkdownAction::Refresh { key } && key@ == k
                } else if self.directory_mode() {
                    r matches MarkdownAction::Add { key } && key@ == k
                } else {
                    r is Ignore
                },
            },
    {
        if !is_markdown_file(path) {
            return MarkdownAction::Ignore;
        }
        match self.relative_key(canonical) {
            Err(_) => MarkdownAction::Ignore,
            Ok(key) => {
                if self.is_tracked(key.as_str()) {
                    MarkdownAction::Refresh { key }
                } else if self.is_directory_mode {
                    MarkdownAction::Add { key }
                } else {
                    MarkdownAction::Ignore
                }
            },
        }
    }

    /// The tracked documents as API entries, in ascending order of key.
    pub fn api_get_files(&self) -> (r: Vec<ApiFile>)
        requires
            self.wf(),
        ensures
            strictly_sorted(api_paths(r@)),
            api_paths(r@).to_set() == self.files().dom(),
    {
        let names = self.get_sorted_filenames();
        let mut r: Vec<ApiFile> = Vec::new();
        let mut i: usize = 0;
        while i < names.len()
            invariant
                i <= names.len(),
                api_paths(r@) == texts(names@).take(i as int),
            decreases names.len() - i,
        {
            let ghost prev = r@;
            r.push(ApiFile::new(names[i].clone()));
            assert(api_paths(r@) =~= api_paths(prev).push(names@[i as int]@));
            assert(texts(names@).take(i + 1) =~= texts(names@).take(i as int).push(names@[i as int]@));
            i = i + 1;
        }
        assert(texts(names@).take(i as int) =~= texts(names@));
        r
    }

    /// The canonical root directory.
    pub fn base_dir(&self) -> (r: &String)
        ensures
            r@ == self.base(),
    {
        &self.base_dir
    }

    /// Whether the index serves a whole directory tree.
    pub fn is_directory_mode(&self) -> (r: bool)
        ensures
            r == self.directory_mode(),
    {
        self.is_directory_mode
    }

    /// The key under which the document at the canonical path `path` is tracked.
    pub fn relative_key(&self, path: &str) -> (r: Result<String, PathError>)
        ensures
            r is Ok <==> relative_to(path@, self.base()) is Some,
            r is Ok ==> Some(r->Ok_0@) == relative_to(path@, self.base()),
    {
        calculate_relative_path(path, self.base_dir.as_str())
    }

    /// The number of tracked documents.
    pub fn len(&self) -> (r: usize)
        requires
            self.wf(),
        ensures
            r == self.files().len(),
    {
        proof {
            lemma_map_of(self.entries@);
            keys_of(self.entries@).unique_seq_to_set();
        }
        self.entries.len()
    }

    /// Whether a document is tracked under `key`.
    pub fn is_tracked(&self, key: &str) -> (r: bool)
        requires
            self.wf(),
        ensures
            r == self.files().contains_key(key@),
    {
        proof {
            lemma_map_of(self.entries@);
        }
        let k = key.to_owned();
        find_entry(&self.entries, &k).is_some()
    }

    /// The document tracked under `key`.
    pub fn get(&self, key: &str) -> (r: Option<&TrackedFile>)
        requires
            self.wf(),
        ensures
            r is None <==> !self.files().contains_key(key@),
            r is Some ==> r->0.relative_path@ == key@ && self.files()[key@] == r->0@,
    {
        proof {
            lemma_map_of(self.entries@);
        }
        let k = key.to_owned();
        match find_entry(&self.entries, &k) {
            Some(j) => Some(&self.entries[j]),
            None => None,
        }
    }

    /// The tracked keys, in the index's own order.
    pub fn keys(&self) -> (r: Vec<String>)
        ensures
            texts(r@) == self.key_order(),
    {
        let mut r: Vec<String> = Vec::new();
        let mut i: usize = 0;
        while i < self.entries.len()
            invariant
                i <= self.entries.len(),
                texts(r@) == keys_of(self.entries@).take(i as int),
            decreases self.entries.len() - i,
        {
            let ghost prev = r@;
            let k = self.entries[i].relative_path.clone();
            r.push(k);
            assert(r@ == prev.push(k));
            assert(keys_of(self.entries@).take(i + 1) =~= keys_of(self.entries@).take(
                i as int,
            ).push(self.entries@[i as int].relative_path@));
            assert(texts(r@) =~= texts(prev).push(k@));
            i = i + 1;
        }
        assert(keys_of(self.entries@).take(i as int) =~= keys_of(self.entries@));
        r
    }

    /// The tracked keys in ascending order.
    pub fn get_sorted_filenames(&self) -> (r: Vec<String>)
        requires
            self.wf(),
        ensures
            strictly_sorted(texts(r@)),
            texts(r@).to_set() == self.files().dom(),
    {
        proof {
            lemma_map_of(self.entries@);
        }
        sort_unique(self.keys())
    }

    /// Whether the document under `key` must be read again: it is tracked
    /// and the file's modification time `current_modified` is strictly newer
    /// than the one stored.
    pub fn needs_refresh(&self, key: &str, current_modified: u64) -> (r: bool)
        requires
            self.wf(),
        ensures
            r == (self.files().contains_key(key@) && current_modified
                > self.files()[key@].last_modified),
    {
        match self.get(key) {
            Some(f) => current_modified > f.last_modified,
            None => false,
        }
    }

    /// Takes in the text `markdown` read from the document under `key` when
    /// its modification time `current_modified` is strictly newer than the
    /// stored one, and returns the reload to announce; otherwise leaves the
    /// index as it is and returns `None`, so repeated events for one change
    /// announce it once.
    pub fn refresh_file(&mut self, key: &str, current_modified: u64, markdown: String) -> (r: Option<
        ServerMessage,
    >)
        requires
            old(self).wf(),
        ensures
            r is Some <==> (old(self).files().contains_key(key@) && current_modified > old(
                self,
            ).files()[key@].last_modified),
            r is Some ==> r->0 is Reload,
            final(self).wf(),
            final(self).base() == old(self).base(),
            final(self).directory_mode() == old(self).directory_mode(),
            final(self).files() == refreshed(old(self).files(), key@, current_modified, markdown@),
    {
        proof {
            lemma_map_of(self.entries@);
        }
        let k = key.to_owned();
        if let Some(j) = find_entry(&self.entries, &k) {
            if current_modified > self.entries[j].last_modified {
                let tf = TrackedFile::new(
                    k,
                    self.entries[j].path.clone(),
                    current_modified,
                    markdown,
                );
                self.put(tf);
                return Some(ServerMessage::Reload);
            }
        }
        None
    }

    /// Takes in the text `new_content` just written to the document under
    /// `key` at time `now`; the stored modification time never goes back.
    /// Returns the message to announce, or `FileNotFound` when nothing is
    /// tracked under `key`.
    pub fn update_file(&mut self, key: &str, new_content: String, now: u64) -> (r: Result<
        ServerMessage,
        IndexError,
    >)
        requires
            old(self).wf(),
        ensures
            final(self).wf(),
            final(self).base() == old(self).base(),
            final(self).directory_mode() == old(self).directory_mode(),
            r is Err <==> !old(self).files().contains_key(key@),
            r is Err ==> final(self).files() == old(self).files(),
            r is Ok ==> r->Ok_0 is Reload && {
                let f = old(self).files()[key@];
                let t = if now > f.last_modified {
                    now
                } else {
                    f.last_modified
                };
                final(self).files() == old(self).files().insert(
                    key@,
                    file_view(f.path, t, new_content@),
                )
            },
    {
        proof {
            lemma_map_of(self.entries@);
        }
        let k = key.to_owned();
        match find_entry(&self.entries, &k) {
            Some(j) => {
                let stored: u64 = self.entries[j].last_modified;
                let t: u64 = if now > stored {
                    now
                } else {
                    stored
                };
                let tf = TrackedFile::new(k, self.entries[j].path.clone(), t, new_content);
                self.put(tf);
                Ok(ServerMessage::Reload)
            },
            None => Err(IndexError::FileNotFound),
        }
    }

    /// Starts tracking the document `file` unless its key is tracked already,
    /// in which case the index is left as it is and `Ok(false)` returned.
    /// Fails when the file does not lie below the root.
    pub fn add_tracked_file(&mut self, file: FileRead) -> (r: Result<bool, PathError>)
        requires
            old(self).wf(),
        ensures
            final(self).wf(),
            final(self).base() == old(self).base(),
            final(self).directory_mode() == old(self).directory_mode(),
            r is Err <==> relative_to(file.path@, old(self).base()) is None,
            r is Ok ==> (r->Ok_0 <==> !old(self).files().contains_key(
                key_of(file.path@, old(self).base()),
            )),
            final(self).files() == if r == Ok::<bool, PathError>(true) {
                old(self).files().insert(
                    key_of(file.path@, old(self).base()),
                    file_view(file.path@, file.last_modified, file.markdown@),
                )
            } else {
                old(self).files()
            },
    {
        proof {
            lemma_map_of(self.entries@);
        }
        let key = match calculate_relative_path(file.path.as_str(), self.base_dir.as_str()) {
            Ok(k) => k,
            Err(e) => {
                return Err(e);
            },
        };
        if find_entry(&self.entries, &key).is_some() {
            return Ok(false);
        }
        let tf = TrackedFile::new(key, file.path, file.last_modified, file.markdown);
        self.put(tf);
        Ok(true)
    }
}

/// Reconciling twice against the same scan: when every new key of the scan
/// has at least one entry that was read, the second pass reports no change
/// and leaves the documents as the first pass left them.
pub proof fn lemma_reconcile_idempotent(
    old: Map<Seq<char>, TrackedView>,
    base: Seq<char>,
    directory_mode: bool,
    scan: Seq<ScanEntry>,
    changed1: bool,
    mid: Map<Seq<char>, TrackedView>,
    changed2: bool,
    new: Map<Seq<char>, TrackedView>,
)
    requires
        reconciled(old, base, directory_mode, scan, changed1, mid),
        reconciled(mid, base, directory_mode, scan, changed2, new),
        forall|k: Seq<char>|
            #[trigger] scan_keys(scan, base).contains(k) && !old.contains_key(k) ==> exists|i: int|
                readable_at(scan, base, k, i),
    ensures
        !changed2,
        new == mid,
{
    if directory_mode && old.dom() != scan_keys(scan, base) {
        assert(mid.dom() =~= scan_keys(scan, base));
    }
}

/// A pass that reports no change leaves the index as it was, and so does
/// the pass after it.
pub proof fn lemma_unchanged_stays_unchanged(
    old: Map<Seq<char>, TrackedView>,
    base: Seq<char>,
    directory_mode: bool,
    scan: Seq<ScanEntry>,
    mid: Map<Seq<char>, TrackedView>,
    changed2: bool,
    new: Map<Seq<char>, TrackedView>,
)
    requires
        reconciled(old, base, directory_mode, scan, false, mid),
        reconciled(mid, base, directory_mode, scan, changed2, new),
    ensures
        mid == old,
        !changed2,
        new == old,
{
}

/// After newer content is taken in from a scan, the same scan holds nothing
/// newer, so a second refresh from it changes nothing and reports nothing.
pub proof fn lemma_refresh_from_scan_once(
    old: Map<Seq<char>, TrackedView>,
    scan: Seq<ScanEntry>,
    base: Seq<char>,
)
    ensures
        !has_newer(refreshed_from_scan(old, scan, base), scan, base),
        refreshed_from_scan(refreshed_from_scan(old, scan, base), scan, base)
            == refreshed_from_scan(old, scan, base),
{
    let mid = refreshed_from_scan(old, scan, base);
    assert forall|k: Seq<char>| !#[trigger] newer_in_scan(mid, scan, base, k) by {
        if newer_in_scan(mid, scan, base, k) {
            let i = choose|i: int| readable_at(scan, base, k, i);
            lemma_first_readable_exists(scan, base, k, i);
        }
    }
    let again = refreshed_from_scan(mid, scan, base);
    assert(again.dom() =~= mid.dom());
    assert(again =~= mid);
}

/// An atomic replace of a tracked document under the same name, seen by the
/// debounced pass: the keys are unchanged, so the pass reports nothing and
/// changes nothing; the refresh that follows takes in the new content and
/// reports one reload; a further refresh from the same scan reports nothing.
pub proof fn lemma_atomic_replace_announced_once(
    old: Map<Seq<char>, TrackedView>,
    base: Seq<char>,
    scan: Seq<ScanEntry>,
    k: Seq<char>,
    i: int,
    changed: bool,
    mid: Map<Seq<char>, TrackedView>,
)
    requires
        old.dom() == scan_keys(scan, base),
        reconciled(old, base, true, scan, changed, mid),
        old.contains_key(k),
        first_readable(scan, base, k, i),
        scan[i].contents->0.last_modified > old[k].last_modified,
    ensures
        !changed,
        mid == old,
        has_newer(mid, scan, base),
        refreshed_from_scan(mid, scan, base)[k].markdown == scan[i].contents->0.markdown@,
        !has_newer(refreshed_from_scan(mid, scan, base), scan, base),
{
    lemma_first_read_index(scan, base, k, i);
    assert(newer_in_scan(mid, scan, base, k));
    lemma_refresh_from_scan_once(mid, scan, base);
}

} // verus!
