//! The change classifier: from the key sets before and after a pass to one
//! semantic change.
use vstd::prelude::*;
use crate::messages::{message_for, FileChangeType, ServerMessage};
use crate::text::texts;

verus! {

/// The keys of `a` that `b` lacks, in the order of `a`.
pub open spec fn missing_from(a: Seq<Seq<char>>, b: Seq<Seq<char>>) -> Seq<Seq<char>> {
    a.filter(|k: Seq<char>| !b.contains(k))
}

/// The classification of a pass from the keys `old` to the keys `new`.
///
/// Exactly one key added and exactly one removed is a rename, whatever the
/// two files hold: the usual cause of such a pair is an editor renaming a
/// file, and content digests are deliberately not compared. Otherwise the
/// first removed key (in the order of `old`) is reported as removed. Anything
/// else (only additions, or no change of keys) asks for a reload.
pub open spec fn classified(r: FileChangeType, old: Seq<Seq<char>>, new: Seq<Seq<char>>) -> bool {
    let added = missing_from(new, old);
    let removed = missing_from(old, new);
    if added.len() == 1 && removed.len() == 1 {
        match r {
            FileChangeType::Renamed { old_name, new_name } => old_name@ == removed[0]
                && new_name@ == added[0],
            _ => false,
        }
    } else if removed.len() > 0 {
        match r {
            FileChangeType::Removed { name } => name@ == removed[0],
            _ => false,
        }
    } else {
        r is Other
    }
}

/// With distinct keys, the keys of `a` that `b` lacks are exactly the set
/// difference, and there are as many of them as that difference has
/// members: the classification counts added and removed files.
pub proof fn lemma_missing_from_is_difference(a: Seq<Seq<char>>, b: Seq<Seq<char>>)
    requires
        a.no_duplicates(),
    ensures
        missing_from(a, b).to_set() == a.to_set().difference(b.to_set()),
        missing_from(a, b).len() == a.to_set().difference(b.to_set()).len(),
{
    let pred = |k: Seq<char>| !b.contains(k);
    let m = a.filter(pred);
    broadcast use vstd::seq_lib::group_filter_ensures;
    assert forall|k: Seq<char>| #[trigger] m.to_set().contains(k) implies a.to_set().difference(
        b.to_set(),
    ).contains(k) by {
        let i = choose|i: int| 0 <= i < m.len() && m[i] == k;
        assert(pred(m[i]));
        assert(a.contains(k)) by {
            a.lemma_filter_contains_rev(pred, k);
        }
    }
    assert forall|k: Seq<char>| #[trigger] a.to_set().difference(b.to_set()).contains(k) implies m.to_set().contains(k) by {
        let i = choose|i: int| 0 <= i < a.len() && a[i] == k;
        a.lemma_filter_contains(pred, i);
    }
    assert(m.to_set() =~= a.to_set().difference(b.to_set()));
    lemma_filter_no_duplicates(a, pred);
    m.unique_seq_to_set();
}

proof fn lemma_filter_no_duplicates(a: Seq<Seq<char>>, pred: spec_fn(Seq<char>) -> bool)
    requires
        a.no_duplicates(),
    ensures
        a.filter(pred).no_duplicates(),
    decreases a.len(),
{
    reveal(Seq::filter);
    if a.len() > 0 {
        let t = a.drop_last();
        assert(t.no_duplicates()) by {
            assert forall|i: int, j: int| 0 <= i < t.len() && 0 <= j < t.len() && i != j implies t[i] != t[j] by {
                assert(a[i] != a[j]);
            }
        }
        lemma_filter_no_duplicates(t, pred);
        if pred(a.last()) {
            let f = t.filter(pred);
            assert(!f.contains(a.last())) by {
                if f.contains(a.last()) {
                    t.lemma_filter_contains_rev(pred, a.last());
                    let i = choose|i: int| 0 <= i < t.len() && t[i] == a.last();
                    assert(a[i] == a[a.len() - 1]);
                }
            }
            assert forall|i: int, j: int| 0 <= i < f.push(a.last()).len() && 0 <= j < f.push(a.last()).len() && i != j implies f.push(a.last())[i] != f.push(a.last())[j] by {
                if i < f.len() && j < f.len() {
                } else if i < f.len() {
                    assert(f.contains(f[i]));
                } else {
                    assert(f.contains(f[j]));
                }
            }
        }
    }
}

/// The message that announces a pass from the keys `old` to the keys `new`.
pub open spec fn announced(msg: ServerMessage, old: Seq<Seq<char>>, new: Seq<Seq<char>>) -> bool {
    let added = missing_from(new, old);
    let removed = missing_from(old, new);
    if added.len() == 1 && removed.len() == 1 {
        match msg {
            ServerMessage::FileRenamed { old_name, new_name } => old_name@ == removed[0]
                && new_name@ == added[0],
            _ => false,
        }
    } else if removed.len() > 0 {
        match msg {
            ServerMessage::FileRemoved { name } => name@ == removed[0],
            _ => false,
        }
    } else {
        msg is Reload
    }
}

/// The message for a classified change announces the pass.
pub proof fn lemma_message_announces(
    c: FileChangeType,
    msg: ServerMessage,
    old: Seq<Seq<char>>,
    new: Seq<Seq<char>>,
)
    requires
        classified(c, old, new),
        message_for(c, msg),
    ensures
        announced(msg, old, new),
{
}

/// Whether `v` holds a string equal to `s`.
pub fn contains_text(v: &Vec<String>, s: &String) -> (r: bool)
    ensures
        r == texts(v@).contains(s@),
{
    let mut i: usize = 0;
    while i < v.len()
        invariant
            i <= v.len(),
            forall|j: int| 0 <= j < i ==> v@[j]@ != s@,
        decreases v.len() - i,
    {
        if v[i] == *s {
            assert(texts(v@)[i as int] == s@);
            return true;
        }
        i = i + 1;
    }
    proof {
        if texts(v@).contains(s@) {
            let j = choose|j: int| 0 <= j < texts(v@).len() && texts(v@)[j] == s@;
            assert(v@[j]@ == s@);
        }
    }
    false
}

/// The strings of `a` that `b` lacks, in the order of `a`.
fn strings_missing_from(a: &Vec<String>, b: &Vec<String>) -> (r: Vec<String>)
    ensures
        texts(r@) == missing_from(texts(a@), texts(b@)),
{
    let mut r: Vec<String> = Vec::new();
    let mut i: usize = 0;
    let ghost pred = |k: Seq<char>| !texts(b@).contains(k);
    assert(texts(a@).take(0) =~= Seq::<Seq<char>>::empty());
    proof {
        reveal(Seq::filter);
    }
    assert(texts(r@) =~= texts(a@).take(0).filter(pred));
    while i < a.len()
        invariant
            i <= a.len(),
            pred == (|k: Seq<char>| !texts(b@).contains(k)),
            texts(r@) == texts(a@).take(i as int).filter(pred),
        decreases a.len() - i,
    {
        let ghost prev = texts(a@).take(i as int);
        assert(texts(a@).take(i + 1) =~= prev.push(a@[i as int]@));
        proof {
            reveal(Seq::filter);
            assert(prev.push(a@[i as int]@).drop_last() =~= prev);
        }
        if !contains_text(b, &a[i]) {
            r.push(a[i].clone());
            assert(texts(r@) =~= texts(a@).take(i + 1).filter(pred));
        } else {
            assert(texts(r@) =~= texts(a@).take(i + 1).filter(pred));
        }
        i = i + 1;
    }
    assert(texts(a@).take(a.len() as int) =~= texts(a@));
    r
}

/// Classifies a reconciliation pass from the tracked keys before it
/// (`old_files`) and after it (`new_files`), two sets of keys, each listed
/// without repeats.
pub fn detect_file_change(old_files: &Vec<String>, new_files: &Vec<String>) -> (r: FileChangeType)
    requires
        texts(old_files@).no_duplicates(),
        texts(new_files@).no_duplicates(),
    ensures
        classified(r, texts(old_files@), texts(new_files@)),
{
    let added = strings_missing_from(new_files, old_files);
    let removed = strings_missing_from(old_files, new_files);
    if added.len() == 1 && removed.len() == 1 {
        assert(texts(removed@)[0] == removed@[0]@);
        assert(texts(added@)[0] == added@[0]@);
        FileChangeType::Renamed { old_name: removed[0].clone(), new_name: added[0].clone() }
    } else if removed.len() > 0 {
        assert(texts(removed@)[0] == removed@[0]@);
        FileChangeType::Removed { name: removed[0].clone() }
    } else {
        FileChangeType::Other
    }
}

} // verus!
