//! The directory scanner's selection: which of the files found under the root
//! are documents, in which order.
use vstd::prelude::*;
use crate::order::{lemma_strictly_sorted_no_duplicates, sort_unique, strictly_sorted};
use crate::paths::{is_markdown_file, is_markdown_path};
use crate::text::texts;

verus! {

/// The markdown documents among `files`, every file found by a recursive
/// descent of the root: exactly those whose extension is "md" or "markdown"
/// in any case, in ascending order, each once.
pub fn scan_markdown_files(files: Vec<String>) -> (r: Vec<String>)
    ensures
        strictly_sorted(texts(r@)),
        texts(r@).no_duplicates(),
        texts(r@).to_set() == texts(files@).to_set().filter(|p: Seq<char>| is_markdown_path(p)),
{
    let mut md: Vec<String> = Vec::new();
    let mut i: usize = 0;
    while i < files.len()
        invariant
            i <= files.len(),
            forall|k: Seq<char>|
                #[trigger] texts(md@).contains(k) <==> (texts(files@).take(i as int).contains(k)
                    && is_markdown_path(k)),
        decreases files.len() - i,
    {
        let ghost prev = md@;
        let ghost t = texts(files@).take(i as int);
        let ghost x = files@[i as int]@;
        assert(texts(files@).take(i + 1) =~= t.push(x));
        if is_markdown_file(files[i].as_str()) {
            md.push(files[i].clone());
            assert(texts(md@) =~= texts(prev).push(x));
        } else {
            assert(texts(md@) == texts(prev));
        }
        assert forall|k: Seq<char>|
            #[trigger] texts(md@).contains(k) <==> (t.push(x).contains(k) && is_markdown_path(k)) by {
            if t.push(x).contains(k) && k != x {
                let q = choose|q: int| 0 <= q < t.push(x).len() && t.push(x)[q] == k;
                assert(t[q] == k);
            }
            if t.contains(k) {
                let q = choose|q: int| 0 <= q < t.len() && t[q] == k;
                assert(t.push(x)[q] == k);
            }
            assert(t.push(x)[i as int] == x);
            if texts(md@).contains(k) && k != x {
                let q = choose|q: int| 0 <= q < texts(md@).len() && texts(md@)[q] == k;
                assert(texts(prev)[q] == k);
            }
            if texts(prev).contains(k) {
                let q = choose|q: int| 0 <= q < texts(prev).len() && texts(prev)[q] == k;
                assert(texts(md@)[q] == k);
            }
            if k == x && is_markdown_path(k) {
                assert(texts(md@)[texts(md@).len() - 1] == x);
            }
        }
        i = i + 1;
    }
    assert(texts(files@).take(files.len() as int) =~= texts(files@));
    let r = sort_unique(md);
    proof {
        lemma_strictly_sorted_no_duplicates(texts(r@));
    }
    assert(texts(r@).to_set() =~= texts(files@).to_set().filter(|p: Seq<char>| is_markdown_path(p)));
    r
}

} // verus!
