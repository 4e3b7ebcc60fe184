//! Sorting of keys in the order of `text_lt`, without repeats.
use vstd::prelude::*;
use crate::text::{
    chars_of, lemma_text_lt_irreflexive, lemma_text_lt_total,
    lemma_text_lt_transitive, text_less, text_lt, texts,
};

verus! {

/// Every text comes strictly before the ones after it, so none repeats.
pub open spec fn strictly_sorted(s: Seq<Seq<char>>) -> bool {
    forall|i: int, j: int| 0 <= i < j < s.len() ==> text_lt(#[trigger] s[i], #[trigger] s[j])
}

/// A strictly sorted sequence holds no text twice.
pub proof fn lemma_strictly_sorted_no_duplicates(s: Seq<Seq<char>>)
    requires
        strictly_sorted(s),
    ensures
        s.no_duplicates(),
{
    assert forall|i: int, j: int| 0 <= i < s.len() && 0 <= j < s.len() && i != j implies s[i]
        != s[j] by {
        lemma_text_lt_irreflexive(s[i]);
        if i < j {
            assert(text_lt(s[i], s[j]));
        } else {
            assert(text_lt(s[j], s[i]));
        }
    }
}

proof fn lemma_insert_to_set(s: Seq<Seq<char>>, p: int, x: Seq<char>)
    requires
        0 <= p <= s.len(),
    ensures
        s.insert(p, x).to_set() == s.to_set().insert(x),
{
    let t = s.insert(p, x);
    assert forall|k: Seq<char>| s.to_set().insert(x).contains(k) implies t.to_set().contains(k) by {
        if k == x {
            assert(t[p] == x);
        } else {
            let j = choose|j: int| 0 <= j < s.len() && s[j] == k;
            if j < p {
                assert(t[j] == k);
            } else {
                assert(t[j + 1] == k);
            }
        }
    }
    assert forall|k: Seq<char>| t.to_set().contains(k) implies s.to_set().insert(x).contains(k) by {
        let j = choose|j: int| 0 <= j < t.len() && t[j] == k;
        if j < p {
            assert(s[j] == k);
        } else if j > p {
            assert(s[j - 1] == k);
        }
    }
    assert(t.to_set() =~= s.to_set().insert(x));
}

proof fn lemma_push_to_set(s: Seq<Seq<char>>, x: Seq<char>)
    ensures
        s.push(x).to_set() == s.to_set().insert(x),
{
    lemma_insert_to_set(s, s.len() as int, x);
    assert(s.insert(s.len() as int, x) =~= s.push(x));
}

/// Whether `a` comes strictly before `b`.
pub fn string_less(a: &String, b: &String) -> (r: bool)
    ensures
        r == text_lt(a@, b@),
{
    let x = chars_of(a.as_str());
    let y = chars_of(b.as_str());
    text_less(&x, &y)
}

/// The strings of `v` in ascending order, each text once.
pub fn sort_unique(v: Vec<String>) -> (r: Vec<String>)
    ensures
        strictly_sorted(texts(r@)),
        texts(r@).to_set() == texts(v@).to_set(),
{
    let mut r: Vec<String> = Vec::new();
    let mut i: usize = 0;
    assert(texts(v@).take(0).to_set() =~= texts(r@).to_set());
    while i < v.len()
        invariant
            i <= v.len(),
            strictly_sorted(texts(r@)),
            texts(r@).to_set() == texts(v@).take(i as int).to_set(),
        decreases v.len() - i,
    {
        let x = v[i].clone();
        let ghost xs = x@;
        assert(texts(v@).take(i + 1) =~= texts(v@).take(i as int).push(xs));
        let mut p: usize = 0;
        while p < r.len() && string_less(&r[p], &x)
            invariant
                p <= r.len(),
                i < v.len(),
                xs == x@,
                strictly_sorted(texts(r@)),
                texts(r@).to_set() == texts(v@).take(i as int).to_set(),
                texts(v@).take(i + 1) == texts(v@).take(i as int).push(xs),
                forall|q: int| 0 <= q < p ==> text_lt(#[trigger] r@[q]@, xs),
            decreases r.len() - p,
        {
            p = p + 1;
        }
        let ghost before = texts(r@);
        if p < r.len() && r[p] == x {
            assert(texts(r@).to_set() =~= texts(v@).take(i + 1).to_set()) by {
                assert(before[p as int] == xs);
                lemma_push_to_set(texts(v@).take(i as int), xs);
            }
        } else {
            proof {
                if p < r.len() {
                    lemma_text_lt_total(r@[p as int]@, xs);
                }
                assert forall|q: int| p <= q < r.len() implies text_lt(xs, #[trigger] r@[q]@) by {
                    if q > p {
                        assert(text_lt(before[p as int], before[q]));
                        lemma_text_lt_transitive(xs, r@[p as int]@, r@[q]@);
                    }
                }
            }
            r.insert(p, x);
            assert(texts(r@) =~= before.insert(p as int, xs));
            assert(strictly_sorted(texts(r@))) by {
                assert forall|a: int, b: int| 0 <= a < b < texts(r@).len() implies text_lt(
                    #[trigger] texts(r@)[a],
                    #[trigger] texts(r@)[b],
                ) by {
                    if a < p && b > p {
                        lemma_text_lt_transitive(before[a], xs, before[b - 1]);
                    }
                }
            }
            assert(texts(r@).to_set() =~= texts(v@).take(i + 1).to_set()) by {
                lemma_insert_to_set(before, p as int, xs);
                lemma_push_to_set(texts(v@).take(i as int), xs);
            }
        }
        i = i + 1;
    }
    assert(texts(v@).take(v.len() as int) =~= texts(v@));
    r
}

} // verus!
