//! A stable sort by an integer key.
use vstd::prelude::*;

verus! {

/// Values that sort by an integer key.
pub trait SortKey {
    /// The key.
    spec fn sort_key(&self) -> usize;

    /// The key.
    fn key(&self) -> (r: usize)
        ensures
            r == self.sort_key(),
    ;
}

/// `s` with `m` inserted after the last element whose key is not above
/// that of `m`: one step of a stable sort by key.
pub open spec fn insert_by_key<T: SortKey>(s: Seq<T>, m: T) -> Seq<T>
    decreases s.len(),
{
    if s.len() == 0 {
        seq![m]
    } else if s.last().sort_key() <= m.sort_key() {
        s.push(m)
    } else {
        insert_by_key(s.drop_last(), m).push(s.last())
    }
}

/// The elements stably sorted by key: elements with the same key keep their
/// order.
pub open spec fn sort_by_key_spec<T: SortKey>(s: Seq<T>) -> Seq<T>
    decreases s.len(),
{
    if s.len() == 0 {
        s
    } else {
        insert_by_key(sort_by_key_spec(s.drop_last()), s.last())
    }
}

/// Elements in ascending order of key.
pub open spec fn sorted_by_key<T: SortKey>(s: Seq<T>) -> bool {
    forall|i: int, j: int| 0 <= i < j < s.len() ==> (#[trigger] s[i]).sort_key() <= (#[trigger] s[j]).sort_key()
}

/// Inserting at `p`, where every element from `p` on lies above `m` and the
/// one before `p` does not, is the insertion step of the sort.
proof fn lemma_insert_at<T: SortKey>(s: Seq<T>, m: T, p: int)
    requires
        0 <= p <= s.len(),
        forall|k: int| p <= k < s.len() ==> (#[trigger] s[k]).sort_key() > m.sort_key(),
        p == 0 || s[p - 1].sort_key() <= m.sort_key(),
    ensures
        insert_by_key(s, m) == s.insert(p, m),
    decreases s.len(),
{
    if s.len() == 0 {
        assert(s.insert(p, m) =~= seq![m]);
    } else if s.last().sort_key() <= m.sort_key() {
        assert(p == s.len());
        assert(s.insert(p, m) =~= s.push(m));
    } else {
        lemma_insert_at(s.drop_last(), m, p);
        assert(s.drop_last().insert(p, m).push(s.last()) =~= s.insert(p, m));
    }
}

/// The insertion step keeps a sorted sequence sorted, adds `m` and nothing
/// else.
proof fn lemma_insert_sorted<T: SortKey>(s: Seq<T>, m: T)
    requires
        sorted_by_key(s),
    ensures
        sorted_by_key(insert_by_key(s, m)),
        insert_by_key(s, m).len() == s.len() + 1,
        forall|i: int| 0 <= i < insert_by_key(s, m).len() ==> (#[trigger] insert_by_key(s, m)[i] == m
            || s.contains(insert_by_key(s, m)[i])),
    decreases s.len(),
{
    let r = insert_by_key(s, m);
    if s.len() == 0 {
    } else if s.last().sort_key() <= m.sort_key() {
        assert forall|i: int| 0 <= i < r.len() implies (#[trigger] r[i] == m || s.contains(r[i])) by {
            if i < s.len() {
                assert(r[i] == s[i]);
            }
        }
    } else {
        let t = insert_by_key(s.drop_last(), m);
        lemma_insert_sorted(s.drop_last(), m);
        assert forall|i: int, j: int| 0 <= i < j < r.len() implies (#[trigger] r[i]).sort_key() <= (#[trigger] r[j]).sort_key() by {
            if j == r.len() - 1 {
                assert(r[j] == s.last());
                assert(r[i] == t[i]);
                if t[i] != m {
                    let k = choose|k: int| 0 <= k < s.drop_last().len() && s.drop_last()[k] == t[i];
                    assert(s[k] == t[i]);
                }
            } else {
                assert(r[i] == t[i] && r[j] == t[j]);
            }
        }
        assert forall|i: int| 0 <= i < r.len() implies (#[trigger] r[i] == m || s.contains(r[i])) by {
            if i < t.len() {
                assert(r[i] == t[i]);
                if t[i] != m {
                    let k = choose|k: int| 0 <= k < s.drop_last().len() && s.drop_last()[k] == t[i];
                    assert(s[k] == t[i]);
                }
            } else {
                assert(r[i] == s[s.len() - 1]);
            }
        }
    }
}

/// The sort gives a sorted sequence of the same length made of the input's
/// elements.
pub proof fn lemma_sort<T: SortKey>(s: Seq<T>)
    ensures
        sorted_by_key(sort_by_key_spec(s)),
        sort_by_key_spec(s).len() == s.len(),
        forall|i: int| 0 <= i < s.len() ==> s.contains(#[trigger] sort_by_key_spec(s)[i]),
    decreases s.len(),
{
    if s.len() > 0 {
        let p = sort_by_key_spec(s.drop_last());
        lemma_sort(s.drop_last());
        lemma_insert_sorted(p, s.last());
        let r = sort_by_key_spec(s);
        assert forall|i: int| 0 <= i < s.len() implies s.contains(#[trigger] sort_by_key_spec(s)[i]) by {
            if r[i] == s.last() {
                assert(s[s.len() - 1] == r[i]);
            } else {
                let k = choose|k: int| 0 <= k < p.len() && p[k] == r[i];
                let k2 = choose|k2: int| 0 <= k2 < s.drop_last().len() && s.drop_last()[k2] == p[k];
                assert(s[k2] == r[i]);
            }
        }
    }
}

/// The elements stably sorted by key.
pub fn sort_by_key<T: SortKey + Copy>(elements: &Vec<T>) -> (r: Vec<T>)
    ensures
        r@ == sort_by_key_spec(elements@),
{
    let mut r: Vec<T> = Vec::new();
    let mut i: usize = 0;
    assert(elements@.take(0) =~= Seq::<T>::empty());
    while i < elements.len()
        invariant
            i <= elements.len(),
            r@ == sort_by_key_spec(elements@.take(i as int)),
        decreases elements.len() - i,
    {
        let m = elements[i];
        let mut p: usize = r.len();
        while p > 0 && r[p - 1].key() > m.key()
            invariant
                p <= r.len(),
                forall|k: int| p <= k < r.len() ==> (#[trigger] r@[k]).sort_key() > m.sort_key(),
            decreases p,
        {
            p -= 1;
        }
        proof {
            lemma_insert_at(r@, m, p as int);
            let t = elements@.take(i + 1);
            assert(t.drop_last() =~= elements@.take(i as int));
            assert(t.last() == m);
        }
        r.insert(p, m);
        i += 1;
    }
    assert(elements@.take(elements.len() as int) =~= elements@);
    r
}

} // verus!
