//! Merging of two ordered sequences.
use vstd::prelude::*;

verus! {

/// The sequence `merge_sorted` produces once the heads `a[i]` and `b[j]` have
/// been drawn: the smaller head (the head of `b` on ties) is emitted and
/// replaced by the next element of its side. When that side has nothing left,
/// the rest of the other side after its drawn head follows; that drawn head
/// itself is not emitted.
pub open spec fn merge_from(a: Seq<i64>, b: Seq<i64>, i: nat, j: nat) -> Seq<i64>
    recommends
        i < a.len(),
        j < b.len(),
    decreases a.len() - i + b.len() - j,
    when i < a.len() && j < b.len()
{
    if a[i as int] < b[j as int] {
        if i + 1 >= a.len() {
            seq![a[i as int]] + b.subrange(j + 1 as int, b.len() as int)
        } else {
            seq![a[i as int]] + merge_from(a, b, i + 1, j)
        }
    } else {
        if j + 1 >= b.len() {
            seq![b[j as int]] + a.subrange(i + 1 as int, a.len() as int)
        } else {
            seq![b[j as int]] + merge_from(a, b, i, j + 1)
        }
    }
}

/// The whole output of `merge_sorted` on two non-empty sequences.
pub open spec fn merged(a: Seq<i64>, b: Seq<i64>) -> Seq<i64> {
    merge_from(a, b, 0, 0)
}

/// A sequence in non-decreasing order.
pub open spec fn is_sorted(s: Seq<i64>) -> bool {
    forall|x: int, y: int| 0 <= x <= y < s.len() ==> s[x] <= s[y]
}

proof fn lemma_merge_from_len(a: Seq<i64>, b: Seq<i64>, i: nat, j: nat)
    requires
        i < a.len(),
        j < b.len(),
    ensures
        merge_from(a, b, i, j).len() == a.len() - i + b.len() - j - 1,
    decreases a.len() - i + b.len() - j,
{
    if a[i as int] < b[j as int] {
        if i + 1 < a.len() {
            lemma_merge_from_len(a, b, i + 1, j);
        }
    } else {
        if j + 1 < b.len() {
            lemma_merge_from_len(a, b, i, j + 1);
        }
    }
}

proof fn lemma_merge_from_sorted(a: Seq<i64>, b: Seq<i64>, i: nat, j: nat)
    requires
        i < a.len(),
        j < b.len(),
        is_sorted(a),
        is_sorted(b),
    ensures
        is_sorted(merge_from(a, b, i, j)),
        forall|k: int|
            0 <= k < merge_from(a, b, i, j).len() ==> #[trigger] merge_from(a, b, i, j)[k] >= if a[i as int]
                < b[j as int] {
                a[i as int]
            } else {
                b[j as int]
            },
    decreases a.len() - i + b.len() - j,
{
    let m = merge_from(a, b, i, j);
    if a[i as int] < b[j as int] {
        if i + 1 < a.len() {
            lemma_merge_from_sorted(a, b, i + 1, j);
        }
    } else {
        if j + 1 < b.len() {
            lemma_merge_from_sorted(a, b, i, j + 1);
        }
    }
}

/// Merging holds one element fewer than both inputs together: the head that is
/// still drawn when the other side runs out is not emitted.
pub proof fn lemma_merged_len(a: Seq<i64>, b: Seq<i64>)
    requires
        a.len() > 0,
        b.len() > 0,
    ensures
        merged(a, b).len() == a.len() + b.len() - 1,
{
    lemma_merge_from_len(a, b, 0, 0);
}

/// Merging two sequences in non-decreasing order gives a sequence in
/// non-decreasing order.
pub proof fn lemma_merged_sorted(a: Seq<i64>, b: Seq<i64>)
    requires
        a.len() > 0,
        b.len() > 0,
        is_sorted(a),
        is_sorted(b),
    ensures
        is_sorted(merged(a, b)),
{
    lemma_merge_from_sorted(a, b, 0, 0);
}

/// Merge two iterators of ordered items by repeatedly taking the smaller head.
///
/// Both inputs must be non-empty.
pub fn merge_sorted(iter1: Vec<i64>, iter2: Vec<i64>) -> (vec: Vec<i64>)
    requires
        iter1.len() > 0,
        iter2.len() > 0,
    ensures
        vec@ == merged(iter1@, iter2@),
{
    let mut vec: Vec<i64> = Vec::new();
    let mut i: usize = 0;
    let mut j: usize = 0;
    loop
        invariant
            i < iter1.len(),
            j < iter2.len(),
            vec@ + merge_from(iter1@, iter2@, i as nat, j as nat) == merged(iter1@, iter2@),
        decreases iter1.len() - i + iter2.len() - j,
    {
        let v1 = iter1[i];
        let v2 = iter2[j];
        if v1 < v2 {
            vec.push(v1);
            if i + 1 < iter1.len() {
                i = i + 1;
                proof {
                    assert(vec@ + merge_from(iter1@, iter2@, i as nat, j as nat) =~= merged(iter1@, iter2@));
                }
            } else {
                let mut k = j + 1;
                while k < iter2.len()
                    invariant
                        j + 1 <= k <= iter2.len(),
                        vec@ + iter2@.subrange(k as int, iter2.len() as int) == merged(iter1@, iter2@),
                    decreases iter2.len() - k,
                {
                    proof {
                        assert(iter2@.subrange(k as int, iter2.len() as int) =~= seq![iter2@[k as int]] + iter2@.subrange(k + 1, iter2.len() as int));
                    }
                    vec.push(iter2[k]);
                    k = k + 1;
                    proof {
                        assert(vec@ + iter2@.subrange(k as int, iter2.len() as int) =~= merged(iter1@, iter2@));
                    }
                }
                proof {
                    assert(vec@ =~= vec@ + iter2@.subrange(k as int, iter2.len() as int));
                }
                return vec;
            }
        } else {
            vec.push(v2);
            if j + 1 < iter2.len() {
                j = j + 1;
                proof {
                    assert(vec@ + merge_from(iter1@, iter2@, i as nat, j as nat) =~= merged(iter1@, iter2@));
                }
            } else {
                let mut k = i + 1;
                while k < iter1.len()
                    invariant
                        i + 1 <= k <= iter1.len(),
                        vec@ + iter1@.subrange(k as int, iter1.len() as int) == merged(iter1@, iter2@),
                    decreases iter1.len() - k,
                {
                    proof {
                        assert(iter1@.subrange(k as int, iter1.len() as int) =~= seq![iter1@[k as int]] + iter1@.subrange(k + 1, iter1.len() as int));
                    }
                    vec.push(iter1[k]);
                    k = k + 1;
                    proof {
                        assert(vec@ + iter1@.subrange(k as int, iter1.len() as int) =~= merged(iter1@, iter2@));
                    }
                }
                proof {
                    assert(vec@ =~= vec@ + iter1@.subrange(k as int, iter1.len() as int));
                }
                return vec;
            }
        }
    }
}

} // verus!
