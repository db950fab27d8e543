//! Sorted duplicate-free lists of `u64`, used as sets.
//!
//! Broadcast values are kept sorted and without duplicates everywhere in the
//! node state, so a `read` can hand the list out as it stands and set
//! operations are merges.

use vstd::prelude::*;

verus! {

/// Strictly ascending: sorted and free of duplicates.
pub open spec fn sorted_unique(s: Seq<u64>) -> bool {
    forall|i: int, j: int| 0 <= i < j < s.len() ==> s[i] < s[j]
}

/// The merge (set union) of two sorted duplicate-free lists.
pub open spec fn merge_spec(a: Seq<u64>, b: Seq<u64>) -> Seq<u64>
    decreases a.len() + b.len(),
{
    if a.len() == 0 {
        b
    } else if b.len() == 0 {
        a
    } else if a[0] < b[0] {
        seq![a[0]] + merge_spec(a.subrange(1, a.len() as int), b)
    } else if b[0] < a[0] {
        seq![b[0]] + merge_spec(a, b.subrange(1, b.len() as int))
    } else {
        seq![a[0]] + merge_spec(a.subrange(1, a.len() as int), b.subrange(1, b.len() as int))
    }
}

/// The set difference of two sorted duplicate-free lists.
pub open spec fn diff_spec(a: Seq<u64>, b: Seq<u64>) -> Seq<u64>
    decreases a.len() + b.len(),
{
    if a.len() == 0 {
        Seq::empty()
    } else if b.len() == 0 {
        a
    } else if a[0] < b[0] {
        seq![a[0]] + diff_spec(a.subrange(1, a.len() as int), b)
    } else if b[0] < a[0] {
        diff_spec(a, b.subrange(1, b.len() as int))
    } else {
        diff_spec(a.subrange(1, a.len() as int), b.subrange(1, b.len() as int))
    }
}

/// A merge is again sorted and holds exactly the members of both sides.
pub proof fn lemma_merge(a: Seq<u64>, b: Seq<u64>)
    requires
        sorted_unique(a),
        sorted_unique(b),
    ensures
        sorted_unique(merge_spec(a, b)),
        forall|x: u64| merge_spec(a, b).contains(x) <==> a.contains(x) || b.contains(x),
    decreases a.len() + b.len(),
{
    let r = merge_spec(a, b);
    if a.len() == 0 || b.len() == 0 {
    } else {
        let a1 = a.subrange(1, a.len() as int);
        let b1 = b.subrange(1, b.len() as int);
        assert(sorted_unique(a1));
        assert(sorted_unique(b1));
        assert forall|x: u64| a1.contains(x) implies a.contains(x) && x > a[0] by {
            let i = choose|i: int| 0 <= i < a1.len() && a1[i] == x;
            assert(a[i + 1] == x);
        }
        assert forall|x: u64| b1.contains(x) implies b.contains(x) && x > b[0] by {
            let i = choose|i: int| 0 <= i < b1.len() && b1[i] == x;
            assert(b[i + 1] == x);
        }
        assert forall|x: u64| a.contains(x) && x != a[0] implies a1.contains(x) by {
            let i = choose|i: int| 0 <= i < a.len() && a[i] == x;
            assert(a1[i - 1] == x);
        }
        assert forall|x: u64| b.contains(x) && x != b[0] implies b1.contains(x) by {
            let i = choose|i: int| 0 <= i < b.len() && b[i] == x;
            assert(b1[i - 1] == x);
        }
        assert forall|x: u64| a.contains(x) implies x >= a[0] by {
            let i = choose|i: int| 0 <= i < a.len() && a[i] == x;
            if i > 0 {
                assert(a[0] < a[i]);
            }
        }
        assert forall|x: u64| b.contains(x) implies x >= b[0] by {
            let i = choose|i: int| 0 <= i < b.len() && b[i] == x;
            if i > 0 {
                assert(b[0] < b[i]);
            }
        }
        if a[0] < b[0] {
            lemma_merge(a1, b);
            assert forall|x: u64| merge_spec(a1, b).contains(x) implies x > a[0] by {
                if a1.contains(x) {
                } else {
                    assert(b.contains(x));
                }
            }
            lemma_sorted_cons(a[0], merge_spec(a1, b));
            assert forall|x: u64| r.contains(x) implies a.contains(x) || b.contains(x) by {
                let i = choose|i: int| 0 <= i < r.len() && r[i] == x;
                if i > 0 {
                    assert(merge_spec(a1, b)[i - 1] == x);
                }
            }
            assert(a.contains(a[0]));
            assert(r[0] == a[0]);
            assert forall|x: u64| a.contains(x) || b.contains(x) implies r.contains(x) by {
                if x == a[0] {
                    assert(r[0] == x);
                } else {
                    assert(merge_spec(a1, b).contains(x));
                    let i = choose|i: int|
                        0 <= i < merge_spec(a1, b).len() && merge_spec(a1, b)[i] == x;
                    assert(r[i + 1] == x);
                }
            }
        } else if b[0] < a[0] {
            lemma_merge(a, b1);
            assert forall|x: u64| merge_spec(a, b1).contains(x) implies x > b[0] by {
                if b1.contains(x) {
                } else {
                    assert(a.contains(x));
                }
            }
            lemma_sorted_cons(b[0], merge_spec(a, b1));
            assert forall|x: u64| r.contains(x) implies a.contains(x) || b.contains(x) by {
                let i = choose|i: int| 0 <= i < r.len() && r[i] == x;
                if i > 0 {
                    assert(merge_spec(a, b1)[i - 1] == x);
                }
            }
            assert(b.contains(b[0]));
            assert(r[0] == b[0]);
            assert forall|x: u64| a.contains(x) || b.contains(x) implies r.contains(x) by {
                if x == b[0] {
                    assert(r[0] == x);
                } else {
                    assert(merge_spec(a, b1).contains(x));
                    let i = choose|i: int|
                        0 <= i < merge_spec(a, b1).len() && merge_spec(a, b1)[i] == x;
                    assert(r[i + 1] == x);
                }
            }
        } else {
            lemma_merge(a1, b1);
            assert forall|x: u64| merge_spec(a1, b1).contains(x) implies x > a[0] by {
                if a1.contains(x) {
                } else {
                    assert(b1.contains(x));
                }
            }
            lemma_sorted_cons(a[0], merge_spec(a1, b1));
            assert forall|x: u64| r.contains(x) implies a.contains(x) || b.contains(x) by {
                let i = choose|i: int| 0 <= i < r.len() && r[i] == x;
                if i > 0 {
                    assert(merge_spec(a1, b1)[i - 1] == x);
                }
            }
            assert(a.contains(a[0]));
            assert(r[0] == a[0]);
            assert forall|x: u64| a.contains(x) || b.contains(x) implies r.contains(x) by {
                if x == a[0] || x == b[0] {
                    assert(r[0] == x);
                } else {
                    assert(merge_spec(a1, b1).contains(x));
                    let i = choose|i: int|
                        0 <= i < merge_spec(a1, b1).len() && merge_spec(a1, b1)[i] == x;
                    assert(r[i + 1] == x);
                }
            }
        }
    }
}

/// Putting a value below everything in a sorted list keeps it sorted.
proof fn lemma_sorted_cons(h: u64, rest: Seq<u64>)
    requires
        sorted_unique(rest),
        forall|x: u64| rest.contains(x) ==> x > h,
    ensures
        sorted_unique(seq![h] + rest),
{
    let r = seq![h] + rest;
    assert forall|i: int, j: int| 0 <= i < j < r.len() implies r[i] < r[j] by {
        if i == 0 {
            assert(rest.contains(rest[j - 1]));
            assert(r[j] == rest[j - 1]);
        } else {
            assert(r[i] == rest[i - 1]);
            assert(r[j] == rest[j - 1]);
        }
    }
}

/// A difference is again sorted and holds exactly the members of the left
/// side that the right side lacks.
pub proof fn lemma_diff(a: Seq<u64>, b: Seq<u64>)
    requires
        sorted_unique(a),
        sorted_unique(b),
    ensures
        sorted_unique(diff_spec(a, b)),
        forall|x: u64| diff_spec(a, b).contains(x) <==> a.contains(x) && !b.contains(x),
    decreases a.len() + b.len(),
{
    let r = diff_spec(a, b);
    if a.len() == 0 {
    } else if b.len() == 0 {
    } else {
        let a1 = a.subrange(1, a.len() as int);
        let b1 = b.subrange(1, b.len() as int);
        assert(sorted_unique(a1));
        assert(sorted_unique(b1));
        assert forall|x: u64| a1.contains(x) implies a.contains(x) && x > a[0] by {
            let i = choose|i: int| 0 <= i < a1.len() && a1[i] == x;
            assert(a[i + 1] == x);
        }
        assert forall|x: u64| b1.contains(x) implies b.contains(x) && x > b[0] by {
            let i = choose|i: int| 0 <= i < b1.len() && b1[i] == x;
            assert(b[i + 1] == x);
        }
        assert forall|x: u64| a.contains(x) && x != a[0] implies a1.contains(x) by {
            let i = choose|i: int| 0 <= i < a.len() && a[i] == x;
            assert(a1[i - 1] == x);
        }
        assert forall|x: u64| b.contains(x) && x != b[0] implies b1.contains(x) by {
            let i = choose|i: int| 0 <= i < b.len() && b[i] == x;
            assert(b1[i - 1] == x);
        }
        if a[0] < b[0] {
            lemma_diff(a1, b);
            assert forall|x: u64| diff_spec(a1, b).contains(x) implies x > a[0] by {
                assert(a1.contains(x));
            }
            lemma_sorted_cons(a[0], diff_spec(a1, b));
            assert(a.contains(a[0]));
            assert(r[0] == a[0]);
            assert forall|x: u64| r.contains(x) implies a.contains(x) && !b.contains(x) by {
                let i = choose|i: int| 0 <= i < r.len() && r[i] == x;
                if i > 0 {
                    assert(diff_spec(a1, b)[i - 1] == x);
                }
                if x == a[0] {
                    if b.contains(x) {
                        let i = choose|i: int| 0 <= i < b.len() && b[i] == x;
                        if i > 0 {
                            assert(b[0] < b[i]);
                        }
                    }
                }
            }
            assert forall|x: u64| a.contains(x) && !b.contains(x) implies r.contains(x) by {
                if x == a[0] {
                    assert(r[0] == x);
                } else {
                    assert(diff_spec(a1, b).contains(x));
                    let i = choose|i: int|
                        0 <= i < diff_spec(a1, b).len() && diff_spec(a1, b)[i] == x;
                    assert(r[i + 1] == x);
                }
            }
        } else if b[0] < a[0] {
            lemma_diff(a, b1);
            assert forall|x: u64| r.contains(x) implies a.contains(x) && !b.contains(x) by {
                assert(a.contains(x) && !b1.contains(x));
                if x == b[0] {
                    assert(a[0] <= x);
                }
            }
            assert forall|x: u64| a.contains(x) && !b.contains(x) implies r.contains(x) by {
                assert(!b1.contains(x));
            }
        } else {
            lemma_diff(a1, b1);
            assert forall|x: u64| r.contains(x) implies a.contains(x) && !b.contains(x) by {
                assert(a1.contains(x) && !b1.contains(x));
                assert(x > a[0]);
            }
            assert forall|x: u64| a.contains(x) && !b.contains(x) implies r.contains(x) by {
                assert(x != a[0]);
                assert(a1.contains(x));
                assert(!b1.contains(x));
            }
        }
    }
}

fn copy_from(b: &Vec<u64>, j: usize) -> (r: Vec<u64>)
    requires
        j <= b@.len(),
    ensures
        r@ == b@.subrange(j as int, b@.len() as int),
{
    let mut out: Vec<u64> = Vec::new();
    let mut k: usize = j;
    while k < b.len()
        invariant
            j <= k <= b@.len(),
            out@ == b@.subrange(j as int, k as int),
        decreases b@.len() - k,
    {
        out.push(b[k]);
        proof {
            assert(b@.subrange(j as int, k as int + 1) =~= b@.subrange(j as int, k as int).push(
                b@[k as int],
            ));
        }
        k += 1;
    }
    out
}

fn merge_from(a: &Vec<u64>, i: usize, b: &Vec<u64>, j: usize) -> (r: Vec<u64>)
    requires
        i <= a@.len(),
        j <= b@.len(),
    ensures
        r@ == merge_spec(
            a@.subrange(i as int, a@.len() as int),
            b@.subrange(j as int, b@.len() as int),
        ),
    decreases a@.len() - i + b@.len() - j,
{
    let ghost sa = a@.subrange(i as int, a@.len() as int);
    let ghost sb = b@.subrange(j as int, b@.len() as int);
    if i == a.len() {
        let r = copy_from(b, j);
        assert(sa.len() == 0);
        r
    } else if j == b.len() {
        let r = copy_from(a, i);
        assert(sb.len() == 0);
        r
    } else {
        proof {
            assert(sa[0] == a@[i as int]);
            assert(sb[0] == b@[j as int]);
            assert(sa.subrange(1, sa.len() as int) =~= a@.subrange(
                i as int + 1,
                a@.len() as int,
            ));
            assert(sb.subrange(1, sb.len() as int) =~= b@.subrange(
                j as int + 1,
                b@.len() as int,
            ));
        }
        if a[i] < b[j] {
            let mut rest = merge_from(a, i + 1, b, j);
            rest.insert(0, a[i]);
            assert(rest@ =~= seq![sa[0]] + merge_spec(sa.subrange(1, sa.len() as int), sb));
            rest
        } else if b[j] < a[i] {
            let mut rest = merge_from(a, i, b, j + 1);
            rest.insert(0, b[j]);
            assert(rest@ =~= seq![sb[0]] + merge_spec(sa, sb.subrange(1, sb.len() as int)));
            rest
        } else {
            let mut rest = merge_from(a, i + 1, b, j + 1);
            rest.insert(0, a[i]);
            assert(rest@ =~= seq![sa[0]] + merge_spec(
                sa.subrange(1, sa.len() as int),
                sb.subrange(1, sb.len() as int),
            ));
            rest
        }
    }
}

/// The union of two sorted duplicate-free lists, sorted and duplicate-free.
pub fn merge(a: &Vec<u64>, b: &Vec<u64>) -> (r: Vec<u64>)
    ensures
        r@ == merge_spec(a@, b@),
{
    let r = merge_from(a, 0, b, 0);
    proof {
        assert(a@.subrange(0, a@.len() as int) =~= a@);
        assert(b@.subrange(0, b@.len() as int) =~= b@);
    }
    r
}

fn diff_from(a: &Vec<u64>, i: usize, b: &Vec<u64>, j: usize) -> (r: Vec<u64>)
    requires
        i <= a@.len(),
        j <= b@.len(),
    ensures
        r@ == diff_spec(
            a@.subrange(i as int, a@.len() as int),
            b@.subrange(j as int, b@.len() as int),
        ),
    decreases a@.len() - i + b@.len() - j,
{
    let ghost sa = a@.subrange(i as int, a@.len() as int);
    let ghost sb = b@.subrange(j as int, b@.len() as int);
    if i == a.len() {
        assert(sa.len() == 0);
        Vec::new()
    } else if j == b.len() {
        let r = copy_from(a, i);
        assert(sb.len() == 0);
        r
    } else {
        proof {
            assert(sa[0] == a@[i as int]);
            assert(sb[0] == b@[j as int]);
            assert(sa.subrange(1, sa.len() as int) =~= a@.subrange(
                i as int + 1,
                a@.len() as int,
            ));
            assert(sb.subrange(1, sb.len() as int) =~= b@.subrange(
                j as int + 1,
                b@.len() as int,
            ));
        }
        if a[i] < b[j] {
            let mut rest = diff_from(a, i + 1, b, j);
            rest.insert(0, a[i]);
            assert(rest@ =~= seq![sa[0]] + diff_spec(sa.subrange(1, sa.len() as int), sb));
            rest
        } else if b[j] < a[i] {
            diff_from(a, i, b, j + 1)
        } else {
            diff_from(a, i + 1, b, j + 1)
        }
    }
}

/// The members of `a` that `b` lacks; both sorted and duplicate-free.
pub fn difference(a: &Vec<u64>, b: &Vec<u64>) -> (r: Vec<u64>)
    ensures
        r@ == diff_spec(a@, b@),
{
    let r = diff_from(a, 0, b, 0);
    proof {
        assert(a@.subrange(0, a@.len() as int) =~= a@);
        assert(b@.subrange(0, b@.len() as int) =~= b@);
    }
    r
}

/// The first `k` entries of a list (all of it if shorter).
pub fn take_first(a: &Vec<u64>, k: usize) -> (r: Vec<u64>)
    ensures
        r@ == a@.subrange(0, if k <= a@.len() { k as int } else { a@.len() as int }),
{
    let end = if k <= a.len() {
        k
    } else {
        a.len()
    };
    let mut out: Vec<u64> = Vec::new();
    let mut i: usize = 0;
    while i < end
        invariant
            end <= a@.len(),
            i <= end,
            out@ == a@.subrange(0, i as int),
        decreases end - i,
    {
        out.push(a[i]);
        proof {
            assert(a@.subrange(0, i as int + 1) =~= a@.subrange(0, i as int).push(a@[i as int]));
        }
        i += 1;
    }
    out
}

/// A plain copy of a list of values.
pub fn copy_list(a: &Vec<u64>) -> (r: Vec<u64>)
    ensures
        r@ == a@,
{
    let r = copy_from(a, 0);
    proof {
        assert(a@.subrange(0, a@.len() as int) =~= a@);
    }
    r
}

/// The sorted duplicate-free list holding the members of `v`.
pub open spec fn sort_spec(v: Seq<u64>) -> Seq<u64>
    decreases v.len(),
{
    if v.len() == 0 {
        Seq::empty()
    } else {
        merge_spec(sort_spec(v.subrange(0, v.len() - 1)), seq![v[v.len() - 1]])
    }
}

/// Sorting sorts, removes duplicates, and keeps exactly the members.
pub proof fn lemma_sort(v: Seq<u64>)
    ensures
        sorted_unique(sort_spec(v)),
        forall|x: u64| sort_spec(v).contains(x) <==> v.contains(x),
    decreases v.len(),
{
    if v.len() > 0 {
        let pre = v.subrange(0, v.len() - 1);
        let last = v[v.len() - 1];
        lemma_sort(pre);
        assert(sorted_unique(seq![last]));
        lemma_merge(sort_spec(pre), seq![last]);
        assert(seq![last].contains(last));
        assert(sort_spec(v) == merge_spec(sort_spec(pre), seq![last]));
        assert forall|x: u64| v.contains(x) implies sort_spec(v).contains(x) by {
            let i = choose|i: int| 0 <= i < v.len() && v[i] == x;
            assert(merge_spec(sort_spec(pre), seq![last]).contains(x) == (sort_spec(
                pre,
            ).contains(x) || seq![last].contains(x)));
            if i < v.len() - 1 {
                assert(pre[i] == x);
                assert(pre.contains(x));
            } else {
                assert(seq![last][0] == x);
                assert(seq![last].contains(x));
            }
        }
        assert forall|x: u64| sort_spec(v).contains(x) implies v.contains(x) by {
            if pre.contains(x) {
                let i = choose|i: int| 0 <= i < pre.len() && pre[i] == x;
                assert(v[i] == x);
            } else {
                assert(seq![last].contains(x));
                assert(x == last);
            }
        }
    }
}

/// Sorts a list and removes duplicates.
pub fn sort_dedup(v: &Vec<u64>) -> (r: Vec<u64>)
    ensures
        r@ == sort_spec(v@),
{
    let mut out: Vec<u64> = Vec::new();
    let mut k: usize = 0;
    proof {
        assert(v@.subrange(0, 0) =~= Seq::<u64>::empty());
    }
    while k < v.len()
        invariant
            k <= v@.len(),
            out@ == sort_spec(v@.subrange(0, k as int)),
        decreases v@.len() - k,
    {
        let single: Vec<u64> = vec![v[k]];
        let merged = merge(&out, &single);
        proof {
            let pre = v@.subrange(0, k as int);
            let post = v@.subrange(0, k as int + 1);
            assert(post.subrange(0, post.len() - 1) =~= pre);
            assert(post[post.len() - 1] == v@[k as int]);
            assert(single@ =~= seq![v@[k as int]]);
        }
        out = merged;
        k += 1;
    }
    proof {
        assert(v@.subrange(0, v@.len() as int) =~= v@);
    }
    out
}

/// A prefix of a sorted duplicate-free list is one as well, and its members
/// are members of the whole.
pub proof fn lemma_take_sorted(s: Seq<u64>, k: int)
    requires
        sorted_unique(s),
        0 <= k <= s.len(),
    ensures
        sorted_unique(s.subrange(0, k)),
        forall|x: u64| s.subrange(0, k).contains(x) ==> s.contains(x),
{
    assert forall|x: u64| s.subrange(0, k).contains(x) implies s.contains(x) by {
        let i = choose|i: int| 0 <= i < k && s.subrange(0, k)[i] == x;
        assert(s[i] == x);
    }
}

} // verus!