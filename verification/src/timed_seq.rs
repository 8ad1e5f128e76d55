use vstd::prelude::*;
use vstd::seq_lib::lemma_multiset_commutative;
use vstd::multiset::Multiset;
use crate::midi_types::Timed;

verus! {

broadcast use vstd::seq_lib::group_seq_properties, vstd::seq_lib::group_to_multiset_ensures;

/// The items are in ascending order of time.
pub open spec fn is_sorted<T: Timed>(s: Seq<T>) -> bool {
    forall|i: int, j: int| 0 <= i <= j < s.len() ==> s[i].time() <= s[j].time()
}

/// Every item is at `lo` or later.
pub open spec fn all_at_least<T: Timed>(s: Seq<T>, lo: int) -> bool {
    forall|i: int| 0 <= i < s.len() ==> s[i].time() >= lo
}

/// Whether merging `a` and `b` takes the next item from `a` (ties go to `a`).
pub open spec fn merge_takes_left<T: Timed>(a: Seq<T>, b: Seq<T>) -> bool {
    b.len() == 0 || (a.len() > 0 && a[0].time() <= b[0].time())
}

/// The stable merge of `a` and `b`: repeatedly take the earlier front item,
/// preferring `a` on equal times.
pub open spec fn merge_spec<T: Timed>(a: Seq<T>, b: Seq<T>) -> Seq<T>
    decreases a.len() + b.len(),
{
    if a.len() == 0 {
        b
    } else if b.len() == 0 {
        a
    } else if a[0].time() <= b[0].time() {
        seq![a[0]] + merge_spec(a.drop_first(), b)
    } else {
        seq![b[0]] + merge_spec(a, b.drop_first())
    }
}

/// Where each item of `b` ends up in `merge_spec(a, b)`.
pub open spec fn merge_positions<T: Timed>(a: Seq<T>, b: Seq<T>) -> Seq<int>
    decreases a.len() + b.len(),
{
    if a.len() == 0 {
        Seq::new(b.len(), |i: int| i)
    } else if b.len() == 0 {
        Seq::empty()
    } else if a[0].time() <= b[0].time() {
        merge_positions(a.drop_first(), b).map_values(|p: int| p + 1)
    } else {
        seq![0int] + merge_positions(a, b.drop_first()).map_values(|p: int| p + 1)
    }
}

pub open spec fn usizes_as_ints(s: Seq<usize>) -> Seq<int> {
    s.map_values(|x: usize| x as int)
}

pub open spec fn shift_all(s: Seq<int>, d: int) -> Seq<int> {
    s.map_values(|p: int| p + d)
}

pub proof fn lemma_merge_step<T: Timed>(a: Seq<T>, b: Seq<T>)
    requires
        a.len() + b.len() > 0,
    ensures
        merge_takes_left(a, b) ==> {
            &&& merge_spec(a, b) == seq![a[0]] + merge_spec(a.drop_first(), b)
            &&& merge_positions(a, b) == shift_all(merge_positions(a.drop_first(), b), 1)
        },
        !merge_takes_left(a, b) ==> {
            &&& merge_spec(a, b) == seq![b[0]] + merge_spec(a, b.drop_first())
            &&& merge_positions(a, b) == seq![0int] + shift_all(
                merge_positions(a, b.drop_first()),
                1,
            )
        },
{
    if a.len() == 0 {
        assert(b =~= seq![b[0]] + b.drop_first());
        assert(merge_positions(a, b) =~= seq![0int] + shift_all(
            merge_positions(a, b.drop_first()),
            1,
        ));
    } else if b.len() == 0 {
        assert(a =~= seq![a[0]] + a.drop_first());
        assert(merge_spec(a.drop_first(), b) =~= a.drop_first());
        assert(merge_positions(a, b) =~= shift_all(merge_positions(a.drop_first(), b), 1));
    }
}

pub proof fn lemma_merge_len<T: Timed>(a: Seq<T>, b: Seq<T>)
    ensures
        merge_spec(a, b).len() == a.len() + b.len(),
        merge_positions(a, b).len() == b.len(),
    decreases a.len() + b.len(),
{
    if a.len() + b.len() > 0 {
        lemma_merge_step(a, b);
        if merge_takes_left(a, b) {
            lemma_merge_len(a.drop_first(), b);
        } else {
            lemma_merge_len(a, b.drop_first());
        }
    }
}

pub proof fn lemma_merge_multiset<T: Timed>(a: Seq<T>, b: Seq<T>)
    ensures
        merge_spec(a, b).to_multiset() == a.to_multiset().add(b.to_multiset()),
    decreases a.len() + b.len(),
{
    if a.len() + b.len() > 0 {
        lemma_merge_step(a, b);
        if merge_takes_left(a, b) {
            lemma_merge_multiset(a.drop_first(), b);
            lemma_multiset_commutative(seq![a[0]], merge_spec(a.drop_first(), b));
            lemma_multiset_commutative(seq![a[0]], a.drop_first());
            assert(a =~= seq![a[0]] + a.drop_first());
        } else {
            lemma_merge_multiset(a, b.drop_first());
            lemma_multiset_commutative(seq![b[0]], merge_spec(a, b.drop_first()));
            lemma_multiset_commutative(seq![b[0]], b.drop_first());
            assert(b =~= seq![b[0]] + b.drop_first());
        }
        assert(merge_spec(a, b).to_multiset() =~= a.to_multiset().add(b.to_multiset()));
    } else {
        assert(a.to_multiset() =~= Multiset::empty());
        assert(b.to_multiset() =~= Multiset::empty());
        assert(merge_spec(a, b).to_multiset() =~= a.to_multiset().add(b.to_multiset()));
    }
}

pub proof fn lemma_merge_lower_bound<T: Timed>(a: Seq<T>, b: Seq<T>, lo: int)
    requires
        all_at_least(a, lo),
        all_at_least(b, lo),
    ensures
        all_at_least(merge_spec(a, b), lo),
    decreases a.len() + b.len(),
{
    if a.len() + b.len() > 0 {
        lemma_merge_step(a, b);
        if merge_takes_left(a, b) {
            lemma_merge_lower_bound(a.drop_first(), b, lo);
        } else {
            lemma_merge_lower_bound(a, b.drop_first(), lo);
        }
    }
}

pub proof fn lemma_merge_sorted<T: Timed>(a: Seq<T>, b: Seq<T>)
    requires
        is_sorted(a),
        is_sorted(b),
    ensures
        is_sorted(merge_spec(a, b)),
    decreases a.len() + b.len(),
{
    if a.len() + b.len() > 0 {
        lemma_merge_step(a, b);
        if merge_takes_left(a, b) {
            lemma_merge_sorted(a.drop_first(), b);
            lemma_merge_lower_bound(a.drop_first(), b, a[0].time());
            let m = merge_spec(a, b);
            assert forall|i: int, j: int| 0 <= i <= j < m.len() implies m[i].time()
                <= m[j].time() by {
                if i > 0 {
                    assert(m[i] == merge_spec(a.drop_first(), b)[i - 1]);
                    assert(m[j] == merge_spec(a.drop_first(), b)[j - 1]);
                } else if j > 0 {
                    assert(m[j] == merge_spec(a.drop_first(), b)[j - 1]);
                }
            }
        } else {
            lemma_merge_sorted(a, b.drop_first());
            lemma_merge_lower_bound(a, b.drop_first(), b[0].time());
            let m = merge_spec(a, b);
            assert forall|i: int, j: int| 0 <= i <= j < m.len() implies m[i].time()
                <= m[j].time() by {
                if i > 0 {
                    assert(m[i] == merge_spec(a, b.drop_first())[i - 1]);
                    assert(m[j] == merge_spec(a, b.drop_first())[j - 1]);
                } else if j > 0 {
                    assert(m[j] == merge_spec(a, b.drop_first())[j - 1]);
                }
            }
        }
    }
}

/// The positions of `b`'s items in the merge are increasing, in range, and
/// hold exactly `b`'s items.
pub proof fn lemma_merge_positions<T: Timed>(a: Seq<T>, b: Seq<T>)
    ensures
        merge_positions(a, b).len() == b.len(),
        forall|k: int|
            0 <= k < b.len() ==> 0 <= #[trigger] merge_positions(a, b)[k] < a.len() + b.len(),
        forall|k: int|
            0 <= k < b.len() ==> merge_spec(a, b)[#[trigger] merge_positions(a, b)[k]] == b[k],
        forall|k1: int, k2: int|
            0 <= k1 < k2 < b.len() ==> #[trigger] merge_positions(a, b)[k1]
                < #[trigger] merge_positions(a, b)[k2],
    decreases a.len() + b.len(),
{
    lemma_merge_len(a, b);
    if a.len() + b.len() > 0 {
        lemma_merge_step(a, b);
        if merge_takes_left(a, b) {
            lemma_merge_positions(a.drop_first(), b);
            lemma_merge_len(a.drop_first(), b);
            let p = merge_positions(a, b);
            let q = merge_positions(a.drop_first(), b);
            assert forall|k: int| 0 <= k < b.len() implies merge_spec(a, b)[#[trigger] p[k]]
                == b[k] by {
                assert(p[k] == q[k] + 1);
            }
        } else {
            lemma_merge_positions(a, b.drop_first());
            lemma_merge_len(a, b.drop_first());
            let p = merge_positions(a, b);
            let q = merge_positions(a, b.drop_first());
            assert forall|k: int| 0 <= k < b.len() implies merge_spec(a, b)[#[trigger] p[k]]
                == b[k] by {
                if k > 0 {
                    assert(p[k] == q[k - 1] + 1);
                    assert(b.drop_first()[k - 1] == b[k]);
                }
            }
            assert forall|k1: int, k2: int| 0 <= k1 < k2 < b.len() implies #[trigger] p[k1]
                < #[trigger] p[k2] by {
                if k1 > 0 {
                    assert(p[k1] == q[k1 - 1] + 1);
                }
                assert(p[k2] == q[k2 - 1] + 1);
            }
        }
    }
}

pub proof fn lemma_reverse_pop<T>(s: Seq<T>)
    requires
        s.len() > 0,
    ensures
        s.reverse().len() == s.len(),
        s.reverse()[s.len() - 1] == s[0],
        s.reverse().drop_last() == s.drop_first().reverse(),
{
    assert(s.reverse().drop_last() =~= s.drop_first().reverse());
}

/// `v` in reverse order.
pub fn reversed<T>(v: Vec<T>) -> (r: Vec<T>)
    ensures
        r@ == v@.reverse(),
{
    let ghost orig = v@;
    let mut v = v;
    let mut r: Vec<T> = Vec::new();
    while v.len() > 0
        invariant
            v@.len() <= orig.len(),
            v@ == orig.take(v@.len() as int),
            r@ == orig.skip(v@.len() as int).reverse(),
        decreases v.len(),
    {
        let ghost n = v@.len() as int;
        let ghost vs = v@;
        let x = v.pop().unwrap();
        r.push(x);
        proof {
            assert(x == orig[n - 1]);
            assert(orig.take(n - 1) =~= v@);
            assert(orig.skip(n - 1).reverse() =~= r@);
        }
    }
    assert(orig.skip(0) =~= orig);
    r
}

/// Merges `a` and `b` stably; also returns where `b`'s items were placed.
pub fn merge_timed<T: Timed>(a: Vec<T>, b: Vec<T>) -> (r: (Vec<T>, Vec<usize>))
    requires
        a@.len() + b@.len() <= usize::MAX,
    ensures
        r.0@ == merge_spec(a@, b@),
        usizes_as_ints(r.1@) == merge_positions(a@, b@),
{
    let ghost sa = a@;
    let ghost sb = b@;
    let mut ra = reversed(a);
    let mut rb = reversed(b);
    let mut merged: Vec<T> = Vec::new();
    let mut ids: Vec<usize> = Vec::new();
    let ghost mut i: int = 0;
    let ghost mut j: int = 0;
    proof {
        assert(sa.skip(0) =~= sa);
        assert(sb.skip(0) =~= sb);
        assert(merged@ + merge_spec(sa, sb) =~= merge_spec(sa, sb));
        lemma_merge_len(sa, sb);
        assert(shift_all(merge_positions(sa, sb), 0) =~= merge_positions(sa, sb));
        assert(usizes_as_ints(ids@) + merge_positions(sa, sb) =~= merge_positions(sa, sb));
    }
    while ra.len() > 0 || rb.len() > 0
        invariant
            0 <= i <= sa.len(),
            0 <= j <= sb.len(),
            sa.len() + sb.len() <= usize::MAX,
            ra@ == sa.skip(i).reverse(),
            rb@ == sb.skip(j).reverse(),
            merged@.len() == i + j,
            merge_spec(sa, sb) == merged@ + merge_spec(sa.skip(i), sb.skip(j)),
            merge_positions(sa, sb) == usizes_as_ints(ids@) + shift_all(
                merge_positions(sa.skip(i), sb.skip(j)),
                i + j,
            ),
        decreases ra.len() + rb.len(),
    {
        let ghost xa = sa.skip(i);
        let ghost xb = sb.skip(j);
        proof {
            lemma_merge_step(xa, xb);
        }
        let take_a = if rb.len() == 0 {
            true
        } else if ra.len() == 0 {
            false
        } else {
            ra[ra.len() - 1].get_time() <= rb[rb.len() - 1].get_time()
        };
        proof {
            if xa.len() > 0 {
                lemma_reverse_pop(xa);
            }
            if xb.len() > 0 {
                lemma_reverse_pop(xb);
            }
            assert(take_a == merge_takes_left(xa, xb));
        }
        if take_a {
            let x = ra.pop().unwrap();
            merged.push(x);
            proof {
                assert(xa.drop_first() =~= sa.skip(i + 1));
                assert(merged@ + merge_spec(sa.skip(i + 1), xb) =~= merge_spec(sa, sb));
                assert(shift_all(merge_positions(xa, xb), i + j) =~= shift_all(
                    merge_positions(sa.skip(i + 1), xb),
                    i + j + 1,
                ));
                i = i + 1;
            }
        } else {
            let pos = merged.len();
            let x = rb.pop().unwrap();
            merged.push(x);
            ids.push(pos);
            proof {
                assert(xb.drop_first() =~= sb.skip(j + 1));
                assert(merged@ + merge_spec(xa, sb.skip(j + 1)) =~= merge_spec(sa, sb));
                assert(shift_all(merge_positions(xa, xb), i + j) =~= seq![i + j] + shift_all(
                    merge_positions(xa, sb.skip(j + 1)),
                    i + j + 1,
                ));
                assert(usizes_as_ints(ids@) =~= usizes_as_ints(ids@.drop_last()).push(i + j));
                j = j + 1;
                assert(merge_positions(sa, sb) =~= usizes_as_ints(ids@) + shift_all(
                    merge_positions(sa.skip(i), sb.skip(j)),
                    i + j,
                ));
            }
        }
    }
    proof {
        assert(sa.skip(i).len() == 0);
        assert(sb.skip(j).len() == 0);
        assert(merged@ =~= merge_spec(sa, sb));
        assert(usizes_as_ints(ids@) =~= merge_positions(sa, sb));
    }
    (merged, ids)
}

} // verus!
