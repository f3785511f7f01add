//! Small shared utilities: value counting, and the randomized split that
//! the engines build their train/target partitions from.

use vstd::prelude::*;
use crate::bytes::{bytes_eq, bytes_contains, clone_bytes, seq_views};

verus! {

/// How many times `x` occurs in `s`.
pub open spec fn occ(s: Seq<Seq<u8>>, x: Seq<u8>) -> nat
    decreases s.len(),
{
    if s.len() == 0 {
        0
    } else {
        occ(s.drop_last(), x) + (if s.last() == x {
            1nat
        } else {
            0nat
        })
    }
}

/// The distinct values of `s`, in first-seen order.
pub open spec fn distinct_of(s: Seq<Seq<u8>>) -> Seq<Seq<u8>>
    decreases s.len(),
{
    if s.len() == 0 {
        Seq::empty()
    } else {
        let p = distinct_of(s.drop_last());
        if p.contains(s.last()) {
            p
        } else {
            p.push(s.last())
        }
    }
}

/// Counts the occurrences of each value, one row per distinct value in
/// first-seen order.
pub fn histogram(items: &Vec<Vec<u8>>) -> (r: Vec<(Vec<u8>, u64)>)
    ensures
        seq_views(r@.map_values(|p: (Vec<u8>, u64)| p.0)) == distinct_of(seq_views(items@)),
        forall|j: int| 0 <= j < r@.len()
            ==> (#[trigger] r@[j]).1 == occ(seq_views(items@), r@[j].0@),
{
    let ghost sv = seq_views(items@);
    let mut keys: Vec<Vec<u8>> = Vec::new();
    let mut i: usize = 0;
    while i < items.len()
        invariant
            sv == seq_views(items@),
            i <= items@.len(),
            seq_views(keys@) == distinct_of(sv.take(i as int)),
        decreases items@.len() - i,
    {
        let ghost prev = keys@;
        proof {
            assert(sv.take(i + 1).drop_last() =~= sv.take(i as int));
            assert(sv.take(i + 1).last() == sv[i as int]);
        }
        if !bytes_contains(&keys, &items[i]) {
            keys.push(clone_bytes(&items[i]));
            proof {
                assert(seq_views(keys@) =~= seq_views(prev).push(sv[i as int]));
            }
        }
        i = i + 1;
    }
    proof {
        assert(sv.take(sv.len() as int) == sv);
    }
    let mut out: Vec<(Vec<u8>, u64)> = Vec::new();
    let mut j: usize = 0;
    while j < keys.len()
        invariant
            sv == seq_views(items@),
            j <= keys@.len(),
            out@.len() == j,
            seq_views(keys@) == distinct_of(sv),
            forall|k: int| 0 <= k < j
                ==> (#[trigger] out@[k]).0@ == seq_views(keys@)[k] && out@[k].1 == occ(
                    sv,
                    out@[k].0@,
                ),
        decreases keys@.len() - j,
    {
        let key = clone_bytes(&keys[j]);
        let mut c: u64 = 0;
        let mut k: usize = 0;
        while k < items.len()
            invariant
                sv == seq_views(items@),
                k <= items@.len(),
                c <= k,
                c == occ(sv.take(k as int), key@),
            decreases items@.len() - k,
        {
            proof {
                assert(sv.take(k + 1).drop_last() =~= sv.take(k as int));
                assert(sv.take(k + 1).last() == sv[k as int]);
            }
            if bytes_eq(&items[k], &key) {
                c = c + 1;
            }
            k = k + 1;
        }
        proof {
            assert(sv.take(sv.len() as int) == sv);
        }
        out.push((key, c));
        j = j + 1;
    }
    proof {
        assert(seq_views(out@.map_values(|p: (Vec<u8>, u64)| p.0)) =~= seq_views(keys@));
    }
    out
}

/// Relies on rand's slice shuffle (`rand::seq::SliceRandom::shuffle`, with
/// `rand::thread_rng`): a Fisher–Yates pass of in-place swaps, so the
/// result holds exactly the old elements. Nothing is promised of their
/// order, which depends on the thread-local generator.
#[verifier::external_body]
fn shuffle_values(values: &mut Vec<u64>)
    ensures
        final(values)@.len() == old(values)@.len(),
        final(values)@.to_multiset() == old(values)@.to_multiset(),
{
    let mut rng = rand::thread_rng();
    rand::seq::SliceRandom::shuffle(values.as_mut_slice(), &mut rng);
}

/// Splits the values, uniformly shuffled, into a pair of disjoint draws:
/// everything past `split_index`, and the first `split_index` values. The
/// two together hold exactly the given values.
pub fn split(items: Vec<u64>, split_index: usize) -> (r: (Vec<u64>, Vec<u64>))
    requires
        split_index <= items@.len(),
    ensures
        r.0@.len() == items@.len() - split_index,
        r.1@.len() == split_index,
        r.0@.to_multiset().add(r.1@.to_multiset()) == items@.to_multiset(),
{
    let ghost m0 = items@.to_multiset();
    let mut v = items;
    shuffle_values(&mut v);
    let mut target: Vec<u64> = Vec::new();
    let mut i: usize = 0;
    while i < split_index
        invariant
            split_index <= v@.len(),
            v@.to_multiset() == m0,
            i <= split_index,
            target@ == v@.take(i as int),
        decreases split_index - i,
    {
        target.push(v[i]);
        proof {
            assert(target@ =~= v@.take(i + 1));
        }
        i = i + 1;
    }
    let mut train: Vec<u64> = Vec::new();
    let mut k: usize = split_index;
    while k < v.len()
        invariant
            split_index <= v@.len(),
            v@.to_multiset() == m0,
            target@ == v@.take(split_index as int),
            split_index <= k <= v@.len(),
            train@ == v@.subrange(split_index as int, k as int),
        decreases v@.len() - k,
    {
        train.push(v[k]);
        proof {
            assert(train@ =~= v@.subrange(split_index as int, k + 1));
        }
        k = k + 1;
    }
    proof {
        assert(v@ =~= v@.take(split_index as int) + v@.subrange(
            split_index as int,
            v@.len() as int,
        ));
        vstd::seq_lib::lemma_multiset_commutative(
            v@.take(split_index as int),
            v@.subrange(split_index as int, v@.len() as int),
        );
        vstd::seq_lib::lemma_seq_union_to_multiset_commutative(
            v@.take(split_index as int),
            v@.subrange(split_index as int, v@.len() as int),
        );
        assert(train@.to_multiset().add(target@.to_multiset()) =~= v@.to_multiset());
    }
    (train, target)
}

/// Everything a multiset-preserving draw holds stays within the original
/// bound.
pub proof fn lemma_multiset_bound(a: Seq<u64>, b: Seq<u64>, s: Seq<u64>, n: u64)
    requires
        a.to_multiset().add(b.to_multiset()) == s.to_multiset(),
        forall|i: int| 0 <= i < s.len() ==> #[trigger] s[i] < n,
    ensures
        forall|i: int| 0 <= i < a.len() ==> #[trigger] a[i] < n,
        forall|i: int| 0 <= i < b.len() ==> #[trigger] b[i] < n,
{
    broadcast use vstd::seq_lib::group_to_multiset_ensures;
    broadcast use vstd::multiset::group_multiset_axioms;

    assert forall|i: int| 0 <= i < a.len() implies #[trigger] a[i] < n by {
        assert(a.contains(a[i]));
        assert(a.to_multiset().count(a[i]) > 0);
        assert(s.to_multiset().count(a[i]) > 0);
        assert(s.contains(a[i]));
        let w = choose|w: int| 0 <= w < s.len() && s[w] == a[i];
        assert(s[w] < n);
    }
    assert forall|i: int| 0 <= i < b.len() implies #[trigger] b[i] < n by {
        assert(b.contains(b[i]));
        assert(b.to_multiset().count(b[i]) > 0);
        assert(s.to_multiset().count(b[i]) > 0);
        assert(s.contains(b[i]));
        let w = choose|w: int| 0 <= w < s.len() && s[w] == b[i];
        assert(s[w] < n);
    }
}

} // verus!
