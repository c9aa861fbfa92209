//! Program-set composition: previously-installed extensions merged with the
//! freshly provided ones, ordered by ascending priority; within one priority
//! the input order is kept, so prior extensions (which the caller lists
//! first) stay ahead of fresh ones.

use vstd::prelude::*;
use vstd::seq_lib::*;
use crate::pin_name::{AttrsView, ExtensionAttrs};

verus! {

/// Membership of one priority bucket.
pub open spec fn pri_pred(p: int) -> spec_fn(AttrsView) -> bool {
    |a: AttrsView| a.priority as int == p
}

/// The extensions of priority `p`, in input order.
pub open spec fn pri_bucket(s: Seq<AttrsView>, p: int) -> Seq<AttrsView> {
    s.filter(pri_pred(p))
}

/// The buckets for priorities below `k`, concatenated in ascending order.
pub open spec fn compose_upto(s: Seq<AttrsView>, k: int) -> Seq<AttrsView>
    decreases k,
{
    if k <= 0 {
        Seq::empty()
    } else {
        compose_upto(s, k - 1) + pri_bucket(s, k - 1)
    }
}

/// The composed binding order: all priority buckets, ascending.
pub open spec fn compose_spec(s: Seq<AttrsView>) -> Seq<AttrsView> {
    compose_upto(s, 256)
}

/// The identity under which an extension is unique within a revision.
pub open spec fn key_of(a: AttrsView) -> (Seq<char>, Seq<char>) {
    (a.ebpf_id, a.program_name)
}

/// No two entries share an `(ebpf_id, program_name)` key.
pub open spec fn unique_keys(s: Seq<AttrsView>) -> bool {
    forall|i: int, j: int| 0 <= i < j < s.len() ==> key_of(s[i]) != key_of(s[j])
}

proof fn lemma_upto_empty(k: int)
    ensures
        compose_upto(Seq::empty(), k) == Seq::<AttrsView>::empty(),
    decreases k,
{
    if k > 0 {
        lemma_upto_empty(k - 1);
        assert(Seq::<AttrsView>::empty().filter(pri_pred(k - 1)) =~= Seq::empty()) by {
            reveal(Seq::filter);
        }
        assert(compose_upto(Seq::empty(), k) =~= Seq::empty());
    }
}

/// Every element of `compose_upto(s, k)` has priority below `k`, they come
/// sorted by priority, and each one satisfies its bucket's predicate.
proof fn lemma_upto_sorted(s: Seq<AttrsView>, k: int)
    requires
        0 <= k,
    ensures
        forall|i: int|
            0 <= i < compose_upto(s, k).len() ==> ((#[trigger] compose_upto(s, k)[i]).priority
                as int) < k,
        forall|i: int, j: int|
            0 <= i < j < compose_upto(s, k).len() ==> compose_upto(s, k)[i].priority
                <= compose_upto(s, k)[j].priority,
    decreases k,
{
    if k > 0 {
        lemma_upto_sorted(s, k - 1);
        broadcast use group_filter_ensures;

        let prefix = compose_upto(s, k - 1);
        let bucket = pri_bucket(s, k - 1);
        assert(forall|i: int|
            0 <= i < bucket.len() ==> (#[trigger] bucket[i]).priority as int == k - 1);
        assert(forall|i: int|
            0 <= i < compose_upto(s, k).len() ==> compose_upto(s, k)[i] == if i < prefix.len() {
                prefix[i]
            } else {
                bucket[i - prefix.len()]
            });
    }
}

/// How appending one element changes the composition: it lands in its own
/// bucket, so buckets for other priorities are untouched, and as a multiset
/// the composition gains exactly that element once its priority is in range.
proof fn lemma_upto_push(s: Seq<AttrsView>, x: AttrsView, k: int)
    requires
        0 <= k <= 256,
    ensures
        x.priority as int >= k ==> compose_upto(s.push(x), k) == compose_upto(s, k),
        (x.priority as int) < k ==> compose_upto(s.push(x), k).to_multiset() == compose_upto(
            s,
            k,
        ).to_multiset().insert(x),
    decreases k,
{
    broadcast use vstd::seq_lib::group_seq_lib_default;

    if k > 0 {
        lemma_upto_push(s, x, k - 1);
        s.lemma_filter_push(x, pri_pred(k - 1));
        let prefix_old = compose_upto(s, k - 1);
        let prefix_new = compose_upto(s.push(x), k - 1);
        let bucket_old = pri_bucket(s, k - 1);
        let bucket_new = pri_bucket(s.push(x), k - 1);
        if x.priority as int >= k {
            assert(bucket_new == bucket_old);
            assert(prefix_new == prefix_old);
        } else if x.priority as int == k - 1 {
            assert(prefix_new == prefix_old);
            assert(bucket_new == bucket_old.push(x));
            lemma_multiset_commutative(prefix_old, bucket_old.push(x));
            lemma_multiset_commutative(prefix_old, bucket_old);
            bucket_old.to_multiset_ensures();
            assert(compose_upto(s.push(x), k).to_multiset() == prefix_old.to_multiset().add(
                bucket_old.to_multiset().insert(x),
            ));
            assert(prefix_old.to_multiset().add(bucket_old.to_multiset().insert(x))
                =~= prefix_old.to_multiset().add(bucket_old.to_multiset()).insert(x));
        } else {
            assert(bucket_new == bucket_old);
            lemma_multiset_commutative(prefix_new, bucket_old);
            lemma_multiset_commutative(prefix_old, bucket_old);
            assert(prefix_new.to_multiset() == prefix_old.to_multiset().insert(x));
            assert(prefix_old.to_multiset().insert(x).add(bucket_old.to_multiset())
                =~= prefix_old.to_multiset().add(bucket_old.to_multiset()).insert(x));
        }
    }
}

/// The composition is a permutation of its input: nothing is lost, nothing
/// is invented, nothing is duplicated.
pub proof fn lemma_compose_multiset(s: Seq<AttrsView>)
    ensures
        compose_spec(s).to_multiset() == s.to_multiset(),
    decreases s.len(),
{
    broadcast use vstd::seq_lib::group_to_multiset_ensures;

    if s.len() == 0 {
        lemma_upto_empty(256);
        assert(s =~= Seq::<AttrsView>::empty());
    } else {
        let s0 = s.drop_last();
        let x = s.last();
        lemma_compose_multiset(s0);
        lemma_upto_push(s0, x, 256);
        assert(s0.push(x) =~= s);
        assert(compose_spec(s).to_multiset() == s0.to_multiset().insert(x));
        assert(s0.push(x).to_multiset() == s0.to_multiset().insert(x));
    }
}

/// Sortedness of the composed order, and preservation of both inputs:
/// composing previously-installed extensions with freshly provided ones
/// keeps a binding for every one of them, ascending by priority, and within
/// one priority all prior extensions stay ahead of all fresh ones.
pub proof fn lemma_compose_preserves(prev: Seq<AttrsView>, fresh: Seq<AttrsView>)
    ensures
        compose_spec(prev + fresh).to_multiset() == (prev + fresh).to_multiset(),
        forall|i: int|
            0 <= i < prev.len() ==> compose_spec(prev + fresh).contains(#[trigger] prev[i]),
        forall|i: int|
            0 <= i < fresh.len() ==> compose_spec(prev + fresh).contains(#[trigger] fresh[i]),
        forall|i: int, j: int|
            0 <= i < j < compose_spec(prev + fresh).len() ==> compose_spec(prev + fresh)[i].priority
                <= compose_spec(prev + fresh)[j].priority,
        forall|p: int|
            pri_bucket(#[trigger] (prev + fresh), p) == pri_bucket(prev, p) + pri_bucket(fresh, p),
{
    broadcast use vstd::seq_lib::group_to_multiset_ensures;

    let all = prev + fresh;
    lemma_compose_multiset(all);
    lemma_upto_sorted(all, 256);
    assert forall|i: int| 0 <= i < prev.len() implies compose_spec(all).contains(
        #[trigger] prev[i],
    ) by {
        assert(all[i] == prev[i]);
        assert(all.contains(prev[i]));
        assert(all.to_multiset().count(prev[i]) > 0);
        assert(compose_spec(all).to_multiset().count(prev[i]) > 0);
    }
    assert forall|i: int| 0 <= i < fresh.len() implies compose_spec(all).contains(
        #[trigger] fresh[i],
    ) by {
        assert(all[prev.len() + i] == fresh[i]);
        assert(all.contains(fresh[i]));
        assert(all.to_multiset().count(fresh[i]) > 0);
        assert(compose_spec(all).to_multiset().count(fresh[i]) > 0);
    }
    assert forall|p: int| pri_bucket(#[trigger] (prev + fresh), p) == pri_bucket(prev, p)
        + pri_bucket(fresh, p) by {
        Seq::filter_distributes_over_add(prev, fresh, pri_pred(p));
    }
}

/// Idempotent-reinstall core: when no two inputs share an
/// `(ebpf_id, program_name)` key, neither do any two composed bindings — the
/// final state holds exactly one extension per key.
pub proof fn lemma_compose_unique_keys(s: Seq<AttrsView>)
    requires
        unique_keys(s),
    ensures
        unique_keys(compose_spec(s)),
{
    broadcast use vstd::seq_lib::group_to_multiset_ensures;

    let r = compose_spec(s);
    lemma_compose_multiset(s);
    assert(s.no_duplicates()) by {
        assert forall|i: int, j: int| 0 <= i < s.len() && 0 <= j < s.len() && i != j implies s[i]
            != s[j] by {
            if i < j {
                assert(key_of(s[i]) != key_of(s[j]));
            } else {
                assert(key_of(s[j]) != key_of(s[i]));
            }
        }
    }
    s.lemma_multiset_has_no_duplicates();
    assert(forall|x: AttrsView|
        r.to_multiset().contains(x) ==> r.to_multiset().count(x) == 1);
    r.lemma_multiset_has_no_duplicates_conv();
    assert forall|i: int, j: int| 0 <= i < j < r.len() implies key_of(r[i]) != key_of(r[j]) by {
        assert(r.contains(r[i]));
        assert(r.contains(r[j]));
        assert(s.to_multiset().count(r[i]) > 0);
        assert(s.to_multiset().count(r[j]) > 0);
        assert(s.contains(r[i]));
        assert(s.contains(r[j]));
        let a = choose|a: int| 0 <= a < s.len() && s[a] == r[i];
        let b = choose|b: int| 0 <= b < s.len() && s[b] == r[j];
        assert(r[i] != r[j]);
        assert(a != b);
        if a < b {
            assert(key_of(s[a]) != key_of(s[b]));
        } else {
            assert(key_of(s[b]) != key_of(s[a]));
        }
    }
}

/// Stable bucket sort by priority: the composed order, executably.
pub fn compose(all: &Vec<ExtensionAttrs>) -> (r: Vec<ExtensionAttrs>)
    ensures
        r.deep_view() == compose_spec(all.deep_view()),
        r.len() == compose_spec(all.deep_view()).len(),
{
    let ghost allv = all.deep_view();
    let mut r: Vec<ExtensionAttrs> = Vec::new();
    let mut p: usize = 0;
    proof {
        assert(r.deep_view() =~= compose_upto(allv, 0));
    }
    while p < 256
        invariant
            allv == all.deep_view(),
            allv.len() == all.len(),
            0 <= p <= 256,
            r.deep_view() == compose_upto(allv, p as int),
        decreases 256 - p,
    {
        let mut j: usize = 0;
        proof {
            assert(allv.take(0) =~= Seq::empty());
            assert(allv.take(0).filter(pri_pred(p as int)) =~= Seq::empty()) by {
                reveal(Seq::filter);
            }
            assert(r.deep_view() =~= compose_upto(allv, p as int) + allv.take(0).filter(
                pri_pred(p as int),
            ));
        }
        while j < all.len()
            invariant
                allv == all.deep_view(),
                allv.len() == all.len(),
                0 <= p < 256,
                0 <= j <= all.len(),
                r.deep_view() == compose_upto(allv, p as int) + allv.take(j as int).filter(
                    pri_pred(p as int),
                ),
            decreases all.len() - j,
        {
            proof {
                assert(allv[j as int] == all[j as int].deep_view());
                assert(allv.take(j + 1) =~= allv.take(j as int).push(allv[j as int]));
                allv.take(j as int).lemma_filter_push(allv[j as int], pri_pred(p as int));
            }
            if all[j].priority as usize == p {
                let ghost before = r.deep_view();
                let a = all[j].duplicate();
                r.push(a);
                proof {
                    assert(r.deep_view() =~= before.push(allv[j as int]));
                    assert(r.deep_view() =~= compose_upto(allv, p as int) + allv.take(
                        j + 1,
                    ).filter(pri_pred(p as int)));
                }
            } else {
                proof {
                    assert(allv.take(j + 1).filter(pri_pred(p as int)) == allv.take(
                        j as int,
                    ).filter(pri_pred(p as int)));
                }
            }
            j = j + 1;
        }
        proof {
            assert(allv.take(all.len() as int) =~= allv);
            assert(r.deep_view() == compose_upto(allv, p as int) + pri_bucket(allv, p as int));
            assert(r.deep_view() == compose_upto(allv, p + 1));
        }
        p = p + 1;
    }
    r
}

} // verus!
