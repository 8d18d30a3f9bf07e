//! Ordering of posts by timestamp: stable insertion sorts, ascending for
//! a thread's replies and descending for the bumped top-level listing.

use vstd::prelude::*;
use vstd::seq_lib::lemma_multiset_commutative;
use vstd::multiset::Multiset;
use crate::post::{Post, PostView};

verus! {

/// The views of a sequence of posts.
pub open spec fn views_of(s: Seq<Post>) -> Seq<PostView> {
    s.map_values(|p: Post| p@)
}

/// Timestamps never decrease along the sequence.
pub open spec fn sorted_asc(s: Seq<PostView>) -> bool {
    forall|i: int, j: int| 0 <= i < j < s.len() ==> s[i].timestamp <= s[j].timestamp
}

/// Timestamps never increase along the sequence.
pub open spec fn sorted_desc(s: Seq<PostView>) -> bool {
    forall|i: int, j: int| 0 <= i < j < s.len() ==> s[i].timestamp >= s[j].timestamp
}

/// Insert `x` into `s` before the first element with a strictly greater
/// timestamp: stable when `s` is sorted ascending.
pub open spec fn insert_asc(s: Seq<PostView>, x: PostView) -> Seq<PostView>
    decreases s.len(),
{
    if s.len() == 0 {
        seq![x]
    } else if x.timestamp < s.first().timestamp {
        seq![x] + s
    } else {
        seq![s.first()] + insert_asc(s.drop_first(), x)
    }
}

/// Stable insertion sort by ascending timestamp.
pub open spec fn sort_asc(s: Seq<PostView>) -> Seq<PostView>
    decreases s.len(),
{
    if s.len() == 0 {
        Seq::empty()
    } else {
        insert_asc(sort_asc(s.drop_last()), s.last())
    }
}

/// Insert `x` into `s` before the first element with a strictly smaller
/// timestamp: stable when `s` is sorted descending.
pub open spec fn insert_desc(s: Seq<PostView>, x: PostView) -> Seq<PostView>
    decreases s.len(),
{
    if s.len() == 0 {
        seq![x]
    } else if x.timestamp > s.first().timestamp {
        seq![x] + s
    } else {
        seq![s.first()] + insert_desc(s.drop_first(), x)
    }
}

/// Stable insertion sort by descending timestamp.
pub open spec fn sort_desc(s: Seq<PostView>) -> Seq<PostView>
    decreases s.len(),
{
    if s.len() == 0 {
        Seq::empty()
    } else {
        insert_desc(sort_desc(s.drop_last()), s.last())
    }
}

/// Stable insertion keeps the ascending order and adds one occurrence.
pub proof fn lemma_insert_asc_ensures(s: Seq<PostView>, x: PostView)
    requires
        sorted_asc(s),
    ensures
        sorted_asc(insert_asc(s, x)),
        insert_asc(s, x).to_multiset() == s.to_multiset().insert(x),
        insert_asc(s, x).len() == s.len() + 1,
    decreases s.len(),
{
    broadcast use vstd::seq_lib::group_to_multiset_ensures;

    lemma_multiset_commutative(seq![x], s);
    assert(seq![x].to_multiset() =~= Multiset::<PostView>::empty().insert(x));
    if s.len() == 0 {
        assert(insert_asc(s, x) =~= seq![x]);
        assert(insert_asc(s, x).to_multiset() =~= s.to_multiset().insert(x));
    } else if x.timestamp < s.first().timestamp {
        assert(insert_asc(s, x) == seq![x] + s);
        assert((seq![x] + s).to_multiset() =~= s.to_multiset().insert(x));
        assert forall|i: int, j: int|
            0 <= i < j < (seq![x] + s).len() implies (seq![x] + s)[i].timestamp <= (seq![x]
            + s)[j].timestamp by {
            if i > 0 {
                assert(s[i - 1].timestamp <= s[j - 1].timestamp);
            } else {
                assert(x.timestamp <= s[j - 1].timestamp);
            }
        }
    } else {
        let rest = s.drop_first();
        assert(sorted_asc(rest)) by {
            assert forall|i: int, j: int|
                0 <= i < j < rest.len() implies rest[i].timestamp <= rest[j].timestamp by {
                assert(s[i + 1].timestamp <= s[j + 1].timestamp);
            }
        }
        lemma_insert_asc_ensures(rest, x);
        let inner = insert_asc(rest, x);
        let whole = seq![s.first()] + inner;
        assert(insert_asc(s, x) == whole);
        lemma_multiset_commutative(seq![s.first()], inner);
        assert(seq![s.first()].to_multiset() =~= Multiset::<PostView>::empty().insert(s.first()));
        lemma_multiset_commutative(seq![s.first()], rest);
        assert(seq![s.first()] + rest =~= s);
        assert(whole.to_multiset() =~= s.to_multiset().insert(x));
        assert forall|i: int, j: int|
            0 <= i < j < whole.len() implies whole[i].timestamp <= whole[j].timestamp by {
            if i > 0 {
                assert(inner[i - 1].timestamp <= inner[j - 1].timestamp);
            } else {
                let e = inner[j - 1];
                assert(inner.contains(e));
                assert(inner.to_multiset().contains(e));
                if e != x {
                    assert(rest.to_multiset().count(e) > 0);
                    assert(rest.contains(e));
                    let k = choose|k: int| 0 <= k < rest.len() && rest[k] == e;
                    assert(s[k + 1] == rest[k]);
                    assert(s.first().timestamp <= s[k + 1].timestamp);
                } else {
                    assert(s.first().timestamp <= x.timestamp);
                }
            }
        }
    }
}

/// The ascending sort is sorted and is a permutation of its input.
pub proof fn lemma_sort_asc_ensures(s: Seq<PostView>)
    ensures
        sorted_asc(sort_asc(s)),
        sort_asc(s).to_multiset() == s.to_multiset(),
        sort_asc(s).len() == s.len(),
    decreases s.len(),
{
    broadcast use vstd::seq_lib::group_to_multiset_ensures;

    if s.len() == 0 {
        assert(sort_asc(s).to_multiset() =~= s.to_multiset());
    } else {
        lemma_sort_asc_ensures(s.drop_last());
        lemma_insert_asc_ensures(sort_asc(s.drop_last()), s.last());
        assert(s.drop_last().push(s.last()) =~= s);
        assert(s.drop_last().push(s.last()).to_multiset() == s.drop_last().to_multiset().insert(
            s.last(),
        ));
    }
}

/// Stable insertion keeps the descending order and adds one occurrence.
pub proof fn lemma_insert_desc_ensures(s: Seq<PostView>, x: PostView)
    requires
        sorted_desc(s),
    ensures
        sorted_desc(insert_desc(s, x)),
        insert_desc(s, x).to_multiset() == s.to_multiset().insert(x),
        insert_desc(s, x).len() == s.len() + 1,
    decreases s.len(),
{
    broadcast use vstd::seq_lib::group_to_multiset_ensures;

    lemma_multiset_commutative(seq![x], s);
    assert(seq![x].to_multiset() =~= Multiset::<PostView>::empty().insert(x));
    if s.len() == 0 {
        assert(insert_desc(s, x) =~= seq![x]);
        assert(insert_desc(s, x).to_multiset() =~= s.to_multiset().insert(x));
    } else if x.timestamp > s.first().timestamp {
        assert(insert_desc(s, x) == seq![x] + s);
        assert((seq![x] + s).to_multiset() =~= s.to_multiset().insert(x));
        assert forall|i: int, j: int|
            0 <= i < j < (seq![x] + s).len() implies (seq![x] + s)[i].timestamp >= (seq![x]
            + s)[j].timestamp by {
            if i > 0 {
                assert(s[i - 1].timestamp >= s[j - 1].timestamp);
            } else {
                assert(x.timestamp >= s[j - 1].timestamp);
            }
        }
    } else {
        let rest = s.drop_first();
        assert(sorted_desc(rest)) by {
            assert forall|i: int, j: int|
                0 <= i < j < rest.len() implies rest[i].timestamp >= rest[j].timestamp by {
                assert(s[i + 1].timestamp >= s[j + 1].timestamp);
            }
        }
        lemma_insert_desc_ensures(rest, x);
        let inner = insert_desc(rest, x);
        let whole = seq![s.first()] + inner;
        assert(insert_desc(s, x) == whole);
        lemma_multiset_commutative(seq![s.first()], inner);
        assert(seq![s.first()].to_multiset() =~= Multiset::<PostView>::empty().insert(s.first()));
        lemma_multiset_commutative(seq![s.first()], rest);
        assert(seq![s.first()] + rest =~= s);
        assert(whole.to_multiset() =~= s.to_multiset().insert(x));
        assert forall|i: int, j: int|
            0 <= i < j < whole.len() implies whole[i].timestamp >= whole[j].timestamp by {
            if i > 0 {
                assert(inner[i - 1].timestamp >= inner[j - 1].timestamp);
            } else {
                let e = inner[j - 1];
                assert(inner.contains(e));
                assert(inner.to_multiset().contains(e));
                if e != x {
                    assert(rest.to_multiset().count(e) > 0);
                    assert(rest.contains(e));
                    let k = choose|k: int| 0 <= k < rest.len() && rest[k] == e;
                    assert(s[k + 1] == rest[k]);
                    assert(s.first().timestamp >= s[k + 1].timestamp);
                } else {
                    assert(s.first().timestamp >= x.timestamp);
                }
            }
        }
    }
}

/// The descending sort is sorted and is a permutation of its input.
pub proof fn lemma_sort_desc_ensures(s: Seq<PostView>)
    ensures
        sorted_desc(sort_desc(s)),
        sort_desc(s).to_multiset() == s.to_multiset(),
        sort_desc(s).len() == s.len(),
    decreases s.len(),
{
    broadcast use vstd::seq_lib::group_to_multiset_ensures;

    if s.len() == 0 {
        assert(sort_desc(s).to_multiset() =~= s.to_multiset());
    } else {
        lemma_sort_desc_ensures(s.drop_last());
        lemma_insert_desc_ensures(sort_desc(s.drop_last()), s.last());
        assert(s.drop_last().push(s.last()) =~= s);
        assert(s.drop_last().push(s.last()).to_multiset() == s.drop_last().to_multiset().insert(
            s.last(),
        ));
    }
}

} // verus!
