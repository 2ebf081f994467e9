use vstd::prelude::*;

use crate::buffer::can_release;
use crate::buffer::concat_data;
use crate::buffer::lemma_concat_data_add;
use crate::buffer::lemma_sorted_partition;
use crate::buffer::releasable;
use crate::buffer::retained;
use crate::buffer::sorted_by_index;
use crate::message::MessageModel;

verus! {

/// No two messages of `p` share an index.
pub open spec fn distinct_indices(p: Seq<MessageModel>) -> bool {
    forall|i: int, j: int| 0 <= i < j < p.len() ==> p[i].index != p[j].index
}

/// The indices of `p` run without a gap: each message's index is the first's
/// plus its offset.
pub open spec fn consecutive_indices(p: Seq<MessageModel>) -> bool {
    forall|i: int| 0 <= i < p.len() ==> #[trigger] p[i].index == p[0].index + i
}

/// The bytes that a run of up to `fuel` reads yields from the pending
/// messages `p` under the given watermark. Each unfolding is one read, as
/// `read`'s contract describes it: nothing once no message sits at or below
/// the watermark, otherwise the released payloads followed by whatever later
/// reads yield from the retained rest.
pub open spec fn drained_bytes(p: Seq<MessageModel>, watermark: int, fuel: nat) -> Seq<u8>
    decreases fuel,
{
    if fuel == 0 || !can_release(p, watermark) {
        Seq::empty()
    } else {
        concat_data(releasable(p, watermark + 1)) + drained_bytes(
            retained(p, watermark + 1),
            watermark + releasable(p, watermark + 1).len(),
            (fuel - 1) as nat,
        )
    }
}

/// A read loses and duplicates nothing: the pending payloads split exactly
/// into the bytes the read returns and the bytes that stay pending.
pub proof fn lemma_read_conserves_bytes(p: Seq<MessageModel>, x: int)
    requires
        sorted_by_index(p),
    ensures
        releasable(p, x) + retained(p, x) == p,
        concat_data(releasable(p, x)) + concat_data(retained(p, x)) == concat_data(p),
{
    lemma_sorted_partition(p, x);
    lemma_concat_data_add(releasable(p, x), retained(p, x));
}

/// Pending messages whose indices run gaplessly from at or below the
/// watermark are delivered whole: enough reads return, between them, every
/// pending payload, concatenated in index order.
pub proof fn lemma_reads_drain_everything(p: Seq<MessageModel>, watermark: int, fuel: nat)
    requires
        consecutive_indices(p),
        p.len() > 0 ==> p[0].index <= watermark,
        fuel >= p.len(),
    ensures
        drained_bytes(p, watermark, fuel) == concat_data(p),
    decreases p.len(),
{
    assert(sorted_by_index(p));
    if p.len() == 0 {
        assert(drained_bytes(p, watermark, fuel) == Seq::<u8>::empty());
    } else {
        assert(can_release(p, watermark));
        let x = watermark + 1;
        lemma_sorted_partition(p, x);
        let rel = releasable(p, x);
        let ret = retained(p, x);
        let l = rel.len() as int;
        assert(l >= 1) by {
            if l == 0 {
                assert(ret[0] == p.skip(0)[0]);
                assert(p.skip(0)[0] == p[0]);
            }
        }
        assert forall|t: int| 0 <= t < ret.len() implies ret[t] == p[l + t] by {
            assert(ret[t] == p.skip(l)[t]);
        }
        assert(consecutive_indices(ret));
        assert(ret.len() > 0 ==> ret[0].index <= watermark + l);
        lemma_reads_drain_everything(ret, watermark + l, (fuel - 1) as nat);
        lemma_concat_data_add(rel, ret);
        assert(drained_bytes(p, watermark, fuel) == concat_data(rel) + drained_bytes(
            ret,
            watermark + l,
            (fuel - 1) as nat,
        ));
        assert(concat_data(rel) + concat_data(ret) == concat_data(rel + ret));
    }
}

/// Between two positions of a sorted, duplicate-free run, the indices grow
/// at least as fast as the positions.
proof fn lemma_index_spread(p: Seq<MessageModel>, a: int, b: int)
    requires
        sorted_by_index(p),
        distinct_indices(p),
        0 <= a <= b < p.len(),
    ensures
        p[b].index - p[a].index >= b - a,
    decreases b - a,
{
    if a < b {
        lemma_index_spread(p, a, b - 1);
        assert(p[b - 1].index <= p[b].index);
        assert(p[b - 1].index != p[b].index);
    }
}

/// Sorted, duplicate-free indices confined to a window as wide as the run
/// itself leave no room for a gap: the indices are consecutive. So a set of
/// messages carrying each index of a dense range exactly once - written in
/// whatever order, since `write` keeps the buffer sorted - forms a gapless
/// pending run.
pub proof fn lemma_packed_indices_are_consecutive(p: Seq<MessageModel>, first: int)
    requires
        sorted_by_index(p),
        distinct_indices(p),
        forall|t: int| 0 <= t < p.len() ==> first <= #[trigger] p[t].index < first + p.len(),
    ensures
        consecutive_indices(p),
{
    if p.len() > 0 {
        assert forall|t: int| 0 <= t < p.len() implies #[trigger] p[t].index == p[0].index
            + t by {
            lemma_index_spread(p, 0, t);
            lemma_index_spread(p, t, p.len() - 1);
        }
    }
}

/// Two runs sorted by index, with no index duplicated and the same messages,
/// are the same run.
pub proof fn lemma_sorted_distinct_unique(s1: Seq<MessageModel>, s2: Seq<MessageModel>)
    requires
        sorted_by_index(s1),
        sorted_by_index(s2),
        distinct_indices(s1),
        distinct_indices(s2),
        s1.to_multiset() == s2.to_multiset(),
    ensures
        s1 == s2,
    decreases s1.len(),
{
    broadcast use vstd::seq_lib::group_to_multiset_ensures;

    assert(s1.len() == s1.to_multiset().len());
    assert(s2.len() == s2.to_multiset().len());
    if s1.len() == 0 {
        assert(s1 =~= s2);
    } else {
        let a = s1[0];
        assert(s1.contains(a));
        assert(s1.to_multiset().count(a) > 0);
        assert(s2.to_multiset().count(a) > 0);
        assert(s2.contains(a));
        let i = choose|i: int| 0 <= i < s2.len() && s2[i] == a;
        let b = s2[0];
        assert(s2.contains(b));
        assert(s2.to_multiset().count(b) > 0);
        assert(s1.to_multiset().count(b) > 0);
        assert(s1.contains(b));
        let j = choose|j: int| 0 <= j < s1.len() && s1[j] == b;
        assert(s2[0].index <= s2[i].index);
        assert(s1[0].index <= s1[j].index);
        assert(s1[0].index == s2[0].index);
        assert(i == 0) by {
            if i != 0 {
                assert(s2[0].index != s2[i].index);
            }
        }
        assert(s2[0] == a);
        let t1 = s1.drop_first();
        let t2 = s2.drop_first();
        assert(s1.remove(0) =~= t1);
        assert(s2.remove(0) =~= t2);
        assert(t1.to_multiset() == s1.to_multiset().remove(a));
        assert(t2.to_multiset() == s2.to_multiset().remove(a));
        assert forall|u: int, v: int| 0 <= u <= v < t1.len() implies t1[u].index
            <= t1[v].index by {
            assert(t1[u] == s1[u + 1]);
            assert(t1[v] == s1[v + 1]);
        }
        assert forall|u: int, v: int| 0 <= u <= v < t2.len() implies t2[u].index
            <= t2[v].index by {
            assert(t2[u] == s2[u + 1]);
            assert(t2[v] == s2[v + 1]);
        }
        assert forall|u: int, v: int| 0 <= u < v < t1.len() implies t1[u].index
            != t1[v].index by {
            assert(t1[u] == s1[u + 1]);
            assert(t1[v] == s1[v + 1]);
        }
        assert forall|u: int, v: int| 0 <= u < v < t2.len() implies t2[u].index
            != t2[v].index by {
            assert(t2[u] == s2[u + 1]);
            assert(t2[v] == s2[v + 1]);
        }
        lemma_sorted_distinct_unique(t1, t2);
        assert forall|t: int| 0 <= t < s1.len() implies s1[t] == s2[t] by {
            if t > 0 {
                assert(s1[t] == t1[t - 1]);
                assert(s2[t] == t2[t - 1]);
            }
        }
        assert(s1 =~= s2);
    }
}

/// Writing two messages in either order leaves the same pending run, so the
/// order of two `write` calls does not affect what later reads return, as
/// long as no index is duplicated. The hypotheses are exactly what `write`'s
/// contract gives for the two orders of insertion into a common start.
pub proof fn lemma_write_order_irrelevant(
    base: Seq<MessageModel>,
    m1: MessageModel,
    m2: MessageModel,
    p12: Seq<MessageModel>,
    p21: Seq<MessageModel>,
)
    requires
        sorted_by_index(p12),
        sorted_by_index(p21),
        distinct_indices(p12),
        distinct_indices(p21),
        p12.to_multiset() == base.to_multiset().insert(m1).insert(m2),
        p21.to_multiset() == base.to_multiset().insert(m2).insert(m1),
    ensures
        p12 == p21,
{
    broadcast use vstd::multiset::group_multiset_axioms;

    assert(base.to_multiset().insert(m1).insert(m2) =~= base.to_multiset().insert(m2).insert(
        m1,
    ));
    lemma_sorted_distinct_unique(p12, p21);
}

/// After a read that releases every pending message, the next read yields
/// nothing: nothing is pending any more. (A read that itself yields nothing
/// changes nothing, by `read`'s contract, so there a second read yields
/// nothing as well.)
pub proof fn lemma_full_release_then_nothing(p: Seq<MessageModel>, watermark: int)
    requires
        retained(p, watermark + 1).len() == 0,
    ensures
        !can_release(
            retained(p, watermark + 1),
            watermark + releasable(p, watermark + 1).len(),
        ),
{
}

} // verus!
