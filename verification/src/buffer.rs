use vstd::prelude::*;

use vstd::multiset::Multiset;

use crate::message::Message;
use crate::message::MessageModel;

verus! {

/// The messages of `s`, each replaced by its mathematical value.
pub open spec fn models(s: Seq<Message>) -> Seq<MessageModel> {
    s.map_values(|m: Message| m@)
}

/// The sequence is ascending by `index`; payloads play no part in the order.
pub open spec fn sorted_by_index(p: Seq<MessageModel>) -> bool {
    forall|i: int, j: int| 0 <= i <= j < p.len() ==> p[i].index <= p[j].index
}

/// The messages of `p` whose index is at or below the threshold `next`,
/// in the order `p` holds them: what a read with that threshold releases.
pub open spec fn releasable(p: Seq<MessageModel>, next: int) -> Seq<MessageModel>
    decreases p.len(),
{
    if p.len() == 0 {
        Seq::empty()
    } else if p.last().index <= next {
        releasable(p.drop_last(), next).push(p.last())
    } else {
        releasable(p.drop_last(), next)
    }
}

/// The messages of `p` whose index is above the threshold `next`, in the
/// order `p` holds them: what a read with that threshold keeps pending.
pub open spec fn retained(p: Seq<MessageModel>, next: int) -> Seq<MessageModel>
    decreases p.len(),
{
    if p.len() == 0 {
        Seq::empty()
    } else if p.last().index > next {
        retained(p.drop_last(), next).push(p.last())
    } else {
        retained(p.drop_last(), next)
    }
}

/// The payloads of `p` concatenated in the order `p` holds them.
pub open spec fn concat_data(p: Seq<MessageModel>) -> Seq<u8>
    decreases p.len(),
{
    if p.len() == 0 {
        Seq::empty()
    } else {
        concat_data(p.drop_last()) + p.last().data
    }
}

/// A read yields bytes exactly when some pending message sits at or below
/// the watermark.
pub open spec fn can_release(p: Seq<MessageModel>, watermark: int) -> bool {
    p.len() > 0 && p[0].index <= watermark
}

/// Concatenation of payloads distributes over splitting a sequence in two.
pub proof fn lemma_concat_data_add(a: Seq<MessageModel>, b: Seq<MessageModel>)
    ensures
        concat_data(a + b) == concat_data(a) + concat_data(b),
    decreases b.len(),
{
    if b.len() == 0 {
        assert(a + b =~= a);
        assert(concat_data(b) == Seq::<u8>::empty());
        assert(concat_data(a) + concat_data(b) =~= concat_data(a));
    } else {
        lemma_concat_data_add(a, b.drop_last());
        assert((a + b).drop_last() =~= a + b.drop_last());
        assert((a + b).last() == b.last());
        assert(concat_data(a + b) == concat_data(a + b.drop_last()) + b.last().data);
        assert(concat_data(a) + concat_data(b) =~= (concat_data(a) + concat_data(
            b.drop_last(),
        )) + b.last().data);
    }
}

/// Extending a prefix by one message appends exactly that message's payload.
pub proof fn lemma_concat_data_take_step(p: Seq<MessageModel>, j: int)
    requires
        0 <= j < p.len(),
    ensures
        concat_data(p.take(j + 1)) == concat_data(p.take(j)) + p[j].data,
{
    assert(p.take(j + 1).drop_last() =~= p.take(j));
    assert(p.take(j + 1).last() == p[j]);
    assert(concat_data(p.take(j + 1)) == concat_data(p.take(j + 1).drop_last()) + p.take(
        j + 1,
    ).last().data);
}

/// In a sequence sorted by index, the messages at or below a threshold form a
/// prefix and the rest form the suffix: filtering splits the sequence in two,
/// in place, with nothing lost, duplicated or reordered.
pub proof fn lemma_sorted_partition(p: Seq<MessageModel>, x: int)
    requires
        sorted_by_index(p),
    ensures
        releasable(p, x) + retained(p, x) == p,
        releasable(p, x) == p.take(releasable(p, x).len() as int),
        retained(p, x) == p.skip(releasable(p, x).len() as int),
        forall|t: int| 0 <= t < releasable(p, x).len() ==> releasable(p, x)[t].index <= x,
        forall|t: int| 0 <= t < retained(p, x).len() ==> retained(p, x)[t].index > x,
    decreases p.len(),
{
    let rel = releasable(p, x);
    let ret = retained(p, x);
    if p.len() == 0 {
        assert(rel =~= p.take(0));
        assert(ret =~= p.skip(0));
        assert(rel + ret =~= p);
    } else {
        let q = p.drop_last();
        let m = p.last();
        assert(sorted_by_index(q)) by {
            assert forall|i: int, j: int| 0 <= i <= j < q.len() implies q[i].index
                <= q[j].index by {
                assert(q[i] == p[i]);
                assert(q[j] == p[j]);
            }
        }
        lemma_sorted_partition(q, x);
        let relq = releasable(q, x);
        let retq = retained(q, x);
        let k = relq.len() as int;
        if m.index <= x {
            assert(rel == relq.push(m) && ret == retq);
            // every earlier message sits at or below the last one, so none is
            // beyond the threshold and the retained suffix of `q` is empty
            assert(retq.len() == 0) by {
                if retq.len() > 0 {
                    assert(retq[0] == q.skip(k)[0]);
                    assert(q.skip(k)[0] == q[k]);
                    assert(q[k].index <= m.index);
                }
            }
            assert(relq =~= q) by {
                assert(q.skip(k).len() == 0);
            }
            assert(rel =~= p) by {
                assert(rel == q.push(m));
            }
            assert(rel =~= p.take(rel.len() as int));
            assert(ret =~= p.skip(rel.len() as int));
            assert(rel + ret =~= p);
        } else {
            assert(rel == relq && ret == retq.push(m));
            assert(k <= q.len());
            assert(rel =~= p.take(k)) by {
                assert forall|t: int| 0 <= t < k implies relq[t] == p.take(k)[t] by {
                    assert(relq[t] == q.take(k)[t]);
                    assert(q.take(k)[t] == q[t]);
                    assert(q[t] == p[t]);
                }
            }
            assert(ret =~= p.skip(k)) by {
                assert forall|t: int| 0 <= t < ret.len() implies ret[t] == p.skip(k)[t] by {
                    if t < retq.len() {
                        assert(ret[t] == retq[t]);
                        assert(retq[t] == q.skip(k)[t]);
                        assert(q.skip(k)[t] == q[k + t]);
                        assert(q[k + t] == p[k + t]);
                    } else {
                        assert(ret[t] == m);
                        assert(p.skip(k)[t] == p[k + t]);
                        assert(k + t == p.len() - 1);
                    }
                }
            }
            assert(rel + ret =~= p);
        }
    }
}

/// Stores messages and emits their payloads in index order.
///
/// Only contiguous messages with an index at or below the read threshold are
/// returned - this avoids returning gaps while the buffer waits for the full
/// sequence to arrive.
#[derive(Debug)]
pub struct OrderedMessageBuffer {
    next_index: u64,
    messages: Vec<Message>,
}

impl OrderedMessageBuffer {
    /// The index up to which all data has already been released.
    pub closed spec fn watermark(&self) -> u64 {
        self.next_index
    }

    /// The pending messages, as mathematical values, in storage order.
    pub closed spec fn pending(&self) -> Seq<MessageModel> {
        models(self.messages@)
    }

    /// The buffer's invariant: pending messages stay sorted by index.
    pub open spec fn wf(&self) -> bool {
        sorted_by_index(self.pending())
    }

    /// An empty buffer at the start of a stream: nothing pending, nothing
    /// released yet.
    pub fn new() -> (r: OrderedMessageBuffer)
        ensures
            r.wf(),
            r.watermark() == 0,
            r.pending() == Seq::<MessageModel>::empty(),
    {
        proof {
            assert(models(Seq::<Message>::empty()) =~= Seq::<MessageModel>::empty());
        }
        OrderedMessageBuffer { next_index: 0, messages: Vec::new() }
    }

    /// Writes a message into the buffer. Messages are sorted on insertion, so
    /// that later on multiple reads for incomplete sequences don't result in
    /// useless sort work.
    pub fn write(&mut self, message: Message)
        ensures
            final(self).wf(),
            final(self).watermark() == old(self).watermark(),
            final(self).pending().to_multiset() == old(self).pending().to_multiset().insert(
                message@,
            ),
            final(self).pending().len() == old(self).pending().len() + 1,
    {
        proof {
            broadcast use vstd::seq_lib::group_to_multiset_ensures;

            assert(models(self.messages@.push(message)) =~= models(self.messages@).push(
                message@,
            ));
        }
        self.messages.push(message);
        OrderedMessageBuffer::insertion_sort(&mut self.messages);
    }

    /// Returns `Some(bytes)` where there is gapless ordered data at the front
    /// of the buffer, and `None` where the buffer is empty or its lowest
    /// index sits past the watermark. A read releases every pending message
    /// whose index is at or below `watermark + 1`, removes those messages,
    /// advances the watermark past them, and returns their payloads
    /// concatenated in index order. A read that returns `None` changes
    /// nothing.
    #[verifier::loop_isolation(false)]
    pub fn read(&mut self) -> (r: Option<Vec<u8>>)
        requires
            old(self).wf(),
            old(self).watermark() + old(self).pending().len() + 1 <= u64::MAX,
        ensures
            final(self).wf(),
            old(self).watermark() <= final(self).watermark(),
            !can_release(old(self).pending(), old(self).watermark() as int) ==> (r is None
                && final(self).pending() == old(self).pending() && final(self).watermark()
                == old(self).watermark()),
            can_release(old(self).pending(), old(self).watermark() as int) ==> ((
            r matches Some(bytes)
                && bytes@ == concat_data(
                releasable(old(self).pending(), old(self).watermark() + 1),
            )) && final(self).pending() == retained(
                old(self).pending(),
                old(self).watermark() + 1,
            ) && final(self).watermark() == old(self).watermark() + releasable(
                old(self).pending(),
                old(self).watermark() + 1,
            ).len()),
    {
        if self.messages.len() == 0 || self.messages[0].index > self.next_index {
            return None;
        }
        let w: u64 = self.next_index;
        let next: u64 = w + 1;
        let ghost p = self.pending();
        let ghost msnap = self.messages@;
        proof {
            lemma_sorted_partition(p, next as int);
        }
        let mut k: usize = 0;
        while k < self.messages.len() && self.messages[k].index <= next
            invariant
                k <= msnap.len(),
                self.messages@ == msnap,
                forall|t: int| 0 <= t < k ==> p[t].index <= next,
            decreases msnap.len() - k,
        {
            k += 1;
        }
        proof {
            assert forall|t: int| k <= t < p.len() implies p[t].index > next by {
                if (k as int) < p.len() {
                    assert(p[k as int].index > next);
                    assert(p[k as int].index <= p[t].index);
                }
            }
            let kk = releasable(p, next as int).len() as int;
            assert(kk == k) by {
                if kk < k {
                    assert(retained(p, next as int)[0] == p.skip(kk)[0]);
                    assert(p.skip(kk)[0] == p[kk]);
                } else if kk > k {
                    assert(releasable(p, next as int)[k as int] == p.take(kk)[k as int]);
                    assert(p.take(kk)[k as int] == p[k as int]);
                }
            }
            assert(k >= 1) by {
                assert(p[0].index <= w);
            }
            assert(msnap.skip(0) =~= msnap);
            assert(concat_data(models(msnap).take(0)) =~= Seq::<u8>::empty());
        }
        let mut out: Vec<u8> = Vec::new();
        let mut j: usize = 0;
        while j < k
            invariant
                j <= k,
                self.messages@ == msnap.skip(j as int),
                out@ == concat_data(p.take(j as int)),
            decreases k - j,
        {
            let m = self.messages.remove(0);
            proof {
                assert(msnap.skip(j as int)[0] == msnap[j as int]);
                assert(msnap.skip(j as int).remove(0) =~= msnap.skip(j as int + 1));
                lemma_concat_data_take_step(p, j as int);
                assert(m@ == p[j as int]);
            }
            let ghost out_before = out@;
            let mut b: usize = 0;
            while b < m.data.len()
                invariant
                    b <= m.data@.len(),
                    out@ == out_before + m.data@.take(b as int),
                decreases m.data@.len() - b,
            {
                let byte: u8 = m.data[b];
                out.push(byte);
                proof {
                    assert(out_before + m.data@.take(b as int + 1) =~= (out_before
                        + m.data@.take(b as int)).push(m.data@[b as int]));
                }
                b += 1;
            }
            proof {
                assert(m.data@.take(m.data@.len() as int) =~= m.data@);
                assert(out@ == concat_data(p.take(j as int + 1)));
            }
            j += 1;
        }
        let k64: u64 = k as u64;
        self.next_index = next + k64 - 1;
        proof {
            assert(models(msnap.skip(k as int)) =~= models(msnap).skip(k as int));
            let ret = p.skip(k as int);
            assert forall|a: int, c: int| 0 <= a <= c < ret.len() implies ret[a].index
                <= ret[c].index by {
                assert(ret[a] == p[k + a]);
                assert(ret[c] == p[k + c]);
            }
        }
        Some(out)
    }

    /// Restores ascending order by `index`, keeping exactly the same
    /// messages. Each message is moved backwards over every neighbour whose
    /// index is at least its own, so a message that ties on `index` with ones
    /// already present ends up before them.
    #[verifier::loop_isolation(false)]
    fn insertion_sort(values: &mut Vec<Message>)
        ensures
            sorted_by_index(models(final(values)@)),
            models(final(values)@).to_multiset() == models(old(values)@).to_multiset(),
            final(values)@.len() == old(values)@.len(),
    {
        let ghost orig = models(old(values)@);
        let mut i: usize = 0;
        while i < values.len()
            invariant
                i <= values@.len(),
                values@.len() == old(values)@.len(),
                models(values@).to_multiset() == orig.to_multiset(),
                sorted_by_index(models(values@).take(i as int)),
            decreases values@.len() - i,
        {
            let key: u64 = values[i].index;
            let mut j: usize = i;
            while j > 0 && values[j - 1].index >= key
                invariant
                    j <= i,
                    forall|t: int| j <= t < i ==> models(values@)[t].index >= key,
                decreases j,
            {
                j -= 1;
            }
            let ghost es = values@;
            let ghost morig = models(es);
            proof {
                assert(j == 0 || morig[j - 1].index < key);
            }
            let m = values.remove(i);
            values.insert(j, m);
            proof {
                let v2 = models(values@);
                assert(values@.len() == es.len());
                assert forall|t: int| 0 <= t < j implies values@[t] == es[t] by {}
                assert(values@[j as int] == es[i as int]);
                assert forall|t: int| j < t <= i implies values@[t] == es[t - 1] by {}
                assert forall|t: int| i < t < es.len() implies values@[t] == es[t] by {}
                assert(v2 =~= morig.remove(i as int).insert(j as int, morig[i as int]));
                broadcast use vstd::seq_lib::group_to_multiset_ensures;
                broadcast use vstd::multiset::group_multiset_axioms;

                vstd::seq_lib::to_multiset_insert(
                    morig.remove(i as int),
                    j as int,
                    morig[i as int],
                );
                assert(morig.contains(morig[i as int]));
                assert(v2.to_multiset() =~= morig.to_multiset());
                assert(morig[i as int].index == key);
                assert forall|a: int, b: int| 0 <= a <= b <= i implies v2[a].index
                    <= v2[b].index by {
                    assert(sorted_by_index(morig.take(i as int)));
                    if b < j {
                        assert(morig.take(i as int)[a] == morig[a]);
                        assert(morig.take(i as int)[b] == morig[b]);
                    } else if b == j {
                        if a < j {
                            assert(morig.take(i as int)[a] == morig[a]);
                            assert(morig.take(i as int)[j - 1] == morig[j - 1]);
                        }
                    } else {
                        assert(v2[b] == morig[b - 1]);
                        assert(morig[b - 1].index >= key);
                        if a < j {
                            assert(morig.take(i as int)[a] == morig[a]);
                            if a <= b - 2 {
                                assert(morig.take(i as int)[b - 1] == morig[b - 1]);
                            }
                        } else if a > j {
                            assert(v2[a] == morig[a - 1]);
                            assert(morig.take(i as int)[a - 1] == morig[a - 1]);
                            assert(morig.take(i as int)[b - 1] == morig[b - 1]);
                        }
                    }
                }
                assert(sorted_by_index(v2.take(i + 1)));
            }
            i += 1;
        }
        proof {
            assert(models(values@).take(values@.len() as int) =~= models(values@));
        }
    }
}

} // verus!
