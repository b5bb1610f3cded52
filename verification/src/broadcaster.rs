//! The bookkeeping core of the broadcast (fan-out) utility.  Consumers
//! tune in over time and are dropped once a delivery to them fails; the
//! channels that carry the messages live outside this crate and report
//! back which deliveries succeeded.

use vstd::prelude::*;

verus! {

/// The subscribers kept after a delivery round: those whose flag is true,
/// in their original order.
pub open spec fn kept(subs: Seq<u64>, flags: Seq<bool>) -> Seq<u64>
    decreases subs.len(),
{
    if subs.len() == 0 || flags.len() == 0 {
        Seq::empty()
    } else if flags[0] {
        seq![subs[0]] + kept(subs.skip(1), flags.skip(1))
    } else {
        kept(subs.skip(1), flags.skip(1))
    }
}

/// No identifier appears twice.
pub open spec fn distinct(s: Seq<u64>) -> bool {
    forall|i: int, j: int| 0 <= i < j < s.len() ==> s[i] != s[j]
}

/// Every subscriber kept was subscribed before.
pub proof fn lemma_kept_membership(subs: Seq<u64>, flags: Seq<bool>)
    ensures
        forall|x: u64| kept(subs, flags).contains(x) ==> subs.contains(x),
    decreases subs.len(),
{
    if subs.len() > 0 && flags.len() > 0 {
        lemma_kept_membership(subs.skip(1), flags.skip(1));
        assert forall|x: u64| kept(subs, flags).contains(x) implies subs.contains(x) by {
            if x == subs[0] {
                assert(subs.contains(x)) by {
                    assert(subs[0] == x);
                }
            } else {
                assert(kept(subs.skip(1), flags.skip(1)).contains(x));
                assert(subs.skip(1).contains(x));
                let k = choose|k: int|
                    0 <= k < subs.skip(1).len() && subs.skip(1)[k] == x;
                assert(subs[k + 1] == x);
            }
        }
    }
}

/// Pruning keeps the identifiers distinct.
pub proof fn lemma_kept_distinct(subs: Seq<u64>, flags: Seq<bool>)
    requires
        distinct(subs),
    ensures
        distinct(kept(subs, flags)),
        forall|x: u64| kept(subs, flags).contains(x) ==> subs.contains(x),
    decreases subs.len(),
{
    lemma_kept_membership(subs, flags);
    if subs.len() > 0 && flags.len() > 0 {
        assert(distinct(subs.skip(1))) by {
            assert(forall|i: int, j: int|
                0 <= i < j < subs.skip(1).len() ==> subs.skip(1)[i] == subs[i + 1]
                    && subs.skip(1)[j] == subs[j + 1]);
        }
        lemma_kept_distinct(subs.skip(1), flags.skip(1));
        if flags[0] {
            let w = kept(subs, flags);
            let rest = kept(subs.skip(1), flags.skip(1));
            assert forall|i: int, j: int| 0 <= i < j < w.len() implies w[i] != w[j] by {
                if i == 0 {
                    if w[0] == w[j] {
                        assert(rest[j - 1] == w[j]);
                        assert(rest.contains(w[j]));
                        assert(subs.skip(1).contains(w[0]));
                        let k = choose|k: int|
                            0 <= k < subs.skip(1).len() && subs.skip(1)[k] == w[0];
                        assert(subs[k + 1] == subs[0]);
                    }
                } else {
                    assert(rest[i - 1] == w[i] && rest[j - 1] == w[j]);
                }
            }
        }
    }
}

/// Keeping one more subscriber appends it exactly when its flag is true.
pub proof fn lemma_kept_snoc(subs: Seq<u64>, flags: Seq<bool>, i: int)
    requires
        0 <= i < subs.len(),
        subs.len() == flags.len(),
    ensures
        kept(subs.take(i + 1), flags.take(i + 1)) == kept(subs.take(i), flags.take(i)) + (
        if flags[i] {
            seq![subs[i]]
        } else {
            Seq::<u64>::empty()
        }),
    decreases i,
{
    if i == 0 {
        assert(subs.take(1) =~= seq![subs[0]]);
        assert(flags.take(1) =~= seq![flags[0]]);
        assert(subs.take(1).skip(1) =~= Seq::<u64>::empty());
        assert(flags.take(1).skip(1) =~= Seq::<bool>::empty());
        assert(subs.take(0) =~= Seq::<u64>::empty());
        assert(flags.take(0) =~= Seq::<bool>::empty());
        if flags[0] {
            assert(kept(subs.take(1), flags.take(1)) =~= kept(subs.take(0), flags.take(0))
                + seq![subs[0]]);
        }
    } else {
        lemma_kept_snoc(subs.skip(1), flags.skip(1), i - 1);
        assert(subs.take(i + 1).skip(1) =~= subs.skip(1).take(i));
        assert(flags.take(i + 1).skip(1) =~= flags.skip(1).take(i));
        assert(subs.take(i).skip(1) =~= subs.skip(1).take(i - 1));
        assert(flags.take(i).skip(1) =~= flags.skip(1).take(i - 1));
        assert(subs.skip(1)[i - 1] == subs[i] && flags.skip(1)[i - 1] == flags[i]);
        assert(subs.take(i + 1)[0] == subs[0] && flags.take(i + 1)[0] == flags[0]);
        assert(subs.take(i)[0] == subs[0] && flags.take(i)[0] == flags[0]);
        if flags[0] {
            assert(kept(subs.take(i + 1), flags.take(i + 1)) =~= kept(
                subs.take(i),
                flags.take(i),
            ) + (if flags[i] {
                seq![subs[i]]
            } else {
                Seq::<u64>::empty()
            }));
        }
    }
}

/// Control state of a broadcaster: which consumers are tuned in, in
/// subscription order, each under a fresh identifier.
pub struct BcCtrl {
    next_id: u64,
    subscribers: Vec<u64>,
}

impl BcCtrl {
    /// Identifiers are distinct and below the next one to be handed out.
    pub closed spec fn wf(&self) -> bool {
        &&& distinct(self.subscribers@)
        &&& forall|i: int|
            0 <= i < self.subscribers@.len() ==> self.subscribers@[i] < self.next_id
    }

    /// The tuned-in consumers, in subscription order.
    pub closed spec fn subs(&self) -> Seq<u64> {
        self.subscribers@
    }

    /// Whether a fresh identifier is still available.
    pub closed spec fn has_capacity(&self) -> bool {
        self.next_id < u64::MAX
    }

    /// Register a new consumer; the fresh identifier is returned and
    /// appended to the subscriber list.
    pub fn tune_in(&mut self) -> (id: u64)
        requires
            old(self).wf(),
            old(self).has_capacity(),
        ensures
            final(self).wf(),
            final(self).subs() == old(self).subs().push(id),
            forall|i: int| 0 <= i < old(self).subs().len() ==> old(self).subs()[i] != id,
    {
        let id = self.next_id;
        self.next_id = self.next_id + 1;
        self.subscribers.push(id);
        id
    }

    /// How many consumers are tuned in.
    pub fn len(&self) -> (n: usize)
        ensures
            n == self.subs().len(),
    {
        self.subscribers.len()
    }

    /// The identifier of the consumer at a position.
    pub fn subscriber_at(&self, i: usize) -> (id: u64)
        requires
            i < self.subs().len(),
        ensures
            id == self.subs()[i as int],
    {
        self.subscribers[i]
    }

    /// After a delivery round, keep exactly the consumers whose delivery
    /// succeeded: `delivered[i]` answers for the `i`-th subscriber.
    pub fn prune(&mut self, delivered: &Vec<bool>)
        requires
            old(self).wf(),
            delivered@.len() == old(self).subs().len(),
        ensures
            final(self).wf(),
            final(self).subs() == kept(old(self).subs(), delivered@),
    {
        let ghost osubs = self.subscribers@;
        let mut keep: Vec<u64> = Vec::new();
        let mut i: usize = 0;
        proof {
            assert(osubs.take(0) =~= Seq::<u64>::empty());
            assert(delivered@.take(0) =~= Seq::<bool>::empty());
        }
        while i < self.subscribers.len()
            invariant
                i <= osubs.len(),
                self.subscribers@ == osubs,
                delivered@.len() == osubs.len(),
                keep@ == kept(osubs.take(i as int), delivered@.take(i as int)),
            decreases osubs.len() - i,
        {
            proof {
                lemma_kept_snoc(osubs, delivered@, i as int);
            }
            if delivered[i] {
                keep.push(self.subscribers[i]);
                proof {
                    assert(keep@ =~= kept(osubs.take(i as int), delivered@.take(i as int))
                        + seq![osubs[i as int]]);
                }
            }
            i += 1;
        }
        proof {
            assert(osubs.take(osubs.len() as int) =~= osubs);
            assert(delivered@.take(delivered@.len() as int) =~= delivered@);
            lemma_kept_distinct(osubs, delivered@);
        }
        self.subscribers = keep;
        proof {
            assert forall|k: int|
                0 <= k < self.subscribers@.len() implies self.subscribers@[k]
                < self.next_id by {
                let x = self.subscribers@[k];
                assert(kept(osubs, delivered@).contains(x)) by {
                    assert(kept(osubs, delivered@)[k] == x);
                }
                assert(osubs.contains(x));
                let m = choose|m: int| 0 <= m < osubs.len() && osubs[m] == x;
                assert(old(self).subscribers@[m] < old(self).next_id);
            }
        }
    }
}

/// A fresh broadcaster control structure with no consumers tuned in.
pub fn broadcaster() -> (r: BcCtrl)
    ensures
        r.wf(),
        r.subs() == Seq::<u64>::empty(),
        r.has_capacity(),
{
    let r = BcCtrl { next_id: 0, subscribers: Vec::new() };
    proof {
        assert(r.subs() =~= Seq::<u64>::empty());
    }
    r
}

} // verus!
