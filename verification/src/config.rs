//! The bridge configuration: the validator set and threshold the verifier
//! checks against, the admin identity, and the flat bridge fee.
//!
//! The validator set is an ordered list of distinct 20-byte identities,
//! capped at twelve. The threshold is always at least one; removing
//! validators silently clamps it down to the remaining count, and removing
//! every validator is refused. A failed admin operation leaves the
//! configuration untouched.

use vstd::prelude::*;

use crate::errors::ErrorCode;
use crate::multisig::{contains_id, ids_view};

verus! {

/// Hard cap on the number of validator identities.
pub const MAX_VALIDATORS: usize = 12;

/// The bridge's persistent configuration record.
pub struct ConfigInfo {
    pub admin: [u8; 32],
    pub signers: Vec<[u8; 20]>,
    pub threshold: u8,
    pub bridge_fee: u64,
    pub bump: u8,
}

/// `cur` extended with each identity of `new` in order, skipping the ones
/// already present.
pub open spec fn add_distinct(cur: Seq<[u8; 20]>, new: Seq<[u8; 20]>) -> Seq<[u8; 20]>
    decreases new.len(),
{
    if new.len() == 0 {
        cur
    } else {
        let cur2 = if ids_view(cur).contains(new[0]@) {
            cur
        } else {
            cur.push(new[0])
        };
        add_distinct(cur2, new.drop_first())
    }
}

/// `cur` with every identity that occurs in `rem` filtered out, in order.
pub open spec fn keep_signers(cur: Seq<[u8; 20]>, rem: Seq<Seq<u8>>) -> Seq<[u8; 20]>
    decreases cur.len(),
{
    if cur.len() == 0 {
        Seq::empty()
    } else {
        let rest = keep_signers(cur.drop_last(), rem);
        if rem.contains(cur.last()@) {
            rest
        } else {
            rest.push(cur.last())
        }
    }
}

/// Adding distinct identities keeps the list duplicate-free and extends its
/// contents by exactly the new identities.
pub proof fn lemma_add_distinct(cur: Seq<[u8; 20]>, new: Seq<[u8; 20]>)
    requires
        ids_view(cur).no_duplicates(),
    ensures
        ids_view(add_distinct(cur, new)).no_duplicates(),
        add_distinct(cur, new).len() >= cur.len(),
        forall|x: Seq<u8>|
            #[trigger] ids_view(add_distinct(cur, new)).contains(x) <==> (ids_view(cur).contains(x)
                || ids_view(new).contains(x)),
    decreases new.len(),
{
    if new.len() == 0 {
        assert forall|x: Seq<u8>| #[trigger] ids_view(new).contains(x) implies false by {
            let i = choose|i: int| 0 <= i < ids_view(new).len() && ids_view(new)[i] == x;
        }
    } else {
        let cur2 = if ids_view(cur).contains(new[0]@) {
            cur
        } else {
            cur.push(new[0])
        };
        assert(ids_view(cur2).no_duplicates() && forall|x: Seq<u8>|
            #[trigger] ids_view(cur2).contains(x) <==> (ids_view(cur).contains(x) || x
                == new[0]@)) by {
            if ids_view(cur).contains(new[0]@) {
            } else {
                assert(ids_view(cur2) =~= ids_view(cur).push(new[0]@));
                assert forall|x: Seq<u8>| #[trigger]
                    ids_view(cur2).contains(x) implies (ids_view(cur).contains(x) || x
                    == new[0]@) by {
                    let i = choose|i: int|
                        0 <= i < ids_view(cur2).len() && ids_view(cur2)[i] == x;
                    if i < ids_view(cur).len() {
                        assert(ids_view(cur)[i] == x);
                    }
                }
                assert forall|x: Seq<u8>|
                    ids_view(cur).contains(x) || x == new[0]@ implies #[trigger] ids_view(
                    cur2,
                ).contains(x) by {
                    if ids_view(cur).contains(x) {
                        let i = choose|i: int|
                            0 <= i < ids_view(cur).len() && ids_view(cur)[i] == x;
                        assert(ids_view(cur2)[i] == x);
                    } else {
                        assert(ids_view(cur2)[ids_view(cur).len() as int] == x);
                    }
                }
            }
        }
        lemma_add_distinct(cur2, new.drop_first());
        let rest = new.drop_first();
        assert forall|x: Seq<u8>|
            #[trigger] ids_view(new).contains(x) <==> (x == new[0]@ || ids_view(rest).contains(
            x,
        )) by {
            if ids_view(new).contains(x) {
                let i = choose|i: int| 0 <= i < ids_view(new).len() && ids_view(new)[i] == x;
                if i > 0 {
                    assert(ids_view(rest)[i - 1] == x);
                }
            }
            if ids_view(rest).contains(x) {
                let i = choose|i: int| 0 <= i < ids_view(rest).len() && ids_view(rest)[i] == x;
                assert(ids_view(new)[i + 1] == x);
            }
            if x == new[0]@ {
                assert(ids_view(new)[0] == x);
            }
        }
    }
}

/// Filtering identities out keeps the list duplicate-free, never grows it,
/// and removes exactly the named identities.
pub proof fn lemma_keep_signers(cur: Seq<[u8; 20]>, rem: Seq<Seq<u8>>)
    requires
        ids_view(cur).no_duplicates(),
    ensures
        ids_view(keep_signers(cur, rem)).no_duplicates(),
        keep_signers(cur, rem).len() <= cur.len(),
        forall|x: Seq<u8>|
            #[trigger] ids_view(keep_signers(cur, rem)).contains(x) <==> (ids_view(cur).contains(x)
                && !rem.contains(x)),
    decreases cur.len(),
{
    let kept = keep_signers(cur, rem);
    if cur.len() == 0 {
        assert forall|x: Seq<u8>| #[trigger] ids_view(kept).contains(x) implies false by {
            let i = choose|i: int| 0 <= i < ids_view(kept).len() && ids_view(kept)[i] == x;
        }
        assert forall|x: Seq<u8>| #[trigger] ids_view(cur).contains(x) implies false by {
            let i = choose|i: int| 0 <= i < ids_view(cur).len() && ids_view(cur)[i] == x;
        }
    } else {
        let front = cur.drop_last();
        assert(ids_view(front) =~= ids_view(cur).drop_last());
        lemma_keep_signers(front, rem);
        let rest = keep_signers(front, rem);
        assert forall|x: Seq<u8>|
            #[trigger] ids_view(cur).contains(x) <==> (ids_view(front).contains(x) || x
                == cur.last()@) by {
            if ids_view(cur).contains(x) {
                let i = choose|i: int| 0 <= i < ids_view(cur).len() && ids_view(cur)[i] == x;
                if i < ids_view(front).len() {
                    assert(ids_view(front)[i] == x);
                }
            }
            if ids_view(front).contains(x) {
                let i = choose|i: int| 0 <= i < ids_view(front).len() && ids_view(front)[i] == x;
                assert(ids_view(cur)[i] == x);
            }
            if x == cur.last()@ {
                assert(ids_view(cur)[cur.len() - 1] == x);
            }
        }
        if rem.contains(cur.last()@) {
        } else {
            assert(ids_view(kept) =~= ids_view(rest).push(cur.last()@));
            assert(!ids_view(rest).contains(cur.last()@)) by {
                assert(!ids_view(front).contains(cur.last()@)) by {
                    if ids_view(front).contains(cur.last()@) {
                        let i = choose|i: int|
                            0 <= i < ids_view(front).len() && ids_view(front)[i] == cur.last()@;
                        assert(ids_view(cur)[i] == ids_view(cur)[cur.len() - 1]);
                    }
                }
            }
            assert forall|x: Seq<u8>| #[trigger]
                ids_view(kept).contains(x) implies (ids_view(cur).contains(x) && !rem.contains(
                x,
            )) by {
                let i = choose|i: int| 0 <= i < ids_view(kept).len() && ids_view(kept)[i] == x;
                if i < ids_view(rest).len() {
                    assert(ids_view(rest)[i] == x);
                    assert(ids_view(rest).contains(x));
                    assert(ids_view(front).contains(x) && !rem.contains(x));
                } else {
                    assert(x == cur.last()@);
                }
            }
            assert forall|x: Seq<u8>|
                ids_view(cur).contains(x) && !rem.contains(x) implies #[trigger] ids_view(
                kept,
            ).contains(x) by {
                if ids_view(rest).contains(x) {
                    let i = choose|i: int| 0 <= i < ids_view(rest).len() && ids_view(rest)[i] == x;
                    assert(ids_view(kept)[i] == x);
                } else {
                    assert(x == cur.last()@);
                    assert(ids_view(kept)[ids_view(rest).len() as int] == x);
                }
            }
        }
    }
}

impl ConfigInfo {
    /// Well-formedness: distinct validators, at most twelve of them, and a
    /// positive threshold.
    pub open spec fn wf(self) -> bool {
        &&& ids_view(self.signers@).no_duplicates()
        &&& self.signers@.len() <= MAX_VALIDATORS
        &&& self.threshold >= 1
    }

    /// A fresh configuration: the given admin, no validators yet, and a
    /// threshold of one.
    pub fn initialize(admin: [u8; 32], bump: u8) -> (c: Self)
        ensures
            c.wf(),
            c.admin == admin,
            c.signers@.len() == 0,
            c.threshold == 1,
            c.bridge_fee == 0,
            c.bump == bump,
    {
        let c = ConfigInfo { admin, signers: Vec::new(), threshold: 1, bridge_fee: 0, bump };
        proof {
            assert(ids_view(c.signers@) =~= Seq::<Seq<u8>>::empty());
        }
        c
    }

    /// Hands the bridge to a new admin.
    pub fn change_admin(&mut self, new_admin: [u8; 32])
        ensures
            final(self).admin == new_admin,
            final(self).signers == old(self).signers,
            final(self).threshold == old(self).threshold,
            final(self).bridge_fee == old(self).bridge_fee,
            final(self).bump == old(self).bump,
    {
        self.admin = new_admin;
    }

    /// Sets the flat fee charged per outbound message.
    pub fn set_bridge_fee(&mut self, bridge_fee: u64)
        ensures
            final(self).bridge_fee == bridge_fee,
            final(self).admin == old(self).admin,
            final(self).signers == old(self).signers,
            final(self).threshold == old(self).threshold,
            final(self).bump == old(self).bump,
    {
        self.bridge_fee = bridge_fee;
    }

    /// Adds validator identities, skipping the ones already present. Fails,
    /// changing nothing, if the resulting set would exceed twelve.
    pub fn add_signers(&mut self, new_signers: &Vec<[u8; 20]>) -> (r: Result<(), ErrorCode>)
        requires
            old(self).wf(),
        ensures
            final(self).wf(),
            final(self).admin == old(self).admin,
            final(self).threshold == old(self).threshold,
            final(self).bridge_fee == old(self).bridge_fee,
            final(self).bump == old(self).bump,
            add_distinct(old(self).signers@, new_signers@).len() <= MAX_VALIDATORS ==> r == Ok::<
                (),
                ErrorCode,
            >(()) && final(self).signers@ == add_distinct(old(self).signers@, new_signers@),
            add_distinct(old(self).signers@, new_signers@).len() > MAX_VALIDATORS ==> r == Err::<
                (),
                ErrorCode,
            >(ErrorCode::ValidatorOver12) && final(self).signers@ == old(self).signers@,
    {
        let ghost orig = self.signers@;
        let mut merged: Vec<[u8; 20]> = Vec::new();
        let mut i: usize = 0;
        while i < self.signers.len()
            invariant
                i <= self.signers@.len(),
                self == old(self),
                merged@ == self.signers@.take(i as int),
            decreases self.signers@.len() - i,
        {
            merged.push(self.signers[i]);
            i = i + 1;
            proof {
                assert(merged@ =~= self.signers@.take(i as int));
            }
        }
        proof {
            assert(merged@ =~= orig);
            assert(new_signers@.skip(0) =~= new_signers@);
        }
        let mut k: usize = 0;
        while k < new_signers.len()
            invariant
                k <= new_signers@.len(),
                self == old(self),
                orig == self.signers@,
                ids_view(orig).no_duplicates(),
                add_distinct(orig, new_signers@) == add_distinct(merged@, new_signers@.skip(
                    k as int,
                )),
                ids_view(merged@).no_duplicates(),
                merged@.len() >= orig.len(),
            decreases new_signers@.len() - k,
        {
            let ghost pre = merged@;
            let ghost remaining = new_signers@.skip(k as int);
            proof {
                assert(remaining[0] == new_signers@[k as int]);
                assert(remaining.drop_first() =~= new_signers@.skip(k as int + 1));
            }
            if !contains_id(&merged, &new_signers[k]) {
                merged.push(new_signers[k]);
                proof {
                    assert(ids_view(merged@) =~= ids_view(pre).push(new_signers@[k as int]@));
                }
            }
            k = k + 1;
        }
        proof {
            assert(new_signers@.skip(k as int) =~= Seq::<[u8; 20]>::empty());
            assert(add_distinct(merged@, new_signers@.skip(k as int)) == merged@);
            lemma_add_distinct(orig, new_signers@);
        }
        if merged.len() <= MAX_VALIDATORS {
            self.signers = merged;
            Ok(())
        } else {
            Err(ErrorCode::ValidatorOver12)
        }
    }

    /// Removes the named validator identities. Fails, changing nothing, if
    /// no validator would remain; otherwise clamps the threshold down to the
    /// remaining count if it would exceed it.
    pub fn remove_signers(&mut self, signers_to_remove: &Vec<[u8; 20]>) -> (r: Result<
        (),
        ErrorCode,
    >)
        requires
            old(self).wf(),
        ensures
            final(self).wf(),
            final(self).admin == old(self).admin,
            final(self).bridge_fee == old(self).bridge_fee,
            final(self).bump == old(self).bump,
            ({
                let kept = keep_signers(old(self).signers@, ids_view(signers_to_remove@));
                &&& kept.len() == 0 ==> r == Err::<(), ErrorCode>(ErrorCode::InvalidThreshold)
                    && final(self).signers@ == old(self).signers@ && final(self).threshold == old(self).threshold
                &&& kept.len() > 0 ==> r == Ok::<(), ErrorCode>(()) && final(self).signers@ == kept
                    && final(self).threshold == (if old(self).threshold as int <= kept.len() {
                    old(self).threshold
                } else {
                    kept.len() as u8
                })
            }),
    {
        let ghost orig = self.signers@;
        let ghost remv = ids_view(signers_to_remove@);
        let mut kept: Vec<[u8; 20]> = Vec::new();
        let mut i: usize = 0;
        while i < self.signers.len()
            invariant
                i <= self.signers@.len(),
                self == old(self),
                orig == self.signers@,
                remv == ids_view(signers_to_remove@),
                kept@ == keep_signers(orig.take(i as int), remv),
            decreases self.signers@.len() - i,
        {
            let ghost pre = orig.take(i as int);
            proof {
                assert(orig.take(i as int + 1).drop_last() =~= pre);
                assert(orig.take(i as int + 1).last() == orig[i as int]);
            }
            if !contains_id(signers_to_remove, &self.signers[i]) {
                kept.push(self.signers[i]);
            }
            i = i + 1;
        }
        proof {
            assert(orig.take(i as int) =~= orig);
            lemma_keep_signers(orig, remv);
        }
        if kept.len() == 0 {
            return Err(ErrorCode::InvalidThreshold);
        }
        let kept_len = kept.len();
        self.signers = kept;
        if self.threshold as usize > kept_len {
            self.threshold = kept_len as u8;
        }
        Ok(())
    }

    /// Sets the signature threshold. Fails, changing nothing, on zero or on
    /// anything above the current validator count.
    pub fn set_threshold(&mut self, new_threshold: u8) -> (r: Result<(), ErrorCode>)
        requires
            old(self).wf(),
        ensures
            final(self).wf(),
            final(self).admin == old(self).admin,
            final(self).signers == old(self).signers,
            final(self).bridge_fee == old(self).bridge_fee,
            final(self).bump == old(self).bump,
            new_threshold == 0 || new_threshold as int > old(self).signers@.len() ==> r == Err::<
                (),
                ErrorCode,
            >(ErrorCode::InvalidThreshold) && final(self).threshold == old(self).threshold,
            1 <= new_threshold <= old(self).signers@.len() ==> r == Ok::<(), ErrorCode>(())
                && final(self).threshold == new_threshold,
    {
        if new_threshold == 0 || new_threshold as usize > self.signers.len() {
            return Err(ErrorCode::InvalidThreshold);
        }
        self.threshold = new_threshold;
        Ok(())
    }
}

/// Withdrawal bookkeeping for the fee-holding account: pays out `amount`
/// when the balance covers it, and refuses otherwise.
pub fn withdraw_fee(balance: u64, amount: u64) -> (r: Result<u64, ErrorCode>)
    ensures
        amount <= balance ==> r == Ok::<u64, ErrorCode>((balance - amount) as u64),
        amount > balance ==> r == Err::<u64, ErrorCode>(ErrorCode::InsufficientFee),
{
    if balance >= amount {
        Ok(balance - amount)
    } else {
        Err(ErrorCode::InsufficientFee)
    }
}

} // verus!
