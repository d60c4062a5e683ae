//! Outbound nonce issuance and the inbound replay guard.
//!
//! Outbound: one counter per destination chain, issuing strictly increasing
//! nonces with no gaps and no reuse.
//!
//! Inbound: one record per (source chain, receiver) pair. The guard keeps a
//! bounded, sorted window of the most recently accepted nonces. A nonce is
//! admitted exactly once: duplicates inside the window are rejected as
//! consumed, a repeat of the most recently stored nonce is rejected as
//! consumed even after that nonce left the window, and anything below the
//! window's floor is rejected as invalid because it cannot be told apart
//! from an already-evicted nonce. A rejection never mutates the record, so a
//! failed confirmation can be retried safely.

use vstd::prelude::*;

use vstd::bytes::{
    spec_u64_from_le_bytes, spec_u64_to_le_bytes, u64_from_le_bytes, u64_to_le_bytes,
    lemma_auto_spec_u64_to_from_le_bytes,
};

use crate::bytes::push_bytes;
use crate::chain::Chain;
use crate::errors::ErrorCode;

verus! {

/// Capacity of the replay window: how many accepted nonces are remembered
/// per (source chain, receiver) key.
pub const WINDOW_CAP: usize = 50;

/// Per-destination issuer of outbound nonces.
pub struct ToChainNonce {
    pub chain: Chain,
    pub max_nonce: u64,
}

impl ToChainNonce {
    /// A counter that has never issued a nonce.
    pub fn new() -> (c: Self)
        ensures
            c.max_nonce == 0,
    {
        ToChainNonce { chain: Chain { chain_type: 0, chain_id: 0 }, max_nonce: 0 }
    }

    /// Issues the next outbound nonce for `destination`: the first call on a
    /// fresh counter stamps the destination and returns 1, and every call
    /// increments the counter by exactly 1 — no gaps, no reuse.
    pub fn next(&mut self, destination: &Chain) -> (nonce: u64)
        requires
            old(self).max_nonce < u64::MAX,
        ensures
            final(self).max_nonce == old(self).max_nonce + 1,
            nonce == final(self).max_nonce,
            final(self).chain == if old(self).max_nonce == 0 {
                *destination
            } else {
                old(self).chain
            },
    {
        if self.max_nonce == 0 {
            self.chain = *destination;
        }
        self.max_nonce = self.max_nonce + 1;
        self.max_nonce
    }
}

/// A window is kept strictly increasing: sorted, with no duplicates.
pub open spec fn window_sorted(w: Seq<u64>) -> bool {
    forall|i: int, j: int| 0 <= i < j < w.len() ==> w[i] < w[j]
}

/// The window admits `nonce` when the window is empty, or when the nonce is
/// not already present and is not below the window's floor (its smallest,
/// oldest-remembered entry).
pub open spec fn window_accepts(w: Seq<u64>, nonce: u64) -> bool {
    w.len() == 0 || (!w.contains(nonce) && nonce >= w[0])
}

/// `w` with `nonce` inserted at its sorted position.
pub open spec fn insert_sorted(w: Seq<u64>, nonce: u64) -> Seq<u64>
    decreases w.len(),
{
    if w.len() == 0 {
        seq![nonce]
    } else if nonce < w[0] {
        seq![nonce] + w
    } else {
        seq![w[0]] + insert_sorted(w.drop_first(), nonce)
    }
}

/// The window after admitting `nonce`: if the window is full its smallest
/// entry is evicted to make room, then the nonce is inserted in order.
pub open spec fn window_step(w: Seq<u64>, nonce: u64) -> Seq<u64> {
    if w.len() >= WINDOW_CAP {
        insert_sorted(w.drop_first(), nonce)
    } else {
        insert_sorted(w, nonce)
    }
}

/// Inserting a fresh nonce into a sorted window keeps it sorted, grows it by
/// one, and adds exactly that nonce to its contents.
pub proof fn lemma_insert_sorted(w: Seq<u64>, nonce: u64)
    requires
        window_sorted(w),
        !w.contains(nonce),
    ensures
        insert_sorted(w, nonce).len() == w.len() + 1,
        window_sorted(insert_sorted(w, nonce)),
        forall|x: u64|
            #[trigger] insert_sorted(w, nonce).contains(x) <==> (w.contains(x) || x == nonce),
    decreases w.len(),
{
    let ins = insert_sorted(w, nonce);
    if w.len() == 0 {
        assert forall|x: u64| ins.contains(x) <==> (w.contains(x) || x == nonce) by {
            if x == nonce {
                assert(ins[0] == x);
            }
            if ins.contains(x) {
                let i = choose|i: int| 0 <= i < ins.len() && ins[i] == x;
                assert(i == 0);
            }
        }
    } else if nonce < w[0] {
        assert forall|x: u64| ins.contains(x) <==> (w.contains(x) || x == nonce) by {
            if x == nonce {
                assert(ins[0] == x);
            }
            if w.contains(x) {
                let i = choose|i: int| 0 <= i < w.len() && w[i] == x;
                assert(ins[i + 1] == x);
            }
            if ins.contains(x) {
                let i = choose|i: int| 0 <= i < ins.len() && ins[i] == x;
                if i > 0 {
                    assert(w[i - 1] == x);
                }
            }
        }
        assert(window_sorted(ins)) by {
            assert(forall|j: int| 0 < j < ins.len() ==> ins[j] == w[j - 1]);
        }
    } else {
        let rest = w.drop_first();
        assert(nonce != w[0]) by {
            assert(w[0] == w[0]);
        }
        assert(window_sorted(rest)) by {
            assert(forall|i: int| 0 <= i < rest.len() ==> rest[i] == w[i + 1]);
        }
        assert(!rest.contains(nonce)) by {
            if rest.contains(nonce) {
                let i = choose|i: int| 0 <= i < rest.len() && rest[i] == nonce;
                assert(w[i + 1] == nonce);
            }
        }
        lemma_insert_sorted(rest, nonce);
        let tail = insert_sorted(rest, nonce);
        assert forall|x: u64| #[trigger] ins.contains(x) implies (w.contains(x) || x == nonce) by {
            let i = choose|i: int| 0 <= i < ins.len() && ins[i] == x;
            if i == 0 {
                assert(w[0] == x);
            } else {
                assert(tail[i - 1] == x);
                assert(tail.contains(x));
                assert(rest.contains(x) || x == nonce);
                if x != nonce {
                    let j = choose|j: int| 0 <= j < rest.len() && rest[j] == x;
                    assert(w[j + 1] == x);
                }
            }
        }
        assert forall|x: u64| w.contains(x) || x == nonce implies #[trigger] ins.contains(x) by {
            if x == w[0] {
                assert(ins[0] == x);
            } else {
                if w.contains(x) && x != w[0] {
                    let i = choose|i: int| 0 <= i < w.len() && w[i] == x;
                    assert(i > 0);
                    assert(rest[i - 1] == x);
                    assert(rest.contains(x));
                }
                assert(tail.contains(x));
                let j = choose|j: int| 0 <= j < tail.len() && tail[j] == x;
                assert(ins[j + 1] == x);
            }
        }
        assert(window_sorted(ins)) by {
            assert(forall|j: int| 0 < j < ins.len() ==> ins[j] == tail[j - 1]);
            assert forall|j: int| 0 < j < ins.len() implies ins[0] < #[trigger] ins[j] by {
                assert(tail.contains(tail[j - 1]));
                if tail[j - 1] == nonce {
                    assert(w[0] < nonce);
                } else {
                    assert(rest.contains(tail[j - 1]));
                    let k = choose|k: int| 0 <= k < rest.len() && rest[k] == tail[j - 1];
                    assert(w[k + 1] == tail[j - 1]);
                    assert(w[0] < w[k + 1]);
                }
            }
        }
    }
}

/// In a sorted window every entry is at least the floor.
pub proof fn lemma_sorted_floor(w: Seq<u64>, x: u64)
    requires
        window_sorted(w),
        w.contains(x),
    ensures
        w.len() > 0,
        w[0] <= x,
{
    let i = choose|i: int| 0 <= i < w.len() && w[i] == x;
    if i > 0 {
        assert(w[0] < w[i]);
    }
}

/// Inserting at the split point `p` (everything before it smaller,
/// everything from it on larger) is insertion at index `p`.
pub proof fn lemma_insert_sorted_position(w: Seq<u64>, nonce: u64, p: int)
    requires
        window_sorted(w),
        0 <= p <= w.len(),
        forall|j: int| 0 <= j < p ==> w[j] < nonce,
        forall|j: int| p <= j < w.len() ==> nonce < w[j],
    ensures
        insert_sorted(w, nonce) == w.insert(p, nonce),
    decreases w.len(),
{
    if w.len() == 0 {
        assert(insert_sorted(w, nonce) =~= w.insert(0, nonce));
    } else if nonce < w[0] {
        assert(p == 0);
        assert(insert_sorted(w, nonce) =~= w.insert(0, nonce));
    } else {
        assert(p >= 1) by {
            if p == 0 {
                assert(nonce < w[0]);
            }
        }
        let rest = w.drop_first();
        assert(window_sorted(rest)) by {
            assert(forall|i: int| 0 <= i < rest.len() ==> rest[i] == w[i + 1]);
        }
        lemma_insert_sorted_position(rest, nonce, p - 1);
        assert(seq![w[0]] + rest.insert(p - 1, nonce) =~= w.insert(p, nonce));
    }
}

/// The inbound replay state for one (source chain, receiver) key, as the
/// contracts see it.
pub struct ReplayModel {
    pub last_nonce: u64,
    pub window: Seq<u64>,
}

/// A well-formed replay state: a strictly increasing window of bounded size.
pub open spec fn replay_wf(m: ReplayModel) -> bool {
    window_sorted(m.window) && m.window.len() <= WINDOW_CAP
}

/// Whether `admit` accepts `nonce` in state `m`: the very first confirmation
/// is accepted unconditionally; afterwards the nonce must differ from the
/// most recently stored one (even if that one has since been evicted) and
/// the window itself must admit it.
pub open spec fn admit_accepts(m: ReplayModel, nonce: u64) -> bool {
    m.window.len() == 0 || (nonce != m.last_nonce && window_accepts(m.window, nonce))
}

/// Which rejection a refused nonce gets: a repeat (of the last stored nonce
/// or of anything in the window) is consumed; anything older than the window
/// floor is invalid.
pub open spec fn admit_error(m: ReplayModel, nonce: u64) -> ErrorCode
    recommends
        !admit_accepts(m, nonce),
{
    if nonce == m.last_nonce || m.window.contains(nonce) {
        ErrorCode::NonceConsumed
    } else {
        ErrorCode::NonceInvalid
    }
}

/// The state after an accepted nonce: the window steps (with eviction if
/// full) and the nonce becomes the most recently stored one.
pub open spec fn admit_step(m: ReplayModel, nonce: u64) -> ReplayModel {
    ReplayModel { last_nonce: nonce, window: window_step(m.window, nonce) }
}

/// An accepted admission preserves well-formedness; the window grows until
/// it is full and then stays at capacity; and afterwards the window holds
/// exactly the old entries (minus the evicted floor when full) plus the new
/// nonce.
pub proof fn lemma_admit_step(m: ReplayModel, nonce: u64)
    requires
        replay_wf(m),
        admit_accepts(m, nonce),
    ensures
        replay_wf(admit_step(m, nonce)),
        admit_step(m, nonce).last_nonce == nonce,
        admit_step(m, nonce).window.len() == if m.window.len() >= WINDOW_CAP {
            WINDOW_CAP as int
        } else {
            m.window.len() + 1int
        },
        forall|x: u64|
            admit_step(m, nonce).window.contains(x) <==> (x == nonce || (m.window.contains(x) && (
            m.window.len() < WINDOW_CAP || x != m.window[0]))),
{
    let w = m.window;
    if w.len() >= WINDOW_CAP {
        let rest = w.drop_first();
        assert(window_sorted(rest)) by {
            assert(forall|i: int| 0 <= i < rest.len() ==> rest[i] == w[i + 1]);
        }
        assert(!rest.contains(nonce)) by {
            if rest.contains(nonce) {
                let i = choose|i: int| 0 <= i < rest.len() && rest[i] == nonce;
                assert(w[i + 1] == nonce);
            }
        }
        lemma_insert_sorted(rest, nonce);
        assert forall|x: u64|
            rest.contains(x) <==> (w.contains(x) && x != w[0]) by {
            if rest.contains(x) {
                let i = choose|i: int| 0 <= i < rest.len() && rest[i] == x;
                assert(w[i + 1] == x);
                assert(w[0] < w[i + 1]);
            }
            if w.contains(x) && x != w[0] {
                let i = choose|i: int| 0 <= i < w.len() && w[i] == x;
                assert(i > 0);
                assert(rest[i - 1] == x);
            }
        }
    } else {
        lemma_insert_sorted(w, nonce);
    }
}

/// A replay state that has never accepted a confirmation.
pub open spec fn fresh_replay() -> ReplayModel {
    ReplayModel { last_nonce: 0, window: Seq::empty() }
}

/// The state after admitting each nonce of `ns` in order (assuming each is
/// accepted).
pub open spec fn admit_all(m: ReplayModel, ns: Seq<u64>) -> ReplayModel
    decreases ns.len(),
{
    if ns.len() == 0 {
        m
    } else {
        admit_all(admit_step(m, ns[0]), ns.drop_first())
    }
}

/// Every nonce of `ns`, presented in order, is accepted.
pub open spec fn all_admitted(m: ReplayModel, ns: Seq<u64>) -> bool
    decreases ns.len(),
{
    ns.len() == 0 || (admit_accepts(m, ns[0]) && all_admitted(admit_step(m, ns[0]), ns.drop_first()))
}

/// Folding one more nonce onto the end of a run is one more step.
pub proof fn lemma_admit_all_snoc(m: ReplayModel, ns: Seq<u64>, x: u64)
    ensures
        admit_all(m, ns.push(x)) == admit_step(admit_all(m, ns), x),
        all_admitted(m, ns.push(x)) <==> (all_admitted(m, ns) && admit_accepts(
            admit_all(m, ns),
            x,
        )),
    decreases ns.len(),
{
    let snoc = ns.push(x);
    if ns.len() == 0 {
        assert(snoc[0] == x);
        assert(snoc.drop_first() =~= Seq::<u64>::empty());
        assert(admit_all(admit_step(m, x), Seq::<u64>::empty()) == admit_step(m, x));
        assert(admit_all(m, snoc) == admit_step(m, x));
        assert(all_admitted(admit_step(m, x), Seq::<u64>::empty()));
        assert(all_admitted(m, snoc) <==> admit_accepts(m, x));
        assert(admit_all(m, ns) == m);
        assert(all_admitted(m, ns));
    } else {
        let step0 = admit_step(m, ns[0]);
        assert(snoc[0] == ns[0]);
        assert(snoc.drop_first() =~= ns.drop_first().push(x));
        lemma_admit_all_snoc(step0, ns.drop_first(), x);
        assert(admit_all(m, snoc) == admit_all(step0, snoc.drop_first()));
        assert(admit_all(m, ns) == admit_all(step0, ns.drop_first()));
        assert(all_admitted(m, snoc) <==> (admit_accepts(m, ns[0]) && all_admitted(
            step0,
            snoc.drop_first(),
        )));
        assert(all_admitted(m, ns) <==> (admit_accepts(m, ns[0]) && all_admitted(
            step0,
            ns.drop_first(),
        )));
    }
}

/// The first nonce presented to a fresh replay state is always accepted,
/// whatever it is.
pub proof fn lemma_first_nonce_admitted(nonce: u64)
    ensures
        replay_wf(fresh_replay()),
        admit_accepts(fresh_replay(), nonce),
{
}

/// Admitting the same nonce twice always fails on the second attempt, as
/// consumed: once accepted, a nonce is the most recently stored one, so an
/// immediate repeat is refused whatever the window holds.
pub proof fn lemma_duplicate_rejected(m: ReplayModel, nonce: u64)
    requires
        replay_wf(m),
        admit_accepts(m, nonce),
    ensures
        replay_wf(admit_step(m, nonce)),
        !admit_accepts(admit_step(m, nonce), nonce),
        admit_error(admit_step(m, nonce), nonce) == ErrorCode::NonceConsumed,
{
    lemma_admit_step(m, nonce);
}

/// The window floor advances only by eviction, never by arrival order:
/// while the window is below capacity, an accepted nonce leaves the floor
/// where it was (the first accepted nonce sets it), so out-of-order arrival
/// is tolerated as long as nothing falls below the floor.
pub proof fn lemma_floor_advances_only_by_eviction(m: ReplayModel, nonce: u64)
    requires
        replay_wf(m),
        admit_accepts(m, nonce),
        m.window.len() < WINDOW_CAP,
    ensures
        admit_step(m, nonce).window.len() > 0,
        admit_step(m, nonce).window[0] == if m.window.len() == 0 {
            nonce
        } else {
            m.window[0]
        },
{
    lemma_admit_step(m, nonce);
    if m.window.len() > 0 {
        assert(nonce != m.window[0]) by {
            assert(m.window[0] == m.window[0]);
            assert(m.window.contains(m.window[0]));
        }
    }
}

/// After a fresh replay state accepts the first `k` nonces of `ns` (all
/// distinct, the first strictly smallest, at most a windowful), the window
/// holds exactly those `k` nonces and the last stored one is the `k`th.
proof fn lemma_fill_window(ns: Seq<u64>, k: int)
    requires
        1 <= k <= WINDOW_CAP,
        k <= ns.len(),
        ns.no_duplicates(),
        forall|i: int| 1 <= i < ns.len() ==> ns[0] < #[trigger] ns[i],
    ensures
        all_admitted(fresh_replay(), ns.take(k)),
        replay_wf(admit_all(fresh_replay(), ns.take(k))),
        admit_all(fresh_replay(), ns.take(k)).window.len() == k,
        admit_all(fresh_replay(), ns.take(k)).last_nonce == ns[k - 1],
        forall|x: u64|
            #[trigger] admit_all(fresh_replay(), ns.take(k)).window.contains(x) <==> ns.take(
                k,
            ).contains(x),
    decreases k,
{
    let cur = ns.take(k);
    if k == 1 {
        let sm = admit_step(fresh_replay(), ns[0]);
        lemma_admit_step(fresh_replay(), ns[0]);
        assert(cur =~= Seq::<u64>::empty().push(ns[0]));
        lemma_admit_all_snoc(fresh_replay(), Seq::<u64>::empty(), ns[0]);
        assert(admit_all(fresh_replay(), Seq::<u64>::empty()) == fresh_replay());
        assert(all_admitted(fresh_replay(), Seq::<u64>::empty()));
        assert(admit_all(fresh_replay(), ns.take(k)) == sm);
        assert forall|x: u64|
            #[trigger] admit_all(fresh_replay(), ns.take(k)).window.contains(x) <==> ns.take(
                k,
            ).contains(x) by {
            assert(sm.window.contains(x) <==> (x == ns[0] || (fresh_replay().window.contains(x)
                && true)));
            if cur.contains(x) {
                let j = choose|j: int| 0 <= j < cur.len() && cur[j] == x;
                assert(x == ns[0]);
            }
            if x == ns[0] {
                assert(cur[0] == x);
            }
        }
    } else {
        lemma_fill_window(ns, k - 1);
        let prev = ns.take(k - 1);
        let pre = admit_all(fresh_replay(), prev);
        let x = ns[k - 1];
        assert(cur =~= prev.push(x));
        lemma_admit_all_snoc(fresh_replay(), prev, x);
        // The next nonce is fresh to the window and above its floor.
        assert(admit_accepts(pre, x)) by {
            assert(pre.last_nonce == ns[k - 2]);
            assert(!pre.window.contains(x)) by {
                if pre.window.contains(x) {
                    assert(prev.contains(x));
                    let j = choose|j: int| 0 <= j < prev.len() && prev[j] == x;
                    assert(ns[j] == ns[k - 1]);
                }
            }
            assert(pre.window.contains(ns[0])) by {
                assert(prev[0] == ns[0]);
                assert(prev.contains(ns[0]));
            }
            lemma_sorted_floor(pre.window, ns[0]);
            assert(pre.window[0] == ns[0]) by {
                assert(pre.window.contains(pre.window[0]));
                assert(prev.contains(pre.window[0]));
                let j = choose|j: int| 0 <= j < prev.len() && prev[j] == pre.window[0];
                assert(ns[j] == pre.window[0]);
            }
            assert(x >= pre.window[0]);
        }
        let sm = admit_step(pre, x);
        lemma_admit_step(pre, x);
        assert(admit_all(fresh_replay(), ns.take(k)) == sm);
        assert forall|x2: u64|
            #[trigger] admit_all(fresh_replay(), ns.take(k)).window.contains(x2) <==> ns.take(
                k,
            ).contains(x2) by {
            assert(sm.window.contains(x2) <==> (x2 == x || (pre.window.contains(x2) && (
            pre.window.len() < WINDOW_CAP || x2 != pre.window[0]))));
            assert(pre.window.len() < WINDOW_CAP);
            assert(pre.window.contains(x2) <==> prev.contains(x2));
            if cur.contains(x2) {
                let j = choose|j: int| 0 <= j < cur.len() && cur[j] == x2;
                if j == k - 1 {
                    assert(x2 == x);
                } else {
                    assert(prev[j] == x2);
                    assert(prev.contains(x2));
                }
            }
            if prev.contains(x2) {
                let j = choose|j: int| 0 <= j < prev.len() && prev[j] == x2;
                assert(cur[j] == x2);
            }
            if x2 == x {
                assert(cur[k - 1] == x2);
            }
        }
    }
}

/// After a fresh replay state accepts 51 distinct nonces whose first one is
/// strictly the smallest, the first nonce has been evicted: presenting it
/// again fails as invalid (below the window floor), while each of the other
/// 50 is still remembered and fails as consumed.
pub proof fn lemma_window_eviction(ns: Seq<u64>)
    requires
        ns.len() == WINDOW_CAP + 1,
        ns.no_duplicates(),
        forall|i: int| 1 <= i < ns.len() ==> ns[0] < #[trigger] ns[i],
    ensures
        all_admitted(fresh_replay(), ns),
        !admit_accepts(admit_all(fresh_replay(), ns), ns[0]),
        admit_error(admit_all(fresh_replay(), ns), ns[0]) == ErrorCode::NonceInvalid,
        forall|i: int|
            1 <= i < ns.len() ==> !admit_accepts(admit_all(fresh_replay(), ns), #[trigger] ns[i])
                && admit_error(admit_all(fresh_replay(), ns), ns[i]) == ErrorCode::NonceConsumed,
{
    lemma_fill_window(ns, WINDOW_CAP as int);
    let t = ns.take(WINDOW_CAP as int);
    let full = admit_all(fresh_replay(), t);
    // The floor of the full window is the smallest nonce.
    assert(full.window.contains(ns[0])) by {
        assert(t[0] == ns[0]);
        assert(t.contains(ns[0]));
    }
    lemma_sorted_floor(full.window, ns[0]);
    assert(full.window[0] == ns[0]) by {
        assert(full.window.contains(full.window[0]));
        assert(t.contains(full.window[0]));
        let j = choose|j: int| 0 <= j < t.len() && t[j] == full.window[0];
        assert(ns[j] == full.window[0]);
    }
    // The last nonce is accepted, evicting the smallest.
    let x = ns[ns.len() - 1];
    assert(admit_accepts(full, x)) by {
        assert(full.last_nonce == ns[WINDOW_CAP - 1]);
        assert(!full.window.contains(x)) by {
            if full.window.contains(x) {
                assert(t.contains(x));
                let j = choose|j: int| 0 <= j < t.len() && t[j] == x;
                assert(ns[j] == ns[ns.len() - 1]);
            }
        }
    }
    let sm = admit_step(full, x);
    lemma_admit_step(full, x);
    assert(t.push(x) =~= ns);
    lemma_admit_all_snoc(fresh_replay(), t, x);
    assert(admit_all(fresh_replay(), ns) == sm);
    // Presenting the evicted smallest nonce again is below the new floor.
    assert(!sm.window.contains(ns[0]));
    assert(ns[0] != sm.last_nonce);
    assert(sm.window.len() > 0);
    assert(ns[0] < sm.window[0]) by {
        assert(sm.window.contains(sm.window[0]));
        if sm.window[0] == x {
        } else {
            assert(full.window.contains(sm.window[0]));
            assert(t.contains(sm.window[0]));
            let j = choose|j: int| 0 <= j < t.len() && t[j] == sm.window[0];
            assert(ns[j] == sm.window[0]);
            assert(j >= 1);
        }
    }
    // Every later nonce is still in the window.
    assert forall|i: int|
        1 <= i < ns.len() implies !admit_accepts(admit_all(fresh_replay(), ns), #[trigger] ns[i])
        && admit_error(admit_all(fresh_replay(), ns), ns[i]) == ErrorCode::NonceConsumed by {
        if i == ns.len() - 1 {
            assert(sm.window.contains(x));
        } else {
            assert(full.window.contains(ns[i])) by {
                assert(t[i] == ns[i]);
                assert(t.contains(ns[i]));
            }
            assert(ns[i] != ns[0]);
            assert(sm.window.contains(ns[i]));
        }
    }
}

/// The inbound replay record for one (source chain, receiver) pair. The
/// window is kept strictly increasing and holds at most [`WINDOW_CAP`]
/// entries; `last_nonce` records the most recently stored nonce, which is
/// not necessarily the numerically largest.
pub struct FromChainNonce {
    pub chain: Chain,
    pub last_nonce: u64,
    pub window: Vec<u64>,
}

impl View for FromChainNonce {
    type V = ReplayModel;

    open spec fn view(&self) -> ReplayModel {
        ReplayModel { last_nonce: self.last_nonce, window: self.window@ }
    }
}

impl FromChainNonce {
    /// Well-formedness: the window invariant holds.
    pub open spec fn wf(self) -> bool {
        replay_wf(self@)
    }

    /// A record that has never accepted a confirmation.
    pub fn new() -> (s: Self)
        ensures
            s.wf(),
            s@.window.len() == 0,
            s@.last_nonce == 0,
    {
        FromChainNonce {
            chain: Chain { chain_type: 0, chain_id: 0 },
            last_nonce: 0,
            window: Vec::new(),
        }
    }

    /// The window part of admission: accepts into an empty window
    /// unconditionally; rejects a nonce already present as consumed and one
    /// below the floor as invalid; otherwise inserts the nonce, evicting the
    /// smallest entry if the window is full. Leaves `last_nonce` and the
    /// record untouched on rejection.
    pub fn check_and_store_nonce(&mut self, nonce: u64) -> (r: Result<bool, ErrorCode>)
        requires
            old(self).wf(),
        ensures
            final(self).wf(),
            final(self).chain == old(self).chain,
            final(self).last_nonce == old(self).last_nonce,
            r is Ok <==> window_accepts(old(self)@.window, nonce),
            window_accepts(old(self)@.window, nonce) ==> r == Ok::<bool, ErrorCode>(true)
                && final(self)@.window == window_step(old(self)@.window, nonce),
            !window_accepts(old(self)@.window, nonce) ==> final(self)@.window == old(
                self,
            )@.window && r == Err::<bool, ErrorCode>(
                if old(self)@.window.contains(nonce) {
                    ErrorCode::NonceConsumed
                } else {
                    ErrorCode::NonceInvalid
                },
            ),
    {
        let ghost w = self.window@;
        let len = self.window.len();
        if len == 0 {
            self.window.push(nonce);
            proof {
                assert(self.window@ =~= insert_sorted(w, nonce));
                lemma_insert_sorted(w, nonce);
            }
            return Ok(true);
        }
        // Find the first index whose entry is at least the nonce.
        let mut p: usize = 0;
        while p < len && self.window[p] < nonce
            invariant
                p <= len,
                len == self.window@.len(),
                self.window@ == w,
                forall|j: int| 0 <= j < p ==> w[j] < nonce,
            decreases len - p,
        {
            p = p + 1;
        }
        if p < len && self.window[p] == nonce {
            proof {
                assert(w.contains(nonce)) by {
                    assert(w[p as int] == nonce);
                }
            }
            return Err(ErrorCode::NonceConsumed);
        }
        proof {
            assert(!w.contains(nonce)) by {
                if w.contains(nonce) {
                    let i = choose|i: int| 0 <= i < w.len() && w[i] == nonce;
                    assert(i >= p);
                    if i > p {
                        assert(w[p as int] < w[i]);
                    }
                }
            }
        }
        if nonce < self.window[0] {
            return Err(ErrorCode::NonceInvalid);
        }
        proof {
            // Entries from p on are strictly larger than the nonce.
            assert forall|j: int| p <= j < w.len() implies nonce < w[j] by {
                if j > p {
                    assert(w[p as int] < w[j]);
                }
            }
            // The floor is strictly smaller, so the split point is positive.
            assert(p >= 1) by {
                if p == 0 {
                    assert(nonce < w[0]);
                }
            }
        }
        if len >= WINDOW_CAP {
            let ghost rest = w.drop_first();
            self.window.remove(0);
            proof {
                assert(self.window@ =~= rest);
                assert(forall|j: int| 0 <= j < rest.len() ==> rest[j] == w[j + 1]);
                assert(window_sorted(rest));
                lemma_insert_sorted_position(rest, nonce, p - 1);
            }
            self.window.insert(p - 1, nonce);
            proof {
                assert(!rest.contains(nonce)) by {
                    if rest.contains(nonce) {
                        let i = choose|i: int| 0 <= i < rest.len() && rest[i] == nonce;
                        assert(w[i + 1] == nonce);
                    }
                }
                lemma_insert_sorted(rest, nonce);
            }
        } else {
            proof {
                lemma_insert_sorted_position(w, nonce, p as int);
                lemma_insert_sorted(w, nonce);
            }
            self.window.insert(p, nonce);
        }
        Ok(true)
    }

    /// Full admission for one confirmation: rejects a repeat of the most
    /// recently stored nonce as consumed — even when that nonce has already
    /// been evicted from the window — and otherwise defers to the window.
    /// On acceptance the nonce becomes the most recently stored one. A
    /// rejection leaves the record exactly as it was.
    pub fn admit_nonce(&mut self, nonce: u64) -> (r: Result<(), ErrorCode>)
        requires
            old(self).wf(),
        ensures
            final(self).wf(),
            final(self).chain == old(self).chain,
            r is Ok <==> admit_accepts(old(self)@, nonce),
            admit_accepts(old(self)@, nonce) ==> final(self)@ == admit_step(old(self)@, nonce),
            !admit_accepts(old(self)@, nonce) ==> final(self)@ == old(self)@ && r == Err::<
                (),
                ErrorCode,
            >(admit_error(old(self)@, nonce)),
    {
        if self.window.len() > 0 && nonce == self.last_nonce {
            return Err(ErrorCode::NonceConsumed);
        }
        match self.check_and_store_nonce(nonce) {
            Ok(_) => {
                self.last_nonce = nonce;
                Ok(())
            },
            Err(e) => Err(e),
        }
    }
}


/// The concatenated little-endian encodings of a list of nonces.
pub open spec fn spec_nonce_list_bytes(w: Seq<u64>) -> Seq<u8>
    decreases w.len(),
{
    if w.len() == 0 {
        Seq::empty()
    } else {
        spec_u64_to_le_bytes(w[0]) + spec_nonce_list_bytes(w.drop_first())
    }
}

/// The persisted byte form of a replay window: an eight-byte little-endian
/// count followed by each nonce, eight little-endian bytes apiece, in
/// ascending order.
pub open spec fn spec_window_bytes(w: Seq<u64>) -> Seq<u8> {
    spec_u64_to_le_bytes(w.len() as u64) + spec_nonce_list_bytes(w)
}

/// The encoded list is eight bytes per nonce, each nonce at its own block.
pub proof fn lemma_nonce_list_bytes(w: Seq<u64>)
    ensures
        spec_nonce_list_bytes(w).len() == 8 * w.len(),
        forall|i: int|
            0 <= i < w.len() ==> #[trigger] spec_nonce_list_bytes(w).subrange(8 * i, 8 * i + 8)
                == spec_u64_to_le_bytes(w[i]),
    decreases w.len(),
{
    lemma_auto_spec_u64_to_from_le_bytes();
    if w.len() > 0 {
        let rest = w.drop_first();
        lemma_nonce_list_bytes(rest);
        let b = spec_nonce_list_bytes(w);
        assert forall|i: int|
            0 <= i < w.len() implies #[trigger] b.subrange(8 * i, 8 * i + 8)
            == spec_u64_to_le_bytes(w[i]) by {
            if i == 0 {
                assert(b.subrange(0, 8) =~= spec_u64_to_le_bytes(w[0]));
            } else {
                assert(spec_nonce_list_bytes(rest).subrange(8 * (i - 1), 8 * (i - 1) + 8)
                    == spec_u64_to_le_bytes(rest[i - 1]));
                assert(b.subrange(8 * i, 8 * i + 8) =~= spec_nonce_list_bytes(rest).subrange(
                    8 * (i - 1),
                    8 * (i - 1) + 8,
                ));
            }
        }
    }
}

/// A byte string made of the right blocks is the encoded list.
proof fn lemma_nonce_list_from_blocks(w: Seq<u64>, b: Seq<u8>)
    requires
        b.len() == 8 * w.len(),
        forall|i: int|
            0 <= i < w.len() ==> #[trigger] b.subrange(8 * i, 8 * i + 8) == spec_u64_to_le_bytes(
                w[i],
            ),
    ensures
        spec_nonce_list_bytes(w) == b,
    decreases w.len(),
{
    lemma_auto_spec_u64_to_from_le_bytes();
    if w.len() == 0 {
        assert(spec_nonce_list_bytes(w) =~= b);
    } else {
        let rest = w.drop_first();
        let bs = b.skip(8);
        assert forall|i: int|
            0 <= i < rest.len() implies #[trigger] bs.subrange(8 * i, 8 * i + 8)
            == spec_u64_to_le_bytes(rest[i]) by {
            assert(bs.subrange(8 * i, 8 * i + 8) =~= b.subrange(8 * (i + 1), 8 * (i + 1) + 8));
            assert(b.subrange(8 * (i + 1), 8 * (i + 1) + 8) == spec_u64_to_le_bytes(w[i + 1]));
        }
        lemma_nonce_list_from_blocks(rest, bs);
        assert(b.subrange(0int, 8int) == spec_u64_to_le_bytes(w[0])) by {
            assert(b.subrange(8 * 0int, 8 * 0int + 8) == spec_u64_to_le_bytes(w[0]));
        }
        assert(spec_nonce_list_bytes(w) =~= b);
    }
}

/// Appending one nonce appends its eight bytes.
proof fn lemma_nonce_list_snoc(w: Seq<u64>, x: u64)
    ensures
        spec_nonce_list_bytes(w.push(x)) == spec_nonce_list_bytes(w) + spec_u64_to_le_bytes(x),
    decreases w.len(),
{
    let snoc = w.push(x);
    if w.len() == 0 {
        assert(snoc[0] == x);
        assert(snoc.drop_first() =~= Seq::<u64>::empty());
        assert(spec_nonce_list_bytes(Seq::<u64>::empty()) =~= Seq::<u8>::empty());
        assert(spec_nonce_list_bytes(snoc) =~= spec_nonce_list_bytes(w) + spec_u64_to_le_bytes(x));
    } else {
        assert(snoc[0] == w[0]);
        assert(snoc.drop_first() =~= w.drop_first().push(x));
        lemma_nonce_list_snoc(w.drop_first(), x);
        assert(spec_nonce_list_bytes(snoc) == spec_u64_to_le_bytes(snoc[0]) + spec_nonce_list_bytes(
            snoc.drop_first(),
        ));
        assert(spec_nonce_list_bytes(snoc) =~= spec_nonce_list_bytes(w) + spec_u64_to_le_bytes(x));
    }
}

/// Serialises a replay window for persistent storage.
pub fn encode_window(window: &Vec<u64>) -> (r: Vec<u8>)
    ensures
        r@ == spec_window_bytes(window@),
{
    let mut r = u64_to_le_bytes(window.len() as u64);
    let mut i: usize = 0;
    while i < window.len()
        invariant
            i <= window@.len(),
            r@ == spec_u64_to_le_bytes(window@.len() as u64) + spec_nonce_list_bytes(
                window@.take(i as int),
            ),
        decreases window@.len() - i,
    {
        let ghost pre = window@.take(i as int);
        let key_bytes = u64_to_le_bytes(window[i]);
        push_bytes(&mut r, key_bytes.as_slice());
        i = i + 1;
        proof {
            assert(window@.take(i as int) =~= pre.push(window@[i - 1]));
            lemma_nonce_list_snoc(pre, window@[i - 1]);
        }
    }
    proof {
        assert(window@.take(i as int) =~= window@);
    }
    r
}

/// Reads a replay window back from its persisted byte form.
///
/// Succeeds exactly on the encoding of a well-formed window (strictly
/// increasing, at most a windowful) and then returns exactly that window;
/// anything else is rejected as corrupt.
#[verifier::loop_isolation(false)]
pub fn decode_window(bytes: &[u8]) -> (r: Result<Vec<u64>, ErrorCode>)
    ensures
        r matches Ok(w) ==> window_sorted(w@) && w@.len() <= WINDOW_CAP && spec_window_bytes(w@)
            == bytes@,
        forall|w: Seq<u64>|
            window_sorted(w) && w.len() <= WINDOW_CAP && bytes@ == #[trigger] spec_window_bytes(w)
                ==> (r matches Ok(v) && v@ == w),
        r matches Err(e) ==> e == ErrorCode::DeserializationError,
{
    proof {
        lemma_auto_spec_u64_to_from_le_bytes();
    }
    if bytes.len() < 8 {
        proof {
            assert forall|w: Seq<u64>|
                window_sorted(w) && w.len() <= WINDOW_CAP && bytes@ == #[trigger] spec_window_bytes(
                    w,
                ) implies false by {};
        }
        return Err(ErrorCode::DeserializationError);
    }
    let count = u64_from_le_bytes(&bytes[0..8]);
    proof {
        assert forall|w: Seq<u64>|
            w.len() <= WINDOW_CAP && bytes@ == #[trigger] spec_window_bytes(w) implies w.len()
            == count by {
            assert(bytes@.subrange(0, 8) =~= spec_u64_to_le_bytes(w.len() as u64));
            assert(spec_u64_from_le_bytes(spec_u64_to_le_bytes(w.len() as u64)) == w.len() as u64);
        }
    }
    if count > WINDOW_CAP as u64 {
        return Err(ErrorCode::DeserializationError);
    }
    let n = count as usize;
    if bytes.len() != 8 + 8 * n {
        proof {
            assert forall|w: Seq<u64>|
                window_sorted(w) && w.len() <= WINDOW_CAP && bytes@ == #[trigger] spec_window_bytes(
                    w,
                ) implies false by {
                lemma_nonce_list_bytes(w);
            }
        }
        return Err(ErrorCode::DeserializationError);
    }
    let ghost payload = bytes@.skip(8);
    proof {
        assert forall|w: Seq<u64>|
            window_sorted(w) && w.len() <= WINDOW_CAP && bytes@ == #[trigger] spec_window_bytes(w)
            implies forall|j: int|
            0 <= j < n ==> w[j] == spec_u64_from_le_bytes(
                #[trigger] bytes@.subrange(8 + 8 * j, 16 + 8 * j),
            ) by {
            lemma_nonce_list_bytes(w);
            assert forall|j: int|
                0 <= j < n implies w[j] == spec_u64_from_le_bytes(
                #[trigger] bytes@.subrange(8 + 8 * j, 16 + 8 * j),
            ) by {
                assert(bytes@.subrange(8 + 8 * j, 16 + 8 * j) =~= spec_nonce_list_bytes(w).subrange(
                    8 * j,
                    8 * j + 8,
                ));
                assert(spec_nonce_list_bytes(w).subrange(8 * j, 8 * j + 8)
                    == spec_u64_to_le_bytes(w[j]));
            }
        }
    }
    let mut out: Vec<u64> = Vec::new();
    let mut i: usize = 0;
    while i < n
        invariant
            i <= n,
            8 + 8 * n == bytes@.len(),
            out@.len() == i,
            window_sorted(out@),
            forall|j: int|
                0 <= j < i ==> out@[j] == spec_u64_from_le_bytes(
                    #[trigger] bytes@.subrange(8 + 8 * j, 16 + 8 * j),
                ),
        decreases n - i,
    {
        let key = u64_from_le_bytes(&bytes[8 + 8 * i..16 + 8 * i]);
        if i > 0 && key <= out[i - 1] {
            proof {
                assert forall|w: Seq<u64>|
                    window_sorted(w) && w.len() <= WINDOW_CAP && bytes@
                        == #[trigger] spec_window_bytes(w) implies false by {
                    let prev_block = bytes@.subrange(8 + 8 * (i - 1), 16 + 8 * (i - 1));
                    assert(w[i - 1] == spec_u64_from_le_bytes(prev_block));
                    assert(out@[i - 1] == spec_u64_from_le_bytes(prev_block));
                    assert(w[i as int] == key);
                    assert(w[i - 1] < w[i as int]);
                }
            }
            return Err(ErrorCode::DeserializationError);
        }
        let ghost pre = out@;
        out.push(key);
        proof {
            assert forall|a: int, b: int| 0 <= a < b < out@.len() implies out@[a] < out@[b] by {
                if b < out@.len() - 1 {
                    assert(pre[a] < pre[b]);
                } else if a < out@.len() - 1 {
                    if a < i as int - 1 {
                        assert(pre[a] < pre[i - 1]);
                    }
                }
            }
        }
        i = i + 1;
    }
    proof {
        lemma_nonce_list_bytes(out@);
        assert forall|j: int|
            0 <= j < out@.len() implies #[trigger] payload.subrange(8 * j, 8 * j + 8)
            == spec_u64_to_le_bytes(out@[j]) by {
            assert(payload.subrange(8 * j, 8 * j + 8) =~= bytes@.subrange(8 + 8 * j, 16 + 8 * j));
            assert(spec_u64_to_le_bytes(
                spec_u64_from_le_bytes(bytes@.subrange(8 + 8 * j, 16 + 8 * j)),
            ) == bytes@.subrange(8 + 8 * j, 16 + 8 * j));
        }
        lemma_nonce_list_from_blocks(out@, payload);
        assert forall|w: Seq<u64>|
            window_sorted(w) && w.len() <= WINDOW_CAP && bytes@ == #[trigger] spec_window_bytes(w)
            implies out@ == w by {
            assert(w.len() == count);
            assert forall|j: int| 0 <= j < n implies out@[j] == w[j] by {
                assert(w[j] == spec_u64_from_le_bytes(bytes@.subrange(8 + 8 * j, 16 + 8 * j)));
            }
            assert(out@ =~= w);
        }
        assert(spec_window_bytes(out@) =~= bytes@) by {
            assert(spec_u64_to_le_bytes(out@.len() as u64) =~= bytes@.subrange(0, 8)) by {
                assert(spec_u64_from_le_bytes(bytes@.subrange(0, 8)) == count);
                assert(spec_u64_to_le_bytes(spec_u64_from_le_bytes(bytes@.subrange(0, 8)))
                    == bytes@.subrange(0, 8));
            }
        }
    }
    Ok(out)
}

} // verus!
