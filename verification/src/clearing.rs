//! Settlement: withdraws each winning bid's price from its bidder's
//! tracked balance and reports the post-settlement bidder records.
//!
//! The engine builds a fresh ledger and returns it only when every bid
//! in the batch settles, so a failed batch leaves no balance changed
//! anywhere: the batch is atomic.

use vstd::prelude::*;
use crate::model::{User, Bid, AssetInfo, clone_user};
use crate::assoc::AssocMap;

verus! {

/// Why a settlement was refused.
#[derive(Debug, Clone, Copy, PartialEq, Eq, Structural)]
pub enum ClearingError {
    /// The named bidder's tracked balance was below a bid's price when
    /// that bid was processed.
    InsufficientFunds(u64),
}

/// One settlement step: find or initialize the bidder's record, then
/// withdraw the bid's price, or stop with the bidder's id.
pub open spec fn settle_step(ledger: Map<u64, User>, b: Bid) -> Result<Map<u64, User>, u64> {
    let u = if ledger.contains_key(b.user.id) {
        ledger[b.user.id]
    } else {
        b.user
    };
    if u.balance < b.price {
        Err(b.user.id)
    } else {
        Ok(
            ledger.insert(
                b.user.id,
                User { id: u.id, name: u.name, balance: (u.balance - b.price) as u64 },
            ),
        )
    }
}

/// Settlement of a list of bids, in order, stopping at the first bid
/// its bidder cannot cover.
pub open spec fn settle_res(bids: Seq<Bid>) -> Result<Map<u64, User>, u64>
    decreases bids.len(),
{
    if bids.len() == 0 {
        Ok(Map::empty())
    } else {
        match settle_res(bids.drop_last()) {
            Ok(m) => settle_step(m, bids.last()),
            Err(uid) => Err(uid),
        }
    }
}

/// Whether some bid in the list belongs to the bidder.
pub open spec fn has_bid(bids: Seq<Bid>, uid: u64) -> bool {
    exists|i: int| 0 <= i < bids.len() && (#[trigger] bids[i]).user.id == uid
}

/// Sum of the prices of the bidder's bids in the list.
pub open spec fn user_cost(bids: Seq<Bid>, uid: u64) -> int
    decreases bids.len(),
{
    if bids.len() == 0 {
        0
    } else {
        user_cost(bids.drop_last(), uid) + if bids.last().user.id == uid {
            bids.last().price as int
        } else {
            0
        }
    }
}

/// The bidder record carried by the bidder's first bid in the list;
/// that snapshot seeds the ledger.
pub open spec fn first_user(bids: Seq<Bid>, uid: u64) -> User
    decreases bids.len(),
{
    if bids.len() == 0 {
        arbitrary()
    } else if has_bid(bids.drop_last(), uid) {
        first_user(bids.drop_last(), uid)
    } else {
        bids.last().user
    }
}

/// A bidder with no bid in the list costs nothing.
proof fn lemma_user_cost_absent(bids: Seq<Bid>, uid: u64)
    requires
        !has_bid(bids, uid),
    ensures
        user_cost(bids, uid) == 0,
    decreases bids.len(),
{
    if bids.len() > 0 {
        assert forall|i: int| 0 <= i < bids.drop_last().len() implies (#[trigger] bids.drop_last()[
            i
        ]).user.id != uid by {
            assert(bids[i].user.id != uid);
        }
        lemma_user_cost_absent(bids.drop_last(), uid);
        assert(bids[bids.len() - 1].user.id != uid);
    }
}

/// Costs never go down as more bids are appended.
proof fn lemma_user_cost_nonneg(bids: Seq<Bid>, uid: u64)
    ensures
        user_cost(bids, uid) >= 0,
    decreases bids.len(),
{
    if bids.len() > 0 {
        lemma_user_cost_nonneg(bids.drop_last(), uid);
    }
}

/// What settlement computes, stated over the whole batch: on success
/// every bidder's closing balance is their opening balance minus the
/// sum of their winning bids' prices, and the ledger holds exactly the
/// bidders that appear in the batch; settlement is refused exactly when
/// some bidder's total cost exceeds the balance their first bid
/// carried.
pub proof fn lemma_settlement_balances(bids: Seq<Bid>)
    ensures
        match settle_res(bids) {
            Ok(m) => {
                &&& (forall|uid: u64| #[trigger] m.contains_key(uid) <==> has_bid(bids, uid))
                &&& (forall|uid: u64| #[trigger]
                    has_bid(bids, uid) ==> user_cost(bids, uid) <= first_user(bids, uid).balance
                        && m[uid].balance == first_user(bids, uid).balance - user_cost(bids, uid)
                        && m[uid].id == first_user(bids, uid).id && m[uid].name == first_user(
                        bids,
                        uid,
                    ).name)
            },
            Err(uid) => {
                &&& has_bid(bids, uid)
                &&& user_cost(bids, uid) > first_user(bids, uid).balance
            },
        },
        settle_res(bids) is Ok <==> (forall|uid: u64| #[trigger]
            has_bid(bids, uid) ==> user_cost(bids, uid) <= first_user(bids, uid).balance),
    decreases bids.len(),
{
    if bids.len() == 0 {
    } else {
        let s0 = bids.drop_last();
        let b = bids.last();
        let uid = b.user.id;
        lemma_settlement_balances(s0);
        assert forall|u: u64| #[trigger] has_bid(s0, u) implies has_bid(bids, u) by {
            let i = choose|i: int| 0 <= i < s0.len() && (#[trigger] s0[i]).user.id == u;
            assert(bids[i].user.id == u);
        }
        assert(bids[bids.len() - 1].user.id == uid);
        assert(has_bid(bids, uid));
        assert forall|u: u64| #[trigger] has_bid(bids, u) && u != uid implies has_bid(s0, u) by {
            let i = choose|i: int| 0 <= i < bids.len() && (#[trigger] bids[i]).user.id == u;
            assert(i < s0.len());
            assert(s0[i].user.id == u);
        }
        assert forall|u: u64| u != uid implies user_cost(bids, u) == user_cost(s0, u) by {}
        match settle_res(s0) {
            Err(e) => {
                lemma_user_cost_nonneg(s0, e);
                if e == uid {
                } else {
                    assert(first_user(bids, e) == first_user(s0, e));
                }
                assert(user_cost(bids, e) >= user_cost(s0, e));
                assert(first_user(bids, uid).balance == if has_bid(s0, uid) {
                    first_user(s0, uid).balance
                } else {
                    b.user.balance
                });
            },
            Ok(m) => {
                let u = if m.contains_key(uid) {
                    m[uid]
                } else {
                    b.user
                };
                if m.contains_key(uid) {
                    assert(has_bid(s0, uid));
                    assert(first_user(bids, uid) == first_user(s0, uid));
                    assert(u.balance == first_user(s0, uid).balance - user_cost(s0, uid));
                } else {
                    assert(!has_bid(s0, uid));
                    lemma_user_cost_absent(s0, uid);
                    assert(first_user(bids, uid) == b.user);
                }
                assert(user_cost(bids, uid) == user_cost(s0, uid) + b.price);
                if u.balance < b.price {
                    assert(settle_res(bids) == Err::<Map<u64, User>, u64>(uid));
                    assert(user_cost(bids, uid) > first_user(bids, uid).balance);
                } else {
                    let m1 = m.insert(
                        uid,
                        User { id: u.id, name: u.name, balance: (u.balance - b.price) as u64 },
                    );
                    assert(settle_res(bids) == Ok::<Map<u64, User>, u64>(m1));
                    assert forall|w: u64| #[trigger] m1.contains_key(w) implies has_bid(bids, w) by {
                        if w != uid {
                            assert(m.contains_key(w));
                        }
                    }
                    assert forall|w: u64| #[trigger] has_bid(bids, w) implies m1.contains_key(w) by {
                        if w != uid {
                            assert(has_bid(s0, w));
                        }
                    }
                    assert forall|w: u64| #[trigger] has_bid(bids, w) implies user_cost(bids, w)
                        <= first_user(bids, w).balance && m1[w].balance == first_user(
                        bids,
                        w,
                    ).balance - user_cost(bids, w) && m1[w].id == first_user(bids, w).id
                        && m1[w].name == first_user(bids, w).name by {
                        if w == uid {
                        } else {
                            assert(has_bid(s0, w));
                            assert(first_user(bids, w) == first_user(s0, w));
                            assert(m1[w] == m[w]);
                        }
                    }
                }
            },
        }
    }
}

/// Once settlement has been refused on a prefix, appending more bids
/// cannot revive it, and the refusal keeps its bidder.
proof fn lemma_settle_err_persists(bids: Seq<Bid>, k: int)
    requires
        0 <= k <= bids.len(),
        settle_res(bids.subrange(0, k)) is Err,
    ensures
        settle_res(bids) is Err,
        settle_res(bids)->Err_0 == settle_res(bids.subrange(0, k))->Err_0,
    decreases bids.len() - k,
{
    if k < bids.len() {
        assert(bids.subrange(0, k + 1).drop_last() =~= bids.subrange(0, k));
        lemma_settle_err_persists(bids, k + 1);
    } else {
        assert(bids.subrange(0, k) =~= bids);
    }
}

/// The settlement engine.
pub struct Clearing;

impl Clearing {
    /// Settles the winning bids, in order, against each bidder's
    /// tracked balance. The ledger is seeded from the bidder record a
    /// bidder's first bid carries. If any bid cannot be covered, the
    /// whole batch is refused and no balance anywhere has changed. The
    /// allocation is informational: it reports the intended asset
    /// transfers but moves nothing here.
    pub fn clear_winning_bids(
        winning_bids: &Vec<Bid>,
        allocation: &AssocMap<Vec<AssetInfo>>,
    ) -> (r: Result<AssocMap<User>, ClearingError>)
        ensures
            match r {
                Ok(ledger) => ledger.wf() && settle_res(winning_bids@) == Ok::<
                    Map<u64, User>,
                    u64,
                >(ledger@),
                Err(e) => {
                    &&& settle_res(winning_bids@) is Err
                    &&& e == ClearingError::InsufficientFunds(settle_res(winning_bids@)->Err_0)
                },
            },
    {
        let n = winning_bids.len();
        let mut ledger: AssocMap<User> = AssocMap::new();
        let mut i: usize = 0;
        while i < n
            invariant
                0 <= i <= n,
                n == winning_bids@.len(),
                ledger.wf(),
                settle_res(winning_bids@.subrange(0, i as int)) == Ok::<Map<u64, User>, u64>(
                    ledger@,
                ),
            decreases n - i,
        {
            let b = &winning_bids[i];
            proof {
                assert(winning_bids@.subrange(0, i + 1).drop_last() =~= winning_bids@.subrange(
                    0,
                    i as int,
                ));
                assert(winning_bids@.subrange(0, i + 1).last() == winning_bids@[i as int]);
            }
            let tracked_user: User = match ledger.get(b.user.id) {
                Some(u) => clone_user(u),
                None => clone_user(&b.user),
            };
            if tracked_user.balance < b.price {
                proof {
                    assert(settle_res(winning_bids@.subrange(0, i + 1)) == Err::<
                        Map<u64, User>,
                        u64,
                    >(b.user.id));
                    lemma_settle_err_persists(winning_bids@, i + 1);
                }
                return Err(ClearingError::InsufficientFunds(b.user.id));
            }
            let updated = User {
                id: tracked_user.id,
                name: tracked_user.name,
                balance: tracked_user.balance - b.price,
            };
            ledger.upsert(b.user.id, updated);
            i = i + 1;
        }
        proof {
            assert(winning_bids@.subrange(0, n as int) =~= winning_bids@);
        }
        Ok(ledger)
    }
}

} // verus!
