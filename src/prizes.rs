use crate::ranking::{min, MAX_WINNERS};
use vstd::prelude::*;

verus! {

/// An amount paid to one winner of a contest.
#[derive(Clone, Copy, Debug, PartialEq, Eq, Structural)]
pub struct PrizeRecord {
    pub participant: u64,
    pub amount: i128,
}

/// `percent` percent of `pool`, rounded toward zero.
pub open spec fn share(pool: int, percent: int) -> int {
    if pool >= 0 {
        pool * percent / 100
    } else {
        -((-pool) * percent / 100)
    }
}

/// The percentage of the pool paid at rank `rank` (counted from zero).
pub open spec fn rank_percent(rank: int) -> int {
    if rank == 0 {
        50
    } else if rank == 1 {
        30
    } else {
        20
    }
}

/// Whether the largest share of `pool` can be computed within `i128`.
pub open spec fn pool_fits(pool: int) -> bool {
    i128::MIN <= pool * 50 <= i128::MAX
}

/// The payouts to the leading winners: one per winner, for at most three.
pub open spec fn payouts(winners: Seq<u64>, pool: int) -> Seq<PrizeRecord> {
    Seq::new(
        min(MAX_WINNERS as int, winners.len() as int) as nat,
        |i: int| PrizeRecord { participant: winners[i], amount: share(pool, rank_percent(i)) as i128 },
    )
}

/// `percent` percent of `pool`, rounded toward zero.
pub fn prize_share(pool: i128, percent: i128) -> (r: i128)
    requires
        0 <= percent <= 50,
        pool_fits(pool as int),
    ensures
        r as int == share(pool as int, percent as int),
{
    if pool >= 0 {
        proof {
            assert(0 <= pool * percent <= pool * 50) by (nonlinear_arith)
                requires
                    0 <= percent <= 50,
                    pool >= 0,
            ;
        }
        pool * percent / 100
    } else {
        let magnitude: i128 = -pool;
        proof {
            assert(0 <= magnitude * percent <= magnitude * 50) by (nonlinear_arith)
                requires
                    0 <= percent <= 50,
                    magnitude >= 0,
            ;
        }
        -(magnitude * percent / 100)
    }
}

/// The payouts for `winners` in rank order: 50, 30 and 20 percent of the pool to the
/// first three; what the missing ranks would have had is paid to nobody.
pub fn distribute_prizes(winners: &Vec<u64>, prize_pool: i128) -> (r: Vec<PrizeRecord>)
    requires
        pool_fits(prize_pool as int),
    ensures
        r@ == payouts(winners@, prize_pool as int),
{
    let mut r: Vec<PrizeRecord> = Vec::new();
    if winners.len() == 0 {
        proof {
            assert(r@ =~= payouts(winners@, prize_pool as int));
        }
        return r;
    }
    let shares: [i128; 3] = [
        prize_share(prize_pool, 50),
        prize_share(prize_pool, 30),
        prize_share(prize_pool, 20),
    ];
    let count: usize = if winners.len() < MAX_WINNERS {
        winners.len()
    } else {
        MAX_WINNERS
    };
    let mut i: usize = 0;
    while i < count
        invariant
            i <= count,
            count == min(MAX_WINNERS as int, winners@.len() as int),
            forall|k: int| 0 <= k < 3 ==> #[trigger] shares@[k] as int == share(prize_pool as int, rank_percent(k)),
            r@ =~= payouts(winners@, prize_pool as int).take(i as int),
        decreases count - i,
    {
        r.push(PrizeRecord { participant: winners[i], amount: shares[i] });
        i = i + 1;
    }
    proof {
        assert(payouts(winners@, prize_pool as int).take(i as int) =~= payouts(winners@, prize_pool as int));
    }
    r
}

} // verus!
