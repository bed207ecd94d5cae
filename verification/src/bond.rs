//! Bonds: stake that an account has locked in favour of a validator.

use crate::types::{Epoch, TokenAmount};
use vstd::prelude::*;

verus! {

/// The amounts that a list of pairs of epoch and amount stands for: for each
/// epoch the amount of the last pair with that epoch.
pub open spec fn amounts_of(s: Seq<(u64, u64)>) -> Map<int, u64>
    decreases s.len(),
{
    if s.len() == 0 {
        Map::empty()
    } else {
        amounts_of(s.drop_last()).insert(s.last().0 as int, s.last().1)
    }
}

/// The tokens of one bond, by the epoch at which each amount was bonded.
#[derive(Debug, PartialEq, Eq)]
pub struct Bond {
    deltas: Vec<(u64, u64)>,
}

impl View for Bond {
    type V = Map<int, u64>;

    closed spec fn view(&self) -> Map<int, u64> {
        amounts_of(self.deltas@)
    }
}

impl Bond {
    /// A bond of `amount` tokens, bonded at `epoch`.
    pub fn new(epoch: Epoch, amount: TokenAmount) -> (r: Bond)
        ensures
            r@ == Map::<int, u64>::empty().insert(epoch.0 as int, amount),
    {
        let mut deltas: Vec<(u64, u64)> = Vec::new();
        deltas.push((epoch.0, amount));
        proof {
            assert(deltas@.drop_last() =~= Seq::<(u64, u64)>::empty());
            assert(amounts_of(deltas@.drop_last()) == Map::<int, u64>::empty());
        }
        Bond { deltas }
    }

    /// The amount bonded at `epoch`, if any was.
    pub fn amount_at(&self, epoch: Epoch) -> (r: Option<TokenAmount>)
        ensures
            r == if self@.dom().contains(epoch.0 as int) {
                Some(self@[epoch.0 as int])
            } else {
                None
            },
    {
        let ghost s = self.deltas@;
        let mut i: usize = self.deltas.len();
        assert(s.subrange(0, i as int) =~= s);
        while i > 0
            invariant
                i <= self.deltas.len(),
                s == self.deltas@,
                amounts_of(s).dom().contains(epoch.0 as int) <==> amounts_of(
                    s.subrange(0, i as int),
                ).dom().contains(epoch.0 as int),
                amounts_of(s).dom().contains(epoch.0 as int) ==> amounts_of(s)[epoch.0 as int]
                    == amounts_of(s.subrange(0, i as int))[epoch.0 as int],
            decreases i,
        {
            proof {
                assert(s.subrange(0, i as int).drop_last() =~= s.subrange(0, i - 1));
                assert(s.subrange(0, i as int).last() == s[i - 1]);
            }
            if self.deltas[i - 1].0 == epoch.0 {
                return Some(self.deltas[i - 1].1);
            }
            i = i - 1;
        }
        proof {
            assert(s.subrange(0, 0) =~= Seq::<(u64, u64)>::empty());
        }
        None
    }

    /// A bond with the same amounts.
    pub fn duplicate(&self) -> (r: Bond)
        ensures
            r@ == self@,
    {
        let mut deltas: Vec<(u64, u64)> = Vec::new();
        let mut i: usize = 0;
        while i < self.deltas.len()
            invariant
                i <= self.deltas.len(),
                deltas@ == self.deltas@.subrange(0, i as int),
            decreases self.deltas.len() - i,
        {
            deltas.push(self.deltas[i]);
            assert(deltas@ =~= self.deltas@.subrange(0, i + 1));
            i = i + 1;
        }
        assert(deltas@ =~= self.deltas@);
        Bond { deltas }
    }
}

} // verus!
