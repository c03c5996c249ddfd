//! A snapshot of the external point ledger.
//!
//! The engine never reads the point source directly: each call is handed a
//! table of current point balances, mirroring a read-only collaborator whose
//! values may change between calls. Missing accounts hold zero points.

use vstd::prelude::*;

verus! {

use crate::{AccountId, PointAmount};

/// The points `entries` associates with `account`: the value of the first
/// entry for the account, or zero if there is none.
pub open spec fn points_in(entries: Seq<(AccountId, PointAmount)>, account: AccountId) -> PointAmount
    decreases entries.len(),
{
    if entries.len() == 0 {
        0
    } else if entries[0].0 == account {
        entries[0].1
    } else {
        points_in(entries.drop_first(), account)
    }
}

/// A point balance per account; the most recently set binding wins.
pub struct PointTable {
    pub entries: Vec<(AccountId, PointAmount)>,
}

impl PointTable {
    /// The points this table currently reports for `account`.
    pub open spec fn spec_points_of(self, account: AccountId) -> PointAmount {
        points_in(self.entries@, account)
    }

    /// An empty table: every account holds zero points.
    pub fn new() -> (r: PointTable)
        ensures
            forall|a: AccountId| r.spec_points_of(a) == 0,
    {
        PointTable { entries: Vec::new() }
    }

    /// Reads the current point balance of `account`.
    pub fn get_points(&self, account: AccountId) -> (r: PointAmount)
        ensures
            r == self.spec_points_of(account),
    {
        let n = self.entries.len();
        let mut i: usize = 0;
        assert(self.entries@.skip(0) =~= self.entries@);
        while i < n
            invariant
                i <= n,
                n == self.entries@.len(),
                points_in(self.entries@, account) == points_in(
                    self.entries@.skip(i as int),
                    account,
                ),
            decreases n - i,
        {
            let (a, p) = self.entries[i];
            assert(self.entries@.skip(i as int)[0] == self.entries@[i as int]);
            assert(self.entries@.skip(i as int).drop_first() =~= self.entries@.skip(i + 1));
            if a == account {
                return p;
            }
            i = i + 1;
        }
        assert(self.entries@.skip(n as int) =~= Seq::<(AccountId, PointAmount)>::empty());
        0
    }

    /// Sets the balance of `account` to `points`, leaving every other
    /// account's balance as it was.
    pub fn set_points(&mut self, account: AccountId, points: PointAmount)
        ensures
            final(self).spec_points_of(account) == points,
            forall|a: AccountId| a != account ==> final(self).spec_points_of(a) == old(
                self,
            ).spec_points_of(a),
    {
        self.entries.insert(0, (account, points));
        proof {
            assert(self.entries@[0] == (account, points));
            assert(self.entries@.drop_first() =~= old(self).entries@);
        }
    }
}

} // verus!
