//! The counting of a barrier that lets a group of parties go on together: each party
//! arrives, and the last of `n` arrivals releases them all and starts a new round.

use vstd::prelude::*;

verus! {

/// The count of a barrier for `n` parties.
#[derive(Debug)]
pub struct Barrier {
    n: u32,
    count: u32,
}

/// What an arrival does to the count of a barrier for `n` parties: the count goes up,
/// and when it reaches `n` the arrival is the last of its round and the count restarts.
pub open spec fn arrival(count: u32, n: u32) -> (u32, bool) {
    if count + 1 < n {
        ((count + 1) as u32, false)
    } else {
        (0, true)
    }
}

/// The count after `k` arrivals from the start.
pub open spec fn count_after(n: u32, k: nat) -> u32
    decreases k,
{
    if k == 0 {
        0
    } else {
        arrival(count_after(n, (k - 1) as nat), n).0
    }
}

impl Barrier {
    /// The number of parties.
    pub closed spec fn parties(&self) -> u32 {
        self.n
    }

    /// How many parties arrived in the current round.
    pub closed spec fn arrived(&self) -> u32 {
        self.count
    }

    /// The count stays below the number of parties (or at zero when there are none).
    pub open spec fn well_formed(&self) -> bool {
        self.arrived() == 0 || self.arrived() < self.parties()
    }

    /// A barrier for `n` parties, with nobody arrived.
    pub fn new(n: u32) -> (b: Barrier)
        ensures
            b.parties() == n,
            b.arrived() == 0,
            b.well_formed(),
    {
        Barrier { n, count: 0 }
    }

    /// A party arrives. Returns whether it is the last of its round, which releases the
    /// waiting parties and starts a new round.
    pub fn arrive(&mut self) -> (last: bool)
        requires
            old(self).well_formed(),
        ensures
            final(self).well_formed(),
            final(self).parties() == old(self).parties(),
            (final(self).arrived(), last) == arrival(old(self).arrived(), old(self).parties()),
    {
        let count = self.count + 1;
        if count < self.n {
            self.count = count;
            false
        } else {
            self.count = 0;
            true
        }
    }
}

/// Every `n`-th arrival releases the parties: after `k` arrivals the count is `k mod n`,
/// and arrival `k + 1` is the last of its round exactly when `k + 1` is a multiple of `n`.
pub proof fn barrier_releases_every_nth(n: u32, k: nat)
    requires
        n > 0,
    ensures
        count_after(n, k) == k % (n as nat),
        arrival(count_after(n, k), n).1 == ((k + 1) % (n as nat) == 0),
    decreases k,
{
    if k > 0 {
        barrier_releases_every_nth(n, (k - 1) as nat);
        let c = count_after(n, (k - 1) as nat);
        assert(c == (k - 1) % (n as int));
        if c + 1 < n {
            assert(k % (n as nat) == c + 1) by (nonlinear_arith)
                requires
                    c == (k - 1) % (n as int),
                    c + 1 < n,
                    n > 0,
                    k > 0,
            ;
        } else {
            assert(k % (n as nat) == 0) by (nonlinear_arith)
                requires
                    c == (k - 1) % (n as int),
                    c + 1 >= n,
                    c < n,
                    n > 0,
                    k > 0,
            ;
        }
    }
    let c = count_after(n, k);
    if c + 1 < n {
        assert((k + 1) % (n as nat) == c + 1) by (nonlinear_arith)
            requires
                c == k % (n as nat),
                c + 1 < n,
                n > 0,
        ;
    } else {
        assert((k + 1) % (n as nat) == 0) by (nonlinear_arith)
            requires
                c == k % (n as nat),
                c + 1 >= n,
                c < n,
                n > 0,
        ;
    }
}

} // verus!
