//! The token-distribution utility.
//!
//! Independently of the tournament engine, the faucet seeds users with the two
//! wagering tokens: its administrator mints a large reserve, and each user may
//! claim a fixed amount of both tokens exactly once. The engine never calls
//! the faucet; it only relies on the balances it distributes.

use vstd::prelude::*;

use crate::addr::Addr;
use crate::addr::Authority;
use crate::ledger::Ledger;

verus! {

/// Amount of each wagering token a single claim hands out.
pub const CLAIM_AMOUNT: u64 = 100_000_000_000;

/// Amount of each wagering token one reserve mint issues to the administrator.
pub const RESERVE_AMOUNT: u64 = 500_000_000_000;

/// Why a claim was rejected: each user may claim exactly once.
#[derive(Clone, Copy, Debug, PartialEq, Eq, Structural)]
pub enum FaucetError {
    AlreadyClaimed,
}

impl FaucetError {
    /// A human-readable description of the error.
    pub fn message(&self) -> &'static str {
        match self {
            FaucetError::AlreadyClaimed => "User has already claimed tokens",
        }
    }
}

/// The distribution utility: its administrator, the two wagering-token mints
/// it hands out, and the claim-once bookkeeping.
pub struct Faucet {
    pub authority: u64,
    pub wanzi_mint: u64,
    pub matchp_mint: u64,
    pub claimed_users: Vec<u64>,
}

impl Faucet {
    /// The users who have already claimed, in claim order.
    pub open spec fn spec_claimed_users(self) -> Seq<u64> {
        self.claimed_users@
    }

    /// Whether `user` has already claimed.
    pub open spec fn spec_has_claimed(self, user: u64) -> bool {
        exists|k: int|
            0 <= k < self.spec_claimed_users().len() && (#[trigger] self.spec_claimed_users()[k])
                == user
    }

    /// Sets up the distribution utility: its administrator and the two
    /// wagering-token mints, with nobody having claimed yet.
    pub fn initialize(authority: u64, wanzi_mint: u64, matchp_mint: u64) -> (f: Faucet)
        ensures
            f.authority == authority,
            f.wanzi_mint == wanzi_mint,
            f.matchp_mint == matchp_mint,
            f.spec_claimed_users().len() == 0,
    {
        Faucet { authority, wanzi_mint, matchp_mint, claimed_users: Vec::new() }
    }

    /// Whether `user` has already claimed.
    pub fn has_claimed(&self, user: u64) -> (b: bool)
        ensures
            b == self.spec_has_claimed(user),
    {
        let mut i: usize = 0;
        while i < self.claimed_users.len()
            invariant
                i <= self.claimed_users@.len(),
                forall|k: int| 0 <= k < i ==> (#[trigger] self.claimed_users@[k]) != user,
            decreases self.claimed_users@.len() - i,
        {
            if self.claimed_users[i] == user {
                proof {
                    assert(self.spec_claimed_users()[i as int] == user);
                }
                return true;
            }
            i += 1;
        }
        false
    }

    /// Mints the reserve of both wagering tokens to the administrator, who
    /// must hold both mints' issuing authorities, with room left in both
    /// supplies. Everything else is untouched.
    pub fn mint_tokens(&self, ledger: &mut Ledger)
        requires
            old(ledger).wf(),
            self.wanzi_mint != self.matchp_mint,
            old(ledger).spec_mint_authority(self.wanzi_mint) == Some(Addr::Key(self.authority)),
            old(ledger).spec_mint_authority(self.matchp_mint) == Some(Addr::Key(self.authority)),
            old(ledger).spec_supply(self.wanzi_mint) + RESERVE_AMOUNT <= u64::MAX,
            old(ledger).spec_supply(self.matchp_mint) + RESERVE_AMOUNT <= u64::MAX,
        ensures
            final(ledger).wf(),
            final(ledger).spec_balance(Addr::Key(self.authority), self.wanzi_mint) == old(
                ledger,
            ).spec_balance(Addr::Key(self.authority), self.wanzi_mint) + RESERVE_AMOUNT,
            final(ledger).spec_balance(Addr::Key(self.authority), self.matchp_mint) == old(
                ledger,
            ).spec_balance(Addr::Key(self.authority), self.matchp_mint) + RESERVE_AMOUNT,
            final(ledger).spec_supply(self.wanzi_mint) == old(ledger).spec_supply(self.wanzi_mint)
                + RESERVE_AMOUNT,
            final(ledger).spec_supply(self.matchp_mint) == old(ledger).spec_supply(
                self.matchp_mint,
            ) + RESERVE_AMOUNT,
            forall|h: Addr, m: u64|
                !(h == Addr::Key(self.authority) && (m == self.wanzi_mint || m == self.matchp_mint))
                    ==> final(ledger).spec_balance(h, m) == old(ledger).spec_balance(h, m),
            forall|m: u64|
                m != self.wanzi_mint && m != self.matchp_mint ==> final(ledger).spec_supply(m)
                    == old(ledger).spec_supply(m),
            forall|m: u64|
                final(ledger).spec_mint_authority(m) == old(ledger).spec_mint_authority(m),
    {
        let r1 = ledger.mint_to(
            self.wanzi_mint,
            Addr::Key(self.authority),
            &Authority::Signature(self.authority),
            RESERVE_AMOUNT,
        );
        proof {
            assert(r1 is Ok);
        }
        let r2 = ledger.mint_to(
            self.matchp_mint,
            Addr::Key(self.authority),
            &Authority::Signature(self.authority),
            RESERVE_AMOUNT,
        );
        proof {
            assert(r2 is Ok);
        }
    }

    /// Hands `user` the fixed claim of both wagering tokens out of the
    /// administrator's reserve, and records the claim — at most once per user:
    /// a repeat claim fails with `AlreadyClaimed` and moves nothing. The
    /// administrator authorizes the transfers, and the reserve must cover the
    /// claim in both tokens.
    pub fn claim_tokens(&mut self, ledger: &mut Ledger, authority: u64, user: u64) -> (r: Result<
        (),
        FaucetError,
    >)
        requires
            old(ledger).wf(),
            authority == old(self).authority,
            old(self).wanzi_mint != old(self).matchp_mint,
            old(ledger).spec_balance(Addr::Key(old(self).authority), old(self).wanzi_mint)
                >= CLAIM_AMOUNT,
            old(ledger).spec_balance(Addr::Key(old(self).authority), old(self).matchp_mint)
                >= CLAIM_AMOUNT,
        ensures
            final(ledger).wf(),
            final(self).authority == old(self).authority,
            final(self).wanzi_mint == old(self).wanzi_mint,
            final(self).matchp_mint == old(self).matchp_mint,
            r is Ok <==> !old(self).spec_has_claimed(user),
            r is Err ==> r == Err::<(), FaucetError>(FaucetError::AlreadyClaimed) && *final(self)
                == *old(self) && *final(ledger) == *old(ledger),
            r is Ok ==> final(self).spec_claimed_users() == old(self).spec_claimed_users().push(
                user,
            ),
            r is Ok && user == old(self).authority ==> *final(ledger) == *old(ledger),
            r is Ok && user != old(self).authority ==> {
                &&& final(ledger).spec_balance(Addr::Key(user), old(self).wanzi_mint) == old(
                    ledger,
                ).spec_balance(Addr::Key(user), old(self).wanzi_mint) + CLAIM_AMOUNT
                &&& final(ledger).spec_balance(Addr::Key(user), old(self).matchp_mint) == old(
                    ledger,
                ).spec_balance(Addr::Key(user), old(self).matchp_mint) + CLAIM_AMOUNT
                &&& final(ledger).spec_balance(Addr::Key(old(self).authority), old(self).wanzi_mint)
                    == old(ledger).spec_balance(Addr::Key(old(self).authority), old(self).wanzi_mint)
                    - CLAIM_AMOUNT
                &&& final(ledger).spec_balance(
                    Addr::Key(old(self).authority),
                    old(self).matchp_mint,
                ) == old(ledger).spec_balance(
                    Addr::Key(old(self).authority),
                    old(self).matchp_mint,
                ) - CLAIM_AMOUNT
                &&& forall|h: Addr, m: u64|
                    h != Addr::Key(old(self).authority) && h != Addr::Key(user)
                        ==> final(ledger).spec_balance(h, m) == old(ledger).spec_balance(h, m)
            },
            forall|m: u64| final(ledger).spec_supply(m) == old(ledger).spec_supply(m),
            forall|m: u64|
                final(ledger).spec_mint_authority(m) == old(ledger).spec_mint_authority(m),
    {
        if self.has_claimed(user) {
            return Err(FaucetError::AlreadyClaimed);
        }
        let r1 = ledger.transfer(
            self.wanzi_mint,
            Addr::Key(self.authority),
            Addr::Key(user),
            &Authority::Signature(self.authority),
            CLAIM_AMOUNT,
        );
        proof {
            assert(r1 is Ok);
        }
        let r2 = ledger.transfer(
            self.matchp_mint,
            Addr::Key(self.authority),
            Addr::Key(user),
            &Authority::Signature(self.authority),
            CLAIM_AMOUNT,
        );
        proof {
            assert(r2 is Ok);
        }
        self.claimed_users.push(user);
        proof {
            assert(self.spec_claimed_users() =~= old(self).spec_claimed_users().push(user));
        }
        Ok(())
    }
}

} // verus!
