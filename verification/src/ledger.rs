//! The fungible-token custody model.
//!
//! A [`Ledger`] registers mints and tracks one holding account per
//! (holder, mint) pair. Movement out of an account requires an [`Authority`]
//! that the ledger verifies against the account's holder by recomputing the
//! derivation — a signature moves funds only from a keypair-held address, a
//! derivation proof only from the matching derived address. Transfers conserve
//! a mint's circulating supply; minting and burning change it by exactly the
//! requested amount, and minting fails rather than letting a supply overflow.

use vstd::prelude::*;

use crate::addr::Addr;
use crate::addr::Authority;
use crate::addr::spec_controls;
use crate::addr::verify_authority;

verus! {

/// Why a transfer was rejected: the source balance is below the requested
/// amount, or the presented authority does not control the source holder.
#[derive(Clone, Copy, Debug, PartialEq, Eq, Structural)]
pub enum TransferError {
    InsufficientFunds,
    NotAuthorized,
}

/// Why a mint operation was rejected.
#[derive(Clone, Copy, Debug, PartialEq, Eq, Structural)]
pub enum MintError {
    /// A mint with this identifier is already registered.
    MintAlreadyExists,
    /// No mint with this identifier is registered.
    UnknownMint,
    /// The presented authority does not control the mint's issuing authority.
    NotAuthorized,
    /// Issuing this amount would overflow the mint's circulating supply.
    SupplyOverflow,
}

/// Why a burn was rejected: the source balance is below the requested amount,
/// or the presented authority does not control the source holder.
#[derive(Clone, Copy, Debug, PartialEq, Eq, Structural)]
pub enum BurnError {
    InsufficientFunds,
    NotAuthorized,
}

/// A registered token kind: its identifier, who may issue new units, and the
/// number of units currently in circulation.
#[derive(Clone, Copy, Debug, PartialEq, Eq, Structural)]
pub struct Mint {
    pub id: u64,
    pub authority: Addr,
    pub supply: u64,
}

/// One holding account: the balance of `holder` in token `mint`.
#[derive(Clone, Copy, Debug, PartialEq, Eq, Structural)]
pub struct TokenAccount {
    pub holder: Addr,
    pub mint: u64,
    pub amount: u64,
}

/// What one account contributes to the balance of `(holder, mint)`.
pub open spec fn balance_term(a: TokenAccount, holder: Addr, mint: u64) -> int {
    if a.holder == holder && a.mint == mint {
        a.amount as int
    } else {
        0
    }
}

/// The balance of `(holder, mint)` over a sequence of accounts.
pub open spec fn balance_in(s: Seq<TokenAccount>, holder: Addr, mint: u64) -> int
    decreases s.len(),
{
    if s.len() == 0 {
        0
    } else {
        balance_in(s.drop_last(), holder, mint) + balance_term(s.last(), holder, mint)
    }
}

/// What one account contributes to the circulating supply of `mint`.
pub open spec fn supply_term(a: TokenAccount, mint: u64) -> int {
    if a.mint == mint {
        a.amount as int
    } else {
        0
    }
}

/// The circulating supply of `mint` over a sequence of accounts.
pub open spec fn supply_in(s: Seq<TokenAccount>, mint: u64) -> int
    decreases s.len(),
{
    if s.len() == 0 {
        0
    } else {
        supply_in(s.drop_last(), mint) + supply_term(s.last(), mint)
    }
}

/// No two accounts share a (holder, mint) pair.
pub open spec fn accounts_unique(s: Seq<TokenAccount>) -> bool {
    forall|i: int, j: int|
        0 <= i < j < s.len() ==> !(#[trigger] s[i].holder == #[trigger] s[j].holder
            && s[i].mint == s[j].mint)
}

/// No two mints share an identifier.
pub open spec fn mints_unique(s: Seq<Mint>) -> bool {
    forall|i: int, j: int| 0 <= i < j < s.len() ==> (#[trigger] s[i].id) != (#[trigger] s[j].id)
}

/// The issuing authority of `mint` over a sequence of registered mints.
pub open spec fn mint_authority_in(s: Seq<Mint>, mint: u64) -> Option<Addr>
    decreases s.len(),
{
    if s.len() == 0 {
        None
    } else if s.last().id == mint {
        Some(s.last().authority)
    } else {
        mint_authority_in(s.drop_last(), mint)
    }
}

proof fn lemma_mint_authority_absent(s: Seq<Mint>, mint: u64)
    requires
        forall|k: int| 0 <= k < s.len() ==> (#[trigger] s[k]).id != mint,
    ensures
        mint_authority_in(s, mint) is None,
    decreases s.len(),
{
    if s.len() > 0 {
        assert(forall|k: int| 0 <= k < s.len() - 1 ==> s.drop_last()[k] == s[k]);
        lemma_mint_authority_absent(s.drop_last(), mint);
    }
}

/// With unique identifiers, a found entry is the registered one.
proof fn lemma_mint_authority_at(s: Seq<Mint>, i: int)
    requires
        mints_unique(s),
        0 <= i < s.len(),
    ensures
        mint_authority_in(s, s[i].id) == Some(s[i].authority),
    decreases s.len(),
{
    if i == s.len() - 1 {
    } else {
        assert(forall|k: int| 0 <= k < s.len() - 1 ==> s.drop_last()[k] == s[k]);
        lemma_mint_authority_at(s.drop_last(), i);
    }
}

/// Replacing one mint entry without changing its identifier or authority
/// leaves every registered authority as it was.
proof fn lemma_mint_authority_update(s: Seq<Mint>, i: int, a: Mint, mint: u64)
    requires
        0 <= i < s.len(),
        a.id == s[i].id,
        a.authority == s[i].authority,
    ensures
        mint_authority_in(s.update(i, a), mint) == mint_authority_in(s, mint),
    decreases s.len(),
{
    if i == s.len() - 1 {
        assert(s.update(i, a).drop_last() =~= s.drop_last());
    } else {
        assert(s.update(i, a).drop_last() =~= s.drop_last().update(i, a));
        lemma_mint_authority_update(s.drop_last(), i, a, mint);
    }
}

proof fn lemma_balance_push(s: Seq<TokenAccount>, a: TokenAccount, holder: Addr, mint: u64)
    ensures
        balance_in(s.push(a), holder, mint) == balance_in(s, holder, mint) + balance_term(
            a,
            holder,
            mint,
        ),
{
    assert(s.push(a).drop_last() =~= s);
}

proof fn lemma_balance_update(
    s: Seq<TokenAccount>,
    i: int,
    a: TokenAccount,
    holder: Addr,
    mint: u64,
)
    requires
        0 <= i < s.len(),
    ensures
        balance_in(s.update(i, a), holder, mint) == balance_in(s, holder, mint) - balance_term(
            s[i],
            holder,
            mint,
        ) + balance_term(a, holder, mint),
    decreases s.len(),
{
    if i == s.len() - 1 {
        assert(s.update(i, a).drop_last() =~= s.drop_last());
    } else {
        assert(s.update(i, a).drop_last() =~= s.drop_last().update(i, a));
        lemma_balance_update(s.drop_last(), i, a, holder, mint);
    }
}

proof fn lemma_balance_absent(s: Seq<TokenAccount>, holder: Addr, mint: u64)
    requires
        forall|k: int|
            0 <= k < s.len() ==> !((#[trigger] s[k]).holder == holder && s[k].mint == mint),
    ensures
        balance_in(s, holder, mint) == 0,
    decreases s.len(),
{
    if s.len() > 0 {
        assert(forall|k: int|
            0 <= k < s.drop_last().len() ==> s.drop_last()[k] == s[k]);
        lemma_balance_absent(s.drop_last(), holder, mint);
    }
}

/// With unique (holder, mint) pairs, the balance is exactly the one matching
/// entry's amount.
proof fn lemma_balance_at(s: Seq<TokenAccount>, i: int, holder: Addr, mint: u64)
    requires
        accounts_unique(s),
        0 <= i < s.len(),
        s[i].holder == holder,
        s[i].mint == mint,
    ensures
        balance_in(s, holder, mint) == s[i].amount as int,
    decreases s.len(),
{
    if i == s.len() - 1 {
        assert(forall|k: int|
            0 <= k < s.drop_last().len() ==> !((#[trigger] s.drop_last()[k]).holder == holder
                && s.drop_last()[k].mint == mint)) by {
            assert(forall|k: int| 0 <= k < s.len() - 1 ==> s.drop_last()[k] == s[k]);
        }
        lemma_balance_absent(s.drop_last(), holder, mint);
    } else {
        assert(forall|k: int| 0 <= k < s.len() - 1 ==> s.drop_last()[k] == s[k]);
        lemma_balance_at(s.drop_last(), i, holder, mint);
        assert(balance_term(s.last(), holder, mint) == 0);
    }
}

proof fn lemma_supply_push(s: Seq<TokenAccount>, a: TokenAccount, mint: u64)
    ensures
        supply_in(s.push(a), mint) == supply_in(s, mint) + supply_term(a, mint),
{
    assert(s.push(a).drop_last() =~= s);
}

proof fn lemma_supply_update(s: Seq<TokenAccount>, i: int, a: TokenAccount, mint: u64)
    requires
        0 <= i < s.len(),
    ensures
        supply_in(s.update(i, a), mint) == supply_in(s, mint) - supply_term(s[i], mint)
            + supply_term(a, mint),
    decreases s.len(),
{
    if i == s.len() - 1 {
        assert(s.update(i, a).drop_last() =~= s.drop_last());
    } else {
        assert(s.update(i, a).drop_last() =~= s.drop_last().update(i, a));
        lemma_supply_update(s.drop_last(), i, a, mint);
    }
}

proof fn lemma_supply_absent(s: Seq<TokenAccount>, mint: u64)
    requires
        forall|k: int| 0 <= k < s.len() ==> (#[trigger] s[k]).mint != mint,
    ensures
        supply_in(s, mint) == 0,
    decreases s.len(),
{
    if s.len() > 0 {
        assert(forall|k: int| 0 <= k < s.len() - 1 ==> s.drop_last()[k] == s[k]);
        lemma_supply_absent(s.drop_last(), mint);
    }
}

/// Every balance is bounded by its mint's circulating supply.
proof fn lemma_balance_le_supply(s: Seq<TokenAccount>, holder: Addr, mint: u64)
    ensures
        balance_in(s, holder, mint) <= supply_in(s, mint),
    decreases s.len(),
{
    if s.len() > 0 {
        lemma_balance_le_supply(s.drop_last(), holder, mint);
    }
}

/// Replacing an entry without changing its key keeps account keys unique.
proof fn lemma_unique_update(s: Seq<TokenAccount>, i: int, a: TokenAccount)
    requires
        accounts_unique(s),
        0 <= i < s.len(),
        a.holder == s[i].holder,
        a.mint == s[i].mint,
    ensures
        accounts_unique(s.update(i, a)),
{
    let t = s.update(i, a);
    assert forall|x: int, y: int| 0 <= x < y < t.len() implies !(#[trigger] t[x].holder
        == #[trigger] t[y].holder && t[x].mint == t[y].mint) by {
        assert(t[x].holder == s[x].holder && t[x].mint == s[x].mint);
        assert(t[y].holder == s[y].holder && t[y].mint == s[y].mint);
    }
}

/// Appending an account whose key is not yet present keeps keys unique.
proof fn lemma_unique_push(s: Seq<TokenAccount>, a: TokenAccount)
    requires
        accounts_unique(s),
        forall|k: int|
            0 <= k < s.len() ==> !((#[trigger] s[k]).holder == a.holder && s[k].mint == a.mint),
    ensures
        accounts_unique(s.push(a)),
{
    let t = s.push(a);
    assert forall|x: int, y: int| 0 <= x < y < t.len() implies !(#[trigger] t[x].holder
        == #[trigger] t[y].holder && t[x].mint == t[y].mint) by {
        if y < s.len() {
            assert(t[x] == s[x] && t[y] == s[y]);
        } else {
            assert(t[x] == s[x] && t[y] == a);
        }
    }
}

/// An index holding the registered entry for `mint`, when one exists.
proof fn lemma_mint_authority_some_index(s: Seq<Mint>, mint: u64) -> (i: int)
    requires
        mint_authority_in(s, mint) is Some,
    ensures
        0 <= i < s.len(),
        s[i].id == mint,
    decreases s.len(),
{
    if s.last().id == mint {
        s.len() - 1
    } else {
        let i = lemma_mint_authority_some_index(s.drop_last(), mint);
        assert(s.drop_last()[i] == s[i]);
        i
    }
}

/// The custody service: registered mints and the holding accounts of each
/// (holder, mint) pair.
pub struct Ledger {
    mints: Vec<Mint>,
    accounts: Vec<TokenAccount>,
}

impl Ledger {
    /// The registered mints.
    pub closed spec fn spec_mints(self) -> Seq<Mint> {
        self.mints@
    }

    /// The holding accounts.
    pub closed spec fn spec_accounts(self) -> Seq<TokenAccount> {
        self.accounts@
    }

    /// The balance of `(holder, mint)`; 0 if no such account exists.
    pub closed spec fn spec_balance(self, holder: Addr, mint: u64) -> int {
        balance_in(self.accounts@, holder, mint)
    }

    /// The circulating supply of `mint`: the sum of all balances in it.
    pub closed spec fn spec_supply(self, mint: u64) -> int {
        supply_in(self.accounts@, mint)
    }

    /// The issuing authority of `mint`, if it is registered.
    pub closed spec fn spec_mint_authority(self, mint: u64) -> Option<Addr> {
        mint_authority_in(self.mints@, mint)
    }

    /// Internal consistency: account keys and mint identifiers are unique,
    /// every account's mint is registered, and every registered mint's stored
    /// supply equals the sum of the balances held in it.
    pub closed spec fn wf(self) -> bool {
        &&& accounts_unique(self.accounts@)
        &&& mints_unique(self.mints@)
        &&& forall|k: int|
            0 <= k < self.accounts@.len() ==> self.spec_mint_authority(
                (#[trigger] self.accounts@[k]).mint,
            ) is Some
        &&& forall|k: int|
            0 <= k < self.mints@.len() ==> (#[trigger] self.mints@[k]).supply as int == supply_in(
                self.accounts@,
                self.mints@[k].id,
            )
    }

    /// An empty ledger: no mints, no accounts, every balance zero.
    pub fn new() -> (l: Ledger)
        ensures
            l.wf(),
            forall|h: Addr, m: u64| l.spec_balance(h, m) == 0,
            forall|m: u64| l.spec_supply(m) == 0,
            forall|m: u64| l.spec_mint_authority(m) is None,
    {
        Ledger { mints: Vec::new(), accounts: Vec::new() }
    }

    /// Index of the account of `(holder, mint)`, if one exists.
    fn find_account(&self, holder: Addr, mint: u64) -> (o: Option<usize>)
        ensures
            match o {
                Some(i) => i < self.accounts@.len() && self.accounts@[i as int].holder == holder
                    && self.accounts@[i as int].mint == mint,
                None => forall|k: int|
                    0 <= k < self.accounts@.len() ==> !((#[trigger] self.accounts@[k]).holder
                        == holder && self.accounts@[k].mint == mint),
            },
    {
        let mut i: usize = 0;
        while i < self.accounts.len()
            invariant
                i <= self.accounts@.len(),
                forall|k: int|
                    0 <= k < i ==> !((#[trigger] self.accounts@[k]).holder == holder
                        && self.accounts@[k].mint == mint),
            decreases self.accounts@.len() - i,
        {
            if self.accounts[i].holder == holder && self.accounts[i].mint == mint {
                return Some(i);
            }
            i += 1;
        }
        None
    }

    /// Index of the registered mint `mint`, if any.
    fn find_mint(&self, mint: u64) -> (o: Option<usize>)
        ensures
            match o {
                Some(i) => i < self.mints@.len() && self.mints@[i as int].id == mint,
                None => forall|k: int|
                    0 <= k < self.mints@.len() ==> (#[trigger] self.mints@[k]).id != mint,
            },
    {
        let mut i: usize = 0;
        while i < self.mints.len()
            invariant
                i <= self.mints@.len(),
                forall|k: int| 0 <= k < i ==> (#[trigger] self.mints@[k]).id != mint,
            decreases self.mints@.len() - i,
        {
            if self.mints[i].id == mint {
                return Some(i);
            }
            i += 1;
        }
        None
    }

    /// The balance of `(holder, mint)`, read off the ledger.
    pub fn balance_of(&self, holder: Addr, mint: u64) -> (b: u64)
        requires
            self.wf(),
        ensures
            b as int == self.spec_balance(holder, mint),
    {
        match self.find_account(holder, mint) {
            Some(i) => {
                proof {
                    lemma_balance_at(self.accounts@, i as int, holder, mint);
                }
                self.accounts[i].amount
            },
            None => {
                proof {
                    lemma_balance_absent(self.accounts@, holder, mint);
                }
                0
            },
        }
    }

    /// The circulating supply of `mint`; 0 if it is not registered.
    pub fn supply_of(&self, mint: u64) -> (s: u64)
        requires
            self.wf(),
        ensures
            s as int == self.spec_supply(mint),
    {
        match self.find_mint(mint) {
            Some(i) => self.mints[i].supply,
            None => {
                proof {
                    lemma_mint_authority_absent(self.mints@, mint);
                    assert forall|k: int|
                        0 <= k < self.accounts@.len() implies (#[trigger] self.accounts@[k]).mint
                        != mint by {
                        assert(self.spec_mint_authority(self.accounts@[k].mint) is Some);
                    }
                    lemma_supply_absent(self.accounts@, mint);
                }
                0
            },
        }
    }

    /// The issuing authority of `mint`, if it is registered.
    pub fn mint_authority_of(&self, mint: u64) -> (a: Option<Addr>)
        requires
            self.wf(),
        ensures
            a == self.spec_mint_authority(mint),
    {
        match self.find_mint(mint) {
            Some(i) => {
                proof {
                    lemma_mint_authority_at(self.mints@, i as int);
                }
                Some(self.mints[i].authority)
            },
            None => {
                proof {
                    lemma_mint_authority_absent(self.mints@, mint);
                }
                None
            },
        }
    }

    /// Registers a new mint with its issuing authority and zero circulating
    /// supply; fails if a mint with this identifier is already registered.
    pub fn create_mint(&mut self, id: u64, authority: Addr) -> (r: Result<(), MintError>)
        requires
            old(self).wf(),
        ensures
            final(self).wf(),
            r is Ok <==> old(self).spec_mint_authority(id) is None,
            r is Err ==> r == Err::<(), MintError>(MintError::MintAlreadyExists) && *final(self)
                == *old(self),
            r is Ok ==> final(self).spec_mint_authority(id) == Some(authority),
            forall|m: u64|
                m != id ==> final(self).spec_mint_authority(m) == old(self).spec_mint_authority(m),
            forall|h: Addr, m: u64|
                final(self).spec_balance(h, m) == old(self).spec_balance(h, m),
            forall|m: u64| final(self).spec_supply(m) == old(self).spec_supply(m),
    {
        match self.find_mint(id) {
            Some(i) => {
                proof {
                    lemma_mint_authority_at(self.mints@, i as int);
                }
                Err(MintError::MintAlreadyExists)
            },
            None => {
                proof {
                    lemma_mint_authority_absent(self.mints@, id);
                }
                let ghost l0 = *self;
                self.mints.push(Mint { id, authority, supply: 0 });
                proof {
                    assert(self.mints@.drop_last() =~= l0.mints@);
                    assert forall|k: int|
                        0 <= k < self.accounts@.len() implies (#[trigger] self.accounts@[k]).mint
                        != id by {
                        assert(l0.spec_mint_authority(self.accounts@[k].mint) is Some);
                    }
                    lemma_supply_absent(self.accounts@, id);
                }
                Ok(())
            },
        }
    }

    /// Moves `amount` units of `mint` from `from` to `to`. Succeeds exactly
    /// when the presented authority controls `from` and `from`'s balance
    /// covers the amount; a rejected transfer changes nothing. No transfer
    /// changes any circulating supply or any other balance.
    pub fn transfer(
        &mut self,
        mint: u64,
        from: Addr,
        to: Addr,
        authority: &Authority,
        amount: u64,
    ) -> (r: Result<(), TransferError>)
        requires
            old(self).wf(),
        ensures
            final(self).wf(),
            r is Ok <==> spec_controls(*authority, from) && amount as int <= old(self).spec_balance(
                from,
                mint,
            ),
            !spec_controls(*authority, from) ==> r == Err::<(), TransferError>(
                TransferError::NotAuthorized,
            ),
            spec_controls(*authority, from) && old(self).spec_balance(from, mint) < amount as int
                ==> r == Err::<(), TransferError>(TransferError::InsufficientFunds),
            r is Err ==> *final(self) == *old(self),
            r is Ok && from == to ==> *final(self) == *old(self),
            r is Ok && from != to ==> final(self).spec_balance(from, mint) == old(
                self,
            ).spec_balance(from, mint) - amount,
            r is Ok && from != to ==> final(self).spec_balance(to, mint) == old(self).spec_balance(
                to,
                mint,
            ) + amount,
            forall|h: Addr, m: u64|
                !(h == from && m == mint) && !(h == to && m == mint) ==> final(self).spec_balance(
                    h,
                    m,
                ) == old(self).spec_balance(h, m),
            forall|m: u64| final(self).spec_supply(m) == old(self).spec_supply(m),
            forall|m: u64| final(self).spec_mint_authority(m) == old(self).spec_mint_authority(m),
    {
        if !verify_authority(authority, &from) {
            return Err(TransferError::NotAuthorized);
        }
        match self.find_account(from, mint) {
            None => {
                proof {
                    lemma_balance_absent(self.accounts@, from, mint);
                }
                if amount > 0 {
                    Err(TransferError::InsufficientFunds)
                } else {
                    Ok(())
                }
            },
            Some(i) => {
                proof {
                    lemma_balance_at(self.accounts@, i as int, from, mint);
                }
                let cur = self.accounts[i].amount;
                if amount > cur {
                    return Err(TransferError::InsufficientFunds);
                }
                if from == to {
                    return Ok(());
                }
                let ghost l0 = *self;
                let debited = TokenAccount { holder: from, mint, amount: cur - amount };
                self.accounts[i] = debited;
                proof {
                    lemma_unique_update(l0.accounts@, i as int, debited);
                    assert forall|h: Addr, m: u64|
                        #[trigger] balance_in(self.accounts@, h, m) == balance_in(
                            l0.accounts@,
                            h,
                            m,
                        ) - balance_term(l0.accounts@[i as int], h, m) + balance_term(
                            debited,
                            h,
                            m,
                        ) by {
                        lemma_balance_update(l0.accounts@, i as int, debited, h, m);
                    }
                    assert forall|m: u64|
                        #[trigger] supply_in(self.accounts@, m) == supply_in(l0.accounts@, m)
                            - supply_term(l0.accounts@[i as int], m) + supply_term(debited, m) by {
                        lemma_supply_update(l0.accounts@, i as int, debited, m);
                    }
                }
                let ghost l1 = *self;
                match self.find_account(to, mint) {
                    Some(j) => {
                        proof {
                            lemma_balance_at(l1.accounts@, j as int, to, mint);
                            lemma_balance_le_supply(l1.accounts@, to, mint);
                            let k = lemma_mint_authority_some_index(l0.mints@, mint);
                            assert(l0.mints@[k].supply as int == supply_in(l0.accounts@, mint));
                        }
                        let curto = self.accounts[j].amount;
                        let credited = TokenAccount { holder: to, mint, amount: curto + amount };
                        self.accounts[j] = credited;
                        proof {
                            lemma_unique_update(l1.accounts@, j as int, credited);
                            assert forall|h: Addr, m: u64|
                                #[trigger] balance_in(self.accounts@, h, m) == balance_in(
                                    l1.accounts@,
                                    h,
                                    m,
                                ) - balance_term(l1.accounts@[j as int], h, m) + balance_term(
                                    credited,
                                    h,
                                    m,
                                ) by {
                                lemma_balance_update(l1.accounts@, j as int, credited, h, m);
                            }
                            assert forall|m: u64|
                                #[trigger] supply_in(self.accounts@, m) == supply_in(
                                    l1.accounts@,
                                    m,
                                ) - supply_term(l1.accounts@[j as int], m) + supply_term(
                                    credited,
                                    m,
                                ) by {
                                lemma_supply_update(l1.accounts@, j as int, credited, m);
                            }
                        }
                    },
                    None => {
                        proof {
                            lemma_balance_absent(l1.accounts@, to, mint);
                        }
                        let credited = TokenAccount { holder: to, mint, amount };
                        self.accounts.push(credited);
                        proof {
                            lemma_unique_push(l1.accounts@, credited);
                            assert forall|h: Addr, m: u64|
                                #[trigger] balance_in(self.accounts@, h, m) == balance_in(
                                    l1.accounts@,
                                    h,
                                    m,
                                ) + balance_term(credited, h, m) by {
                                lemma_balance_push(l1.accounts@, credited, h, m);
                            }
                            assert forall|m: u64|
                                #[trigger] supply_in(self.accounts@, m) == supply_in(
                                    l1.accounts@,
                                    m,
                                ) + supply_term(credited, m) by {
                                lemma_supply_push(l1.accounts@, credited, m);
                            }
                        }
                    },
                }
                Ok(())
            },
        }
    }

    /// Issues `amount` new units of `mint` to `to`. Succeeds exactly when the
    /// mint is registered, the presented authority controls its issuing
    /// authority, and the enlarged supply still fits; a rejected call changes
    /// nothing.
    pub fn mint_to(&mut self, mint: u64, to: Addr, authority: &Authority, amount: u64) -> (r:
        Result<(), MintError>)
        requires
            old(self).wf(),
        ensures
            final(self).wf(),
            old(self).spec_mint_authority(mint) is None ==> r == Err::<(), MintError>(
                MintError::UnknownMint,
            ),
            old(self).spec_mint_authority(mint) matches Some(ma) && !spec_controls(*authority, ma)
                ==> r == Err::<(), MintError>(MintError::NotAuthorized),
            old(self).spec_mint_authority(mint) matches Some(ma) && spec_controls(*authority, ma)
                && old(self).spec_supply(mint) + amount > u64::MAX ==> r == Err::<(), MintError>(
                MintError::SupplyOverflow,
            ),
            r is Ok <==> (old(self).spec_mint_authority(mint) matches Some(ma) && spec_controls(
                *authority,
                ma,
            ) && old(self).spec_supply(mint) + amount <= u64::MAX),
            r is Err ==> *final(self) == *old(self),
            r is Ok ==> final(self).spec_balance(to, mint) == old(self).spec_balance(to, mint)
                + amount,
            r is Ok ==> final(self).spec_supply(mint) == old(self).spec_supply(mint) + amount,
            forall|h: Addr, m: u64|
                !(h == to && m == mint) ==> final(self).spec_balance(h, m) == old(
                    self,
                ).spec_balance(h, m),
            forall|m: u64| m != mint ==> final(self).spec_supply(m) == old(self).spec_supply(m),
            forall|m: u64| final(self).spec_mint_authority(m) == old(self).spec_mint_authority(m),
    {
        match self.find_mint(mint) {
            None => {
                proof {
                    lemma_mint_authority_absent(self.mints@, mint);
                }
                Err(MintError::UnknownMint)
            },
            Some(k) => {
                proof {
                    lemma_mint_authority_at(self.mints@, k as int);
                }
                let entry = self.mints[k];
                if !verify_authority(authority, &entry.authority) {
                    return Err(MintError::NotAuthorized);
                }
                if amount > u64::MAX - entry.supply {
                    return Err(MintError::SupplyOverflow);
                }
                let ghost l0 = *self;
                let grown = Mint { id: mint, authority: entry.authority, supply: entry.supply
                    + amount };
                self.mints[k] = grown;
                proof {
                    assert forall|x: int, y: int|
                        0 <= x < y < self.mints@.len() implies (#[trigger] self.mints@[x].id)
                        != (#[trigger] self.mints@[y].id) by {
                        assert(self.mints@[x].id == l0.mints@[x].id);
                        assert(self.mints@[y].id == l0.mints@[y].id);
                    }
                    assert forall|m: u64|
                        #[trigger] mint_authority_in(self.mints@, m) == mint_authority_in(
                            l0.mints@,
                            m,
                        ) by {
                        lemma_mint_authority_update(l0.mints@, k as int, grown, m);
                    }
                }
                let ghost l1 = *self;
                match self.find_account(to, mint) {
                    Some(j) => {
                        proof {
                            lemma_balance_at(l1.accounts@, j as int, to, mint);
                            lemma_balance_le_supply(l1.accounts@, to, mint);
                        }
                        let curto = self.accounts[j].amount;
                        let credited = TokenAccount { holder: to, mint, amount: curto + amount };
                        self.accounts[j] = credited;
                        proof {
                            lemma_unique_update(l1.accounts@, j as int, credited);
                            assert forall|h: Addr, m: u64|
                                #[trigger] balance_in(self.accounts@, h, m) == balance_in(
                                    l1.accounts@,
                                    h,
                                    m,
                                ) - balance_term(l1.accounts@[j as int], h, m) + balance_term(
                                    credited,
                                    h,
                                    m,
                                ) by {
                                lemma_balance_update(l1.accounts@, j as int, credited, h, m);
                            }
                            assert forall|m: u64|
                                #[trigger] supply_in(self.accounts@, m) == supply_in(
                                    l1.accounts@,
                                    m,
                                ) - supply_term(l1.accounts@[j as int], m) + supply_term(
                                    credited,
                                    m,
                                ) by {
                                lemma_supply_update(l1.accounts@, j as int, credited, m);
                            }
                        }
                    },
                    None => {
                        proof {
                            lemma_balance_absent(l1.accounts@, to, mint);
                        }
                        let credited = TokenAccount { holder: to, mint, amount };
                        self.accounts.push(credited);
                        proof {
                            lemma_unique_push(l1.accounts@, credited);
                            assert forall|h: Addr, m: u64|
                                #[trigger] balance_in(self.accounts@, h, m) == balance_in(
                                    l1.accounts@,
                                    h,
                                    m,
                                ) + balance_term(credited, h, m) by {
                                lemma_balance_push(l1.accounts@, credited, h, m);
                            }
                            assert forall|m: u64|
                                #[trigger] supply_in(self.accounts@, m) == supply_in(
                                    l1.accounts@,
                                    m,
                                ) + supply_term(credited, m) by {
                                lemma_supply_push(l1.accounts@, credited, m);
                            }
                        }
                    },
                }
                Ok(())
            },
        }
    }

    /// Destroys `amount` units of `mint` held by `from`, shrinking the
    /// circulating supply by the same amount. Succeeds exactly when the
    /// presented authority controls `from` and `from`'s balance covers the
    /// amount; a rejected call changes nothing.
    pub fn burn(&mut self, mint: u64, from: Addr, authority: &Authority, amount: u64) -> (r: Result<
        (),
        BurnError,
    >)
        requires
            old(self).wf(),
        ensures
            final(self).wf(),
            r is Ok <==> spec_controls(*authority, from) && amount as int <= old(self).spec_balance(
                from,
                mint,
            ),
            !spec_controls(*authority, from) ==> r == Err::<(), BurnError>(
                BurnError::NotAuthorized,
            ),
            spec_controls(*authority, from) && old(self).spec_balance(from, mint) < amount as int
                ==> r == Err::<(), BurnError>(BurnError::InsufficientFunds),
            r is Err ==> *final(self) == *old(self),
            r is Ok ==> final(self).spec_balance(from, mint) == old(self).spec_balance(from, mint)
                - amount,
            r is Ok ==> final(self).spec_supply(mint) == old(self).spec_supply(mint) - amount,
            forall|h: Addr, m: u64|
                !(h == from && m == mint) ==> final(self).spec_balance(h, m) == old(
                    self,
                ).spec_balance(h, m),
            forall|m: u64| m != mint ==> final(self).spec_supply(m) == old(self).spec_supply(m),
            forall|m: u64| final(self).spec_mint_authority(m) == old(self).spec_mint_authority(m),
    {
        if !verify_authority(authority, &from) {
            return Err(BurnError::NotAuthorized);
        }
        match self.find_account(from, mint) {
            None => {
                proof {
                    lemma_balance_absent(self.accounts@, from, mint);
                }
                if amount > 0 {
                    Err(BurnError::InsufficientFunds)
                } else {
                    Ok(())
                }
            },
            Some(i) => {
                proof {
                    lemma_balance_at(self.accounts@, i as int, from, mint);
                }
                let cur = self.accounts[i].amount;
                if amount > cur {
                    return Err(BurnError::InsufficientFunds);
                }
                let ghost l0 = *self;
                let debited = TokenAccount { holder: from, mint, amount: cur - amount };
                self.accounts[i] = debited;
                proof {
                    lemma_unique_update(l0.accounts@, i as int, debited);
                    assert forall|h: Addr, m: u64|
                        #[trigger] balance_in(self.accounts@, h, m) == balance_in(
                            l0.accounts@,
                            h,
                            m,
                        ) - balance_term(l0.accounts@[i as int], h, m) + balance_term(
                            debited,
                            h,
                            m,
                        ) by {
                        lemma_balance_update(l0.accounts@, i as int, debited, h, m);
                    }
                    assert forall|m: u64|
                        #[trigger] supply_in(self.accounts@, m) == supply_in(l0.accounts@, m)
                            - supply_term(l0.accounts@[i as int], m) + supply_term(debited, m) by {
                        lemma_supply_update(l0.accounts@, i as int, debited, m);
                    }
                }
                let ghost l1 = *self;
                match self.find_mint(mint) {
                    Some(k) => {
                        proof {
                            lemma_mint_authority_at(l1.mints@, k as int);
                            lemma_balance_le_supply(l0.accounts@, from, mint);
                        }
                        let entry = self.mints[k];
                        let shrunk = Mint { id: mint, authority: entry.authority, supply:
                            entry.supply - amount };
                        self.mints[k] = shrunk;
                        proof {
                            assert forall|x: int, y: int|
                                0 <= x < y < self.mints@.len() implies (#[trigger]
                                self.mints@[x].id) != (#[trigger] self.mints@[y].id) by {
                                assert(self.mints@[x].id == l1.mints@[x].id);
                                assert(self.mints@[y].id == l1.mints@[y].id);
                            }
                            assert forall|m: u64|
                                #[trigger] mint_authority_in(self.mints@, m) == mint_authority_in(
                                    l1.mints@,
                                    m,
                                ) by {
                                lemma_mint_authority_update(l1.mints@, k as int, shrunk, m);
                            }
                        }
                        Ok(())
                    },
                    None => {
                        proof {
                            lemma_mint_authority_absent(self.mints@, mint);
                            assert(l0.spec_mint_authority(l0.accounts@[i as int].mint) is Some);
                            assert(false);
                        }
                        Err(BurnError::InsufficientFunds)
                    },
                }
            },
        }
    }
}

} // verus!
