use vstd::prelude::*;

verus! {

// ---------------------------------------------------------------------------
// Outside calls the data model needs
// ---------------------------------------------------------------------------

/// Relies on uuid::Uuid::new_v4 and uuid::Uuid::as_u128: draws a fresh random
/// version-4 identifier and returns it as its 128-bit value. The result is
/// random, so nothing is promised of it.
#[verifier::external_body]
pub(crate) fn fresh_id() -> u128 {
    uuid::Uuid::new_v4().as_u128()
}

/// Relies on chrono::Utc::now and chrono::DateTime::timestamp_millis: reads
/// the system clock and returns the current time as milliseconds since the
/// Unix epoch. The result depends on the clock, so nothing is promised of it.
#[verifier::external_body]
pub(crate) fn now_millis() -> i64 {
    chrono::Utc::now().timestamp_millis()
}

/// Relies on str's PartialEq: two string slices compare equal exactly when
/// they hold the same characters.
#[verifier::external_body]
pub(crate) fn str_eq(a: &str, b: &str) -> (r: bool)
    ensures
        r == (a@ == b@),
{
    a == b
}

// ---------------------------------------------------------------------------
// Balances: a mapping from token symbol to amount, kept as a vector of
// entries with pairwise distinct token names. An absent token means
// balance zero.
// ---------------------------------------------------------------------------

/// Whether the token names of `entries` are pairwise distinct.
pub open spec fn tokens_unique(entries: Seq<(String, u64)>) -> bool {
    forall|i: int, j: int|
        #![trigger entries[i].0@, entries[j].0@]
        0 <= i < j < entries.len() ==> entries[i].0@ != entries[j].0@
}

/// Whether `entries` holds an entry for `token`.
pub open spec fn has_token(entries: Seq<(String, u64)>, token: Seq<char>) -> bool {
    exists|j: int| 0 <= j < entries.len() && #[trigger] entries[j].0@ == token
}

/// The position of the entry for `token` (meaningful only when one exists).
pub open spec fn token_idx(entries: Seq<(String, u64)>, token: Seq<char>) -> int {
    choose|j: int| 0 <= j < entries.len() && #[trigger] entries[j].0@ == token
}

/// The balance `entries` assigns to `token`: the amount stored for it, or
/// zero when no entry names it.
pub open spec fn balance_in(entries: Seq<(String, u64)>, token: Seq<char>) -> u64 {
    if has_token(entries, token) {
        entries[token_idx(entries, token)].1
    } else {
        0u64
    }
}

/// Under unique token names, the entry at `j` settles the balance of its token.
pub proof fn lemma_balance_at(entries: Seq<(String, u64)>, j: int)
    requires
        tokens_unique(entries),
        0 <= j < entries.len(),
    ensures
        has_token(entries, entries[j].0@),
        token_idx(entries, entries[j].0@) == j,
        balance_in(entries, entries[j].0@) == entries[j].1,
{
    let t = entries[j].0@;
    assert(has_token(entries, t));
    let k = token_idx(entries, t);
    assert(0 <= k < entries.len() && entries[k].0@ == t);
    if k != j {
        if k < j {
            assert(entries[k].0@ != entries[j].0@);
        } else {
            assert(entries[j].0@ != entries[k].0@);
        }
    }
}

/// A token no entry names has balance zero.
pub proof fn lemma_balance_absent(entries: Seq<(String, u64)>, token: Seq<char>)
    requires
        forall|k: int| 0 <= k < entries.len() ==> (#[trigger] entries[k].0@) != token,
    ensures
        !has_token(entries, token),
        balance_in(entries, token) == 0,
{
}

// ---------------------------------------------------------------------------
// Wallet
// ---------------------------------------------------------------------------

/// An account holding balances of one or more tokens, identified by a
/// unique id. Amounts are counts of the token's smallest unit.
#[derive(Debug, Clone, PartialEq)]
pub struct Wallet {
    /// Unique identifier, immutable after creation.
    pub id: u128,
    /// Balance entries, one per token symbol (case-sensitive); a token
    /// without an entry has balance zero.
    pub balances: Vec<(String, u64)>,
    /// Milliseconds since the Unix epoch at the moment of creation.
    pub created_at: i64,
    /// Optional display label of the owner.
    pub owner_name: Option<String>,
}

impl Wallet {
    /// Well-formedness: the balance entries name pairwise distinct tokens.
    pub open spec fn wf(self) -> bool {
        tokens_unique(self.balances@)
    }

    /// The balance this wallet holds for `token`, zero when absent.
    pub open spec fn spec_balance(self, token: Seq<char>) -> u64 {
        balance_in(self.balances@, token)
    }

    /// Creates a wallet with a fresh id, no balances, and the current time.
    pub fn new(owner_name: Option<String>) -> (r: Wallet)
        ensures
            r.wf(),
            r.owner_name == owner_name,
            r.balances@.len() == 0,
            forall|t: Seq<char>| #[trigger] r.spec_balance(t) == 0,
    {
        let r = Wallet {
            id: fresh_id(),
            balances: Vec::new(),
            created_at: now_millis(),
            owner_name,
        };
        proof {
            assert forall|t: Seq<char>| #[trigger] r.spec_balance(t) == 0 by {
                lemma_balance_absent(r.balances@, t);
            }
        }
        r
    }

    /// The stored balance for `token`, or zero when the token is absent.
    #[verifier::loop_isolation(false)]
    pub fn get_balance(&self, token: &str) -> (r: u64)
        requires
            self.wf(),
        ensures
            r == self.spec_balance(token@),
    {
        let n = self.balances.len();
        let mut j: usize = 0;
        while j < n
            invariant
                n == self.balances@.len(),
                0 <= j <= n,
                self.wf(),
                forall|k: int| 0 <= k < j ==> (#[trigger] self.balances@[k].0@) != token@,
            decreases n - j,
        {
            if str_eq(self.balances[j].0.as_str(), token) {
                proof {
                    lemma_balance_at(self.balances@, j as int);
                }
                return self.balances[j].1;
            }
            j += 1;
        }
        proof {
            lemma_balance_absent(self.balances@, token@);
        }
        0
    }

    /// Adds `amount` to the balance for `token`, inserting the token at zero
    /// first if it is absent. Every other token keeps its balance.
    #[verifier::loop_isolation(false)]
    pub fn add_tokens(&mut self, token: &str, amount: u64)
        requires
            old(self).wf(),
            old(self).spec_balance(token@) + amount <= u64::MAX,
        ensures
            final(self).wf(),
            final(self).spec_balance(token@) == old(self).spec_balance(token@) + amount,
            forall|t: Seq<char>|
                t != token@ ==> #[trigger] final(self).spec_balance(t) == old(self).spec_balance(t),
            final(self).id == old(self).id,
            final(self).created_at == old(self).created_at,
            final(self).owner_name == old(self).owner_name,
    {
        let n = self.balances.len();
        let mut j: usize = 0;
        while j < n
            invariant
                *self == *old(self),
                n == self.balances@.len(),
                0 <= j <= n,
                self.wf(),
                forall|k: int| 0 <= k < j ==> (#[trigger] self.balances@[k].0@) != token@,
            decreases n - j,
        {
            if str_eq(self.balances[j].0.as_str(), token) {
                let cur = self.balances[j].1;
                proof {
                    lemma_balance_at(self.balances@, j as int);
                    assert(self.balances@[j as int].0@ == token@);
                    assert(cur == old(self).spec_balance(token@));
                }
                let mut entry = self.balances.remove(j);
                entry.1 = cur + amount;
                self.balances.insert(j, entry);
                proof {
                    assert(self.balances@ =~= old(self).balances@.update(
                        j as int,
                        (old(self).balances@[j as int].0, (cur + amount) as u64),
                    ));
                    lemma_update_entry(old(self).balances@, j as int, (cur + amount) as u64);
                }
                return ;
            }
            j += 1;
        }
        proof {
            lemma_balance_absent(self.balances@, token@);
        }
        self.balances.push((token.to_owned(), amount));
        proof {
            lemma_push_entry(old(self).balances@, self.balances@[n as int], token@);
            assert(self.balances@.drop_last() =~= old(self).balances@);
            assert(self.balances@ =~= old(self).balances@.push(self.balances@[n as int]));
        }
    }

    /// Removes `amount` from the balance for `token`; the entry stays, at its
    /// reduced value. Every other token keeps its balance.
    #[verifier::loop_isolation(false)]
    pub(crate) fn sub_tokens(&mut self, token: &str, amount: u64)
        requires
            old(self).wf(),
            0 < amount <= old(self).spec_balance(token@),
        ensures
            final(self).wf(),
            final(self).spec_balance(token@) == old(self).spec_balance(token@) - amount,
            forall|t: Seq<char>|
                t != token@ ==> #[trigger] final(self).spec_balance(t) == old(self).spec_balance(t),
            final(self).id == old(self).id,
            final(self).created_at == old(self).created_at,
            final(self).owner_name == old(self).owner_name,
    {
        let n = self.balances.len();
        let mut j: usize = 0;
        while j < n
            invariant
                *self == *old(self),
                n == self.balances@.len(),
                0 <= j <= n,
                self.wf(),
                forall|k: int| 0 <= k < j ==> (#[trigger] self.balances@[k].0@) != token@,
            decreases n - j,
        {
            if str_eq(self.balances[j].0.as_str(), token) {
                let cur = self.balances[j].1;
                proof {
                    lemma_balance_at(self.balances@, j as int);
                    assert(cur == old(self).spec_balance(token@));
                }
                let mut entry = self.balances.remove(j);
                entry.1 = cur - amount;
                self.balances.insert(j, entry);
                proof {
                    assert(self.balances@ =~= old(self).balances@.update(
                        j as int,
                        (old(self).balances@[j as int].0, (cur - amount) as u64),
                    ));
                    lemma_update_entry(old(self).balances@, j as int, (cur - amount) as u64);
                }
                return ;
            }
            j += 1;
        }
        proof {
            // a positive balance means the token has an entry, so this
            // point is unreachable
            lemma_balance_absent(self.balances@, token@);
        }
    }
}

/// Replacing the amount of the entry at `j` changes only that entry's
/// token balance and keeps the token names unique.
pub proof fn lemma_update_entry(entries: Seq<(String, u64)>, j: int, amount: u64)
    requires
        tokens_unique(entries),
        0 <= j < entries.len(),
    ensures
        tokens_unique(entries.update(j, (entries[j].0, amount))),
        balance_in(entries.update(j, (entries[j].0, amount)), entries[j].0@) == amount,
        forall|t: Seq<char>|
            t != entries[j].0@ ==> #[trigger] balance_in(entries.update(j, (entries[j].0, amount)), t)
                == balance_in(entries, t),
{
    let upd = entries.update(j, (entries[j].0, amount));
    assert(forall|k: int| 0 <= k < entries.len() ==> (#[trigger] upd[k].0@) == entries[k].0@);
    lemma_balance_at(upd, j);
    assert forall|t: Seq<char>|
        t != entries[j].0@ implies #[trigger] balance_in(upd, t) == balance_in(entries, t) by {
        if has_token(entries, t) {
            let k = token_idx(entries, t);
            lemma_balance_at(entries, k);
            lemma_balance_at(upd, k);
            assert(upd[k].0@ == t);
            assert(k != j);
            assert(upd[k].1 == entries[k].1);
        } else {
            assert(forall|k: int| 0 <= k < upd.len() ==> (#[trigger] upd[k].0@) != t);
            lemma_balance_absent(upd, t);
        }
    }
}

/// Appending an entry for a token that is absent gives that token the new
/// amount, keeps the names unique, and keeps every other balance.
pub proof fn lemma_push_entry(entries: Seq<(String, u64)>, entry: (String, u64), token: Seq<char>)
    requires
        tokens_unique(entries),
        !has_token(entries, token),
        entry.0@ == token,
    ensures
        tokens_unique(entries.push(entry)),
        balance_in(entries.push(entry), token) == entry.1,
        forall|t: Seq<char>|
            t != token ==> #[trigger] balance_in(entries.push(entry), t) == balance_in(entries, t),
{
    let ext = entries.push(entry);
    assert(forall|k: int| 0 <= k < entries.len() ==> (#[trigger] ext[k].0@) == entries[k].0@);
    assert(forall|k: int| 0 <= k < entries.len() ==> (#[trigger] entries[k].0@) != token);
    assert(ext[entries.len() as int].0@ == token);
    lemma_balance_at(ext, entries.len() as int);
    assert forall|t: Seq<char>|
        t != token implies #[trigger] balance_in(ext, t) == balance_in(entries, t) by {
        if has_token(entries, t) {
            let k = token_idx(entries, t);
            lemma_balance_at(entries, k);
            lemma_balance_at(ext, k);
        } else {
            assert(forall|k: int| 0 <= k < ext.len() ==> (#[trigger] ext[k].0@) != t);
            lemma_balance_absent(ext, t);
        }
    }
}

// ---------------------------------------------------------------------------
// Transaction
// ---------------------------------------------------------------------------

/// An immutable record of one completed transfer between two wallets.
#[derive(Debug, PartialEq)]
pub struct Transaction {
    /// Unique identifier, generated at creation.
    pub id: u128,
    /// Wallet the value left.
    pub from_wallet_id: u128,
    /// Wallet the value reached.
    pub to_wallet_id: u128,
    /// Amount moved, in the token's smallest unit; always positive.
    pub amount: u64,
    /// Symbol of the token moved.
    pub token: String,
    /// Milliseconds since the Unix epoch at the moment of creation.
    pub created_at: i64,
}

impl Clone for Transaction {
    /// A clone is equal to the record it copies.
    fn clone(&self) -> (r: Self)
        ensures
            r == *self,
    {
        Transaction {
            id: self.id,
            from_wallet_id: self.from_wallet_id,
            to_wallet_id: self.to_wallet_id,
            amount: self.amount,
            token: self.token.clone(),
            created_at: self.created_at,
        }
    }
}

impl Transaction {
    /// Creates a record of a transfer with a fresh id and the current time.
    pub fn new(from_wallet_id: u128, to_wallet_id: u128, amount: u64, token: String) -> (r:
        Transaction)
        ensures
            r.from_wallet_id == from_wallet_id,
            r.to_wallet_id == to_wallet_id,
            r.amount == amount,
            r.token == token,
    {
        Transaction {
            id: fresh_id(),
            from_wallet_id,
            to_wallet_id,
            amount,
            token,
            created_at: now_millis(),
        }
    }
}

// ---------------------------------------------------------------------------
// The ledger: wallets and the transaction history
// ---------------------------------------------------------------------------

/// Whether `wallets` holds pairwise distinct wallet ids.
pub open spec fn ids_unique(wallets: Seq<Wallet>) -> bool {
    forall|i: int, j: int|
        #![trigger wallets[i].id, wallets[j].id]
        0 <= i < j < wallets.len() ==> wallets[i].id != wallets[j].id
}

/// Whether `wallets` holds a wallet with this id.
pub open spec fn has_wallet_in(wallets: Seq<Wallet>, id: u128) -> bool {
    exists|i: int| 0 <= i < wallets.len() && (#[trigger] wallets[i].id) == id
}

/// The position of the wallet with this id (meaningful only when one exists).
pub open spec fn wallet_idx_in(wallets: Seq<Wallet>, id: u128) -> int {
    choose|i: int| 0 <= i < wallets.len() && (#[trigger] wallets[i].id) == id
}

/// The wallet with this id (meaningful only when one exists).
pub open spec fn wallet_in(wallets: Seq<Wallet>, id: u128) -> Wallet {
    wallets[wallet_idx_in(wallets, id)]
}

/// The balance the wallet with this id holds for `token`; zero when the
/// wallet or the token is absent.
pub open spec fn balance_of_in(wallets: Seq<Wallet>, id: u128, token: Seq<char>) -> u64 {
    if has_wallet_in(wallets, id) {
        balance_in(wallet_in(wallets, id).balances@, token)
    } else {
        0u64
    }
}

/// Whether a transaction could have been recorded against these wallets:
/// distinct endpoints, a positive amount, and both endpoints present.
pub open spec fn tx_valid_in(wallets: Seq<Wallet>, tx: Transaction) -> bool {
    &&& tx.from_wallet_id != tx.to_wallet_id
    &&& tx.amount > 0
    &&& has_wallet_in(wallets, tx.from_wallet_id)
    &&& has_wallet_in(wallets, tx.to_wallet_id)
}

/// Under unique ids, the wallet at `i` settles every lookup of its id.
pub proof fn lemma_wallet_at(wallets: Seq<Wallet>, i: int)
    requires
        ids_unique(wallets),
        0 <= i < wallets.len(),
    ensures
        has_wallet_in(wallets, wallets[i].id),
        wallet_idx_in(wallets, wallets[i].id) == i,
        wallet_in(wallets, wallets[i].id) == wallets[i],
{
    let id = wallets[i].id;
    assert(has_wallet_in(wallets, id));
    let k = wallet_idx_in(wallets, id);
    assert(0 <= k < wallets.len() && wallets[k].id == id);
    if k != i {
        if k < i {
            assert(wallets[k].id != wallets[i].id);
        } else {
            assert(wallets[i].id != wallets[k].id);
        }
    }
}

/// Replacing the wallet at `i` with one of the same id keeps the ids unique,
/// puts the new wallet under that id, and leaves every other id's wallet
/// untouched.
pub proof fn lemma_wallets_update(wallets: Seq<Wallet>, i: int, w: Wallet)
    requires
        ids_unique(wallets),
        0 <= i < wallets.len(),
        w.id == wallets[i].id,
    ensures
        ids_unique(wallets.update(i, w)),
        forall|id: u128|
            #[trigger] has_wallet_in(wallets.update(i, w), id) == has_wallet_in(wallets, id),
        wallet_in(wallets.update(i, w), w.id) == w,
        forall|id: u128|
            id != w.id && has_wallet_in(wallets, id) ==> #[trigger] wallet_in(
                wallets.update(i, w),
                id,
            ) == wallet_in(wallets, id),
{
    let upd = wallets.update(i, w);
    assert(forall|k: int| 0 <= k < wallets.len() ==> (#[trigger] upd[k].id) == wallets[k].id);
    assert forall|id: u128|
        #[trigger] has_wallet_in(upd, id) == has_wallet_in(wallets, id) by {
        if has_wallet_in(wallets, id) {
            let k = wallet_idx_in(wallets, id);
            assert(upd[k].id == id);
        }
        if has_wallet_in(upd, id) {
            let k = wallet_idx_in(upd, id);
            assert(wallets[k].id == id);
        }
    }
    lemma_wallet_at(upd, i);
    assert forall|id: u128|
        id != w.id && has_wallet_in(wallets, id) implies #[trigger] wallet_in(upd, id)
        == wallet_in(wallets, id) by {
        let k = wallet_idx_in(wallets, id);
        lemma_wallet_at(wallets, k);
        lemma_wallet_at(upd, k);
        assert(k != i);
    }
}

/// A simple token ledger: the wallets it tracks and the append-only,
/// chronologically ordered history of completed transfers.
#[derive(Debug, Clone, PartialEq)]
pub struct WalletSystem {
    /// The tracked wallets; their ids are pairwise distinct.
    pub wallets: Vec<Wallet>,
    /// Every completed transfer, in the order it was committed.
    pub transactions: Vec<Transaction>,
}

impl WalletSystem {
    /// Well-formedness: wallet ids are unique, every wallet is well formed,
    /// and every recorded transfer names two distinct tracked wallets and a
    /// positive amount.
    pub open spec fn wf(self) -> bool {
        parts_wf(self.wallets@, self.transactions@)
    }

    /// Whether the ledger tracks a wallet with this id.
    pub open spec fn has_wallet(self, id: u128) -> bool {
        has_wallet_in(self.wallets@, id)
    }

    /// The balance of `token` in the wallet with this id; zero when the
    /// wallet or the token is absent.
    pub open spec fn spec_balance_of(self, id: u128, token: Seq<char>) -> u64 {
        balance_of_in(self.wallets@, id, token)
    }

    /// Creates an empty ledger: no wallets, no history.
    pub fn new() -> (r: WalletSystem)
        ensures
            r.wf(),
            r.wallets@.len() == 0,
            r.transactions@.len() == 0,
    {
        WalletSystem { wallets: Vec::new(), transactions: Vec::new() }
    }
}

/// The sum of a token's balance across all wallets: the ledger-wide supply
/// of that token.
pub open spec fn total_of(wallets: Seq<Wallet>, token: Seq<char>) -> int
    decreases wallets.len(),
{
    if wallets.len() == 0 {
        0
    } else {
        wallets[0].spec_balance(token) + total_of(wallets.drop_first(), token)
    }
}

/// Replacing one wallet moves the token total by exactly the difference
/// between the new and the old wallet's balance of that token.
pub proof fn lemma_total_update(wallets: Seq<Wallet>, i: int, w: Wallet, token: Seq<char>)
    requires
        0 <= i < wallets.len(),
    ensures
        total_of(wallets.update(i, w), token) == total_of(wallets, token) - wallets[i].spec_balance(
            token,
        ) + w.spec_balance(token),
    decreases wallets.len(),
{
    let upd = wallets.update(i, w);
    if i == 0 {
        assert(upd.drop_first() =~= wallets.drop_first());
        assert(upd[0] == w);
    } else {
        assert(upd.drop_first() =~= wallets.drop_first().update(i - 1, w));
        assert(upd[0] == wallets[0]);
        lemma_total_update(wallets.drop_first(), i - 1, w, token);
    }
}

/// Law: no wallet ever holds a negative balance. Amounts are counts of a
/// token's smallest unit, so every balance a wallet can report is at least
/// zero, whatever operations produced it.
pub proof fn lemma_balance_never_negative(w: Wallet, token: Seq<char>)
    ensures
        w.spec_balance(token) >= 0,
{
}

/// Whether a pair of wallet and transaction collections forms a well-formed
/// ledger: unique wallet ids, well-formed wallets, and transactions that each
/// name two distinct tracked wallets and a positive amount.
pub open spec fn parts_wf(wallets: Seq<Wallet>, transactions: Seq<Transaction>) -> bool {
    &&& ids_unique(wallets)
    &&& forall|i: int| 0 <= i < wallets.len() ==> (#[trigger] wallets[i]).wf()
    &&& forall|k: int| 0 <= k < transactions.len() ==> tx_valid_in(
        wallets,
        #[trigger] transactions[k],
    )
}

} // verus!
