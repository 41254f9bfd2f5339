use vstd::prelude::*;

use crate::models::has_wallet_in;
use crate::models::ids_unique;
use crate::models::parts_wf;
use crate::models::str_eq;
use crate::models::tokens_unique;
use crate::models::tx_valid_in;
use crate::models::Transaction;
use crate::models::Wallet;
use crate::models::WalletSystem;

verus! {

/// The kinds of failure the persistence gateway can report. The gateway
/// itself (file reading and writing) lives outside the verified library;
/// these variants are the library's own names for its failures.
#[derive(Debug, Clone, PartialEq, Eq)]
pub enum StorageErrors {
    /// The snapshot file could not be read or written.
    IOerror,
    /// The snapshot content does not describe a well-formed ledger.
    SerializationError,
}

/// A handle on the location of the durable ledger snapshot.
pub struct Storage {
    pub file_path: String,
}

impl Storage {
    /// Remembers the path of the snapshot file.
    pub fn new(file_path: &str) -> (r: Storage)
        ensures
            r.file_path@ == file_path@,
    {
        Storage { file_path: file_path.to_owned() }
    }
}

/// Whether the balance entries name pairwise distinct tokens.
#[verifier::loop_isolation(false)]
fn entries_unique(entries: &Vec<(String, u64)>) -> (r: bool)
    ensures
        r == tokens_unique(entries@),
{
    let n = entries.len();
    let mut i: usize = 0;
    while i < n
        invariant
            0 <= i <= n,
            forall|p: int, q: int|
                #![trigger entries@[p].0@, entries@[q].0@]
                0 <= p < q < n && p < i ==> entries@[p].0@ != entries@[q].0@,
        decreases n - i,
    {
        let mut j: usize = i + 1;
        while j < n
            invariant
                i < j <= n,
                forall|q: int| i < q < j ==> entries@[i as int].0@ != (#[trigger] entries@[q].0@),
            decreases n - j,
        {
            if str_eq(entries[i].0.as_str(), entries[j].0.as_str()) {
                return false;
            }
            j += 1;
        }
        i += 1;
    }
    true
}

/// Whether the wallets carry pairwise distinct ids.
#[verifier::loop_isolation(false)]
fn wallet_ids_unique(wallets: &Vec<Wallet>) -> (r: bool)
    ensures
        r == ids_unique(wallets@),
{
    let n = wallets.len();
    let mut i: usize = 0;
    while i < n
        invariant
            0 <= i <= n,
            forall|p: int, q: int|
                #![trigger wallets@[p].id, wallets@[q].id]
                0 <= p < q < n && p < i ==> wallets@[p].id != wallets@[q].id,
        decreases n - i,
    {
        let mut j: usize = i + 1;
        while j < n
            invariant
                i < j <= n,
                forall|q: int| i < q < j ==> wallets@[i as int].id != (#[trigger] wallets@[q].id),
            decreases n - j,
        {
            if wallets[i].id == wallets[j].id {
                return false;
            }
            j += 1;
        }
        i += 1;
    }
    true
}

/// Whether some wallet carries this id.
#[verifier::loop_isolation(false)]
fn holds_id(wallets: &Vec<Wallet>, id: u128) -> (r: bool)
    ensures
        r == has_wallet_in(wallets@, id),
{
    let n = wallets.len();
    let mut i: usize = 0;
    while i < n
        invariant
            0 <= i <= n,
            forall|k: int| 0 <= k < i ==> (#[trigger] wallets@[k].id) != id,
        decreases n - i,
    {
        if wallets[i].id == id {
            return true;
        }
        i += 1;
    }
    false
}

impl WalletSystem {
    /// Rebuilds a ledger from the wallets and transactions a snapshot holds.
    /// The parts are accepted exactly when they form a well-formed ledger;
    /// anything else is refused as a malformed snapshot, so a corrupt
    /// snapshot can never silently yield a ledger.
    #[verifier::loop_isolation(false)]
    pub fn from_parts(wallets: Vec<Wallet>, transactions: Vec<Transaction>) -> (r: Result<
        WalletSystem,
        StorageErrors,
    >)
        ensures
            (r is Ok) <==> parts_wf(wallets@, transactions@),
            r matches Ok(s) ==> s.wallets == wallets && s.transactions == transactions && s.wf(),
            !parts_wf(wallets@, transactions@) ==> r == Err::<
                WalletSystem,
                StorageErrors,
            >(StorageErrors::SerializationError),
    {
        // wallet ids must be pairwise distinct
        if !wallet_ids_unique(&wallets) {
            return Err(StorageErrors::SerializationError);
        }
        // each wallet's balance entries must name distinct tokens
        let n = wallets.len();
        let mut i: usize = 0;
        while i < n
            invariant
                0 <= i <= n,
                forall|k: int| 0 <= k < i ==> (#[trigger] wallets@[k]).wf(),
            decreases n - i,
        {
            if !entries_unique(&wallets[i].balances) {
                proof {
                    assert(!wallets@[i as int].wf());
                }
                return Err(StorageErrors::SerializationError);
            }
            i += 1;
        }
        // each transaction must name a positive amount and two distinct,
        // tracked wallets
        let m = transactions.len();
        let mut k: usize = 0;
        while k < m
            invariant
                0 <= k <= m,
                forall|q: int| 0 <= q < k ==> tx_valid_in(wallets@, #[trigger] transactions@[q]),
            decreases m - k,
        {
            let valid = transactions[k].from_wallet_id != transactions[k].to_wallet_id
                && transactions[k].amount > 0 && holds_id(&wallets, transactions[k].from_wallet_id)
                && holds_id(&wallets, transactions[k].to_wallet_id);
            if !valid {
                proof {
                    assert(!tx_valid_in(wallets@, transactions@[k as int]));
                }
                return Err(StorageErrors::SerializationError);
            }
            k += 1;
        }
        Ok(WalletSystem { wallets, transactions })
    }
}

/// Law: loading what was saved rebuilds the ledger. A well-formed ledger's
/// own wallets and transactions always pass `from_parts`'s validation, whose
/// contract then returns them unchanged.
pub proof fn lemma_snapshot_round_trip(s: WalletSystem)
    requires
        s.wf(),
    ensures
        parts_wf(s.wallets@, s.transactions@),
{
}

} // verus!
