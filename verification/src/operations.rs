use vstd::prelude::*;

use crate::models::balance_of_in;
use crate::models::has_wallet_in;
use crate::models::lemma_total_update;
use crate::models::lemma_wallet_at;
use crate::models::lemma_wallets_update;
use crate::models::total_of;
use crate::models::tx_valid_in;
use crate::models::wallet_idx_in;
use crate::models::wallet_in;
use crate::models::Transaction;
use crate::models::Wallet;
use crate::models::WalletSystem;

verus! {

/// Every way a ledger operation can be refused. Each variant carries the
/// values a caller needs to diagnose the refusal; a refused operation leaves
/// the ledger unchanged.
#[derive(Debug, Clone, PartialEq, Eq)]
pub enum WError {
    /// The named wallet is not tracked by the ledger.
    WalletNotFound(u128),
    /// The sender holds less of the token than the transfer asks for.
    InsufficientBalance { wallet_id: u128, token: String, balance: u64, amount: u64 },
    /// Sender and receiver are the same wallet.
    SelfTransfer,
    /// The amount is not positive.
    InvalidAmount(u64),
}

/// Whether a transaction touches the wallet: it is sender or receiver.
pub open spec fn touches(tx: Transaction, wallet_id: u128) -> bool {
    tx.from_wallet_id == wallet_id || tx.to_wallet_id == wallet_id
}

/// The predicate `get_wallet_transactions` filters the history with.
pub open spec fn touching(wallet_id: u128) -> spec_fn(Transaction) -> bool {
    |tx: Transaction| touches(tx, wallet_id)
}

impl WalletSystem {
    /// The position of the wallet with this id, if the ledger tracks one.
    #[verifier::loop_isolation(false)]
    fn find_wallet_index(&self, id: u128) -> (r: Option<usize>)
        requires
            self.wf(),
        ensures
            match r {
                Some(i) => i < self.wallets@.len() && self.wallets@[i as int].id == id
                    && self.has_wallet(id)
                    && wallet_in(self.wallets@, id) == self.wallets@[i as int],
                None => !self.has_wallet(id),
            },
    {
        let n = self.wallets.len();
        let mut i: usize = 0;
        while i < n
            invariant
                0 <= i <= n,
                forall|k: int| 0 <= k < i ==> (#[trigger] self.wallets@[k].id) != id,
            decreases n - i,
        {
            if self.wallets[i].id == id {
                proof {
                    lemma_wallet_at(self.wallets@, i as int);
                }
                return Some(i);
            }
            i += 1;
        }
        None
    }

    /// Inserts the wallet under its id, replacing any wallet already tracked
    /// under the same id and leaving every other wallet and the history
    /// untouched.
    pub fn add_wallet(&mut self, wallet: Wallet)
        requires
            old(self).wf(),
            wallet.wf(),
        ensures
            final(self).wf(),
            final(self).has_wallet(wallet.id),
            wallet_in(final(self).wallets@, wallet.id) == wallet,
            forall|id: u128|
                id != wallet.id ==> #[trigger] final(self).has_wallet(id) == old(self).has_wallet(
                    id,
                ),
            forall|id: u128|
                id != wallet.id && old(self).has_wallet(id) ==> #[trigger] wallet_in(
                    final(self).wallets@,
                    id,
                ) == wallet_in(old(self).wallets@, id),
            final(self).transactions == old(self).transactions,
    {
        let ghost pre = self.wallets@;
        match self.find_wallet_index(wallet.id) {
            Some(i) => {
                let ghost w = wallet;
                self.wallets[i] = wallet;
                proof {
                    assert(self.wallets@ =~= pre.update(i as int, w));
                    lemma_wallets_update(pre, i as int, w);
                    assert forall|k: int|
                        0 <= k < self.transactions@.len() implies tx_valid_in(
                        self.wallets@,
                        #[trigger] self.transactions@[k],
                    ) by {
                        assert(tx_valid_in(pre, self.transactions@[k]));
                    }
                }
            },
            None => {
                let ghost w = wallet;
                self.wallets.push(wallet);
                proof {
                    let n = pre.len() as int;
                    assert(forall|k: int| 0 <= k < n ==> (#[trigger] self.wallets@[k].id)
                        == pre[k].id);
                    assert(forall|k: int| 0 <= k < n ==> (#[trigger] pre[k].id) != w.id);
                    lemma_wallet_at(self.wallets@, n);
                    assert forall|id: u128|
                        id != w.id implies #[trigger] has_wallet_in(self.wallets@, id)
                        == has_wallet_in(pre, id) by {
                        if has_wallet_in(pre, id) {
                            let k = choose|k: int|
                                0 <= k < n && (#[trigger] pre[k].id) == id;
                            assert(self.wallets@[k].id == id);
                        }
                        if has_wallet_in(self.wallets@, id) {
                            let k = choose|k: int|
                                0 <= k < self.wallets@.len() && (#[trigger] self.wallets@[k].id)
                                    == id;
                            assert(k < n);
                            assert(pre[k].id == id);
                        }
                    }
                    assert forall|id: u128|
                        id != w.id && has_wallet_in(pre, id) implies #[trigger] wallet_in(
                        self.wallets@,
                        id,
                    ) == wallet_in(pre, id) by {
                        let k = wallet_idx_keep(pre, self.wallets@, id);
                    }
                }
            },
        }
    }

    /// An exclusive reference to the wallet with this id, if the ledger
    /// tracks one. The ledger afterwards holds whatever the caller left
    /// behind the reference, in the wallet's old position; the history is
    /// untouched.
    pub fn get_wallet_mut(&mut self, id: u128) -> (r: Option<&mut Wallet>)
        requires
            old(self).wf(),
        ensures
            match r {
                Some(w) => {
                    &&& old(self).has_wallet(id)
                    &&& *w == wallet_in(old(self).wallets@, id)
                    &&& final(self).transactions == old(self).transactions
                    &&& final(self).wallets@ == old(self).wallets@.update(
                        wallet_idx_in(old(self).wallets@, id),
                        *final(w),
                    )
                },
                None => !old(self).has_wallet(id) && *final(self) == *old(self),
            },
    {
        match self.find_wallet_index(id) {
            Some(i) => Some(&mut self.wallets[i]),
            None => None,
        }
    }

    /// Moves `amount` of `token` from one wallet to another, atomically:
    /// either every check passes and the debit, the credit and the history
    /// entry are all applied, or the ledger is left exactly as it was. The
    /// checks run in a fixed order and the first failing one names the error.
    pub fn transfer(
        &mut self,
        from_wallet_id: u128,
        to_wallet_id: u128,
        token: &str,
        amount: u64,
    ) -> (r: Result<Transaction, WError>)
        requires
            old(self).wf(),
            old(self).spec_balance_of(to_wallet_id, token@) + amount <= u64::MAX,
        ensures
            final(self).wf(),
            r is Err ==> *final(self) == *old(self),
            (r matches Err(WError::SelfTransfer)) <==> from_wallet_id == to_wallet_id,
            (r matches Err(WError::InvalidAmount(_))) <==> (from_wallet_id != to_wallet_id
                && amount == 0),
            r matches Err(WError::InvalidAmount(a)) ==> a == amount,
            (r matches Err(WError::WalletNotFound(_))) <==> (from_wallet_id != to_wallet_id
                && amount > 0 && (!old(self).has_wallet(from_wallet_id) || !old(self).has_wallet(
                to_wallet_id,
            ))),
            r matches Err(WError::WalletNotFound(w)) ==> w == (if !old(self).has_wallet(
                from_wallet_id,
            ) {
                from_wallet_id
            } else {
                to_wallet_id
            }),
            (r matches Err(WError::InsufficientBalance { .. })) <==> (from_wallet_id
                != to_wallet_id && amount > 0 && old(self).has_wallet(from_wallet_id) && old(
                self,
            ).has_wallet(to_wallet_id) && old(self).spec_balance_of(from_wallet_id, token@)
                < amount),
            r matches Err(WError::InsufficientBalance { wallet_id, token: t, balance, amount: a })
                ==> wallet_id == from_wallet_id && t@ == token@ && balance == old(
                self,
            ).spec_balance_of(from_wallet_id, token@) && a == amount,
            (r is Ok) <==> (from_wallet_id != to_wallet_id && amount > 0 && old(self).has_wallet(
                from_wallet_id,
            ) && old(self).has_wallet(to_wallet_id) && old(self).spec_balance_of(
                from_wallet_id,
                token@,
            ) >= amount),
            r matches Ok(tx) ==> {
                &&& tx.from_wallet_id == from_wallet_id
                &&& tx.to_wallet_id == to_wallet_id
                &&& tx.amount == amount
                &&& tx.token@ == token@
                &&& final(self).transactions@ == old(self).transactions@.push(tx)
                &&& final(self).spec_balance_of(from_wallet_id, token@)
                    == old(self).spec_balance_of(from_wallet_id, token@) - amount
                &&& final(self).spec_balance_of(to_wallet_id, token@)
                    == old(self).spec_balance_of(to_wallet_id, token@) + amount
                &&& final(self).spec_balance_of(from_wallet_id, token@) as int
                    + final(self).spec_balance_of(to_wallet_id, token@) as int
                    == old(self).spec_balance_of(from_wallet_id, token@) as int
                    + old(self).spec_balance_of(to_wallet_id, token@) as int
                &&& total_of(final(self).wallets@, token@) == total_of(
                    old(self).wallets@,
                    token@,
                )
                &&& forall|id: u128| #[trigger]
                    final(self).has_wallet(id) == old(self).has_wallet(id)
                &&& forall|id: u128|
                    id != from_wallet_id && id != to_wallet_id && old(self).has_wallet(id)
                        ==> #[trigger] wallet_in(final(self).wallets@, id) == wallet_in(
                        old(self).wallets@,
                        id,
                    )
                &&& forall|t: Seq<char>|
                    t != token@ ==> #[trigger] final(self).spec_balance_of(from_wallet_id, t)
                        == old(self).spec_balance_of(from_wallet_id, t)
                &&& forall|t: Seq<char>|
                    t != token@ ==> #[trigger] final(self).spec_balance_of(to_wallet_id, t)
                        == old(self).spec_balance_of(to_wallet_id, t)
                &&& wallet_in(final(self).wallets@, from_wallet_id).owner_name == wallet_in(
                    old(self).wallets@,
                    from_wallet_id,
                ).owner_name
                &&& wallet_in(final(self).wallets@, from_wallet_id).created_at == wallet_in(
                    old(self).wallets@,
                    from_wallet_id,
                ).created_at
                &&& wallet_in(final(self).wallets@, to_wallet_id).owner_name == wallet_in(
                    old(self).wallets@,
                    to_wallet_id,
                ).owner_name
                &&& wallet_in(final(self).wallets@, to_wallet_id).created_at == wallet_in(
                    old(self).wallets@,
                    to_wallet_id,
                ).created_at
            },
    {
        // the value may not stay in the same wallet
        if from_wallet_id == to_wallet_id {
            return Err(WError::SelfTransfer);
        }
        // only a positive amount can move
        if amount == 0 {
            return Err(WError::InvalidAmount(amount));
        }
        // both endpoints must be tracked
        let from_idx = match self.find_wallet_index(from_wallet_id) {
            Some(i) => i,
            None => {
                return Err(WError::WalletNotFound(from_wallet_id));
            },
        };
        let to_idx = match self.find_wallet_index(to_wallet_id) {
            Some(i) => i,
            None => {
                return Err(WError::WalletNotFound(to_wallet_id));
            },
        };
        // the sender must hold enough of the token
        let current_bal = self.wallets[from_idx].get_balance(token);
        if current_bal < amount {
            return Err(WError::InsufficientBalance {
                wallet_id: from_wallet_id,
                token: token.to_owned(),
                balance: current_bal,
                amount,
            });
        }
        // every check passed: commit debit, credit and history as one unit
        let transaction = Transaction::new(from_wallet_id, to_wallet_id, amount, token.to_owned());
        let ghost pre = self.wallets@;
        proof {
            assert(pre[from_idx as int].id != pre[to_idx as int].id);
        }
        // debit the sender
        let mut from_wallet = self.wallets.remove(from_idx);
        from_wallet.sub_tokens(token, amount);
        self.wallets.insert(from_idx, from_wallet);
        proof {
            assert(self.wallets@ =~= pre.update(from_idx as int, self.wallets@[from_idx as int]));
            lemma_wallets_update(pre, from_idx as int, self.wallets@[from_idx as int]);
        }
        let ghost mid = self.wallets@;
        proof {
            assert(forall|k: int|
                0 <= k < mid.len() && k != from_idx as int ==> (#[trigger] mid[k]) == pre[k]);
            assert(mid[to_idx as int] == pre[to_idx as int]);
            lemma_wallet_at(mid, to_idx as int);
        }
        // credit the receiver
        let mut to_wallet = self.wallets.remove(to_idx);
        to_wallet.add_tokens(token, amount);
        self.wallets.insert(to_idx, to_wallet);
        proof {
            assert(self.wallets@ =~= mid.update(to_idx as int, self.wallets@[to_idx as int]));
            lemma_wallets_update(mid, to_idx as int, self.wallets@[to_idx as int]);
        }
        // record the committed transfer in the history
        self.transactions.push(transaction.clone());
        proof {
            let fin = self.wallets@;
            assert(forall|k: int|
                0 <= k < fin.len() ==> (#[trigger] fin[k]).wf() && fin[k].id == pre[k].id);
            lemma_wallet_at(fin, from_idx as int);
            lemma_wallet_at(fin, to_idx as int);
            lemma_wallet_at(pre, from_idx as int);
            lemma_wallet_at(pre, to_idx as int);
            assert forall|id: u128| #[trigger]
                has_wallet_in(fin, id) == has_wallet_in(pre, id) by {
                assert(has_wallet_in(fin, id) == has_wallet_in(mid, id));
            }
            assert(wallet_in(fin, from_wallet_id) == fin[from_idx as int]);
            assert(wallet_in(fin, to_wallet_id) == fin[to_idx as int]);
            assert(fin[from_idx as int] == mid[from_idx as int]);
            assert(mid[to_idx as int] == pre[to_idx as int]);
            lemma_total_update(pre, from_idx as int, mid[from_idx as int], token@);
            lemma_total_update(mid, to_idx as int, fin[to_idx as int], token@);
            assert(mid == pre.update(from_idx as int, mid[from_idx as int]));
            assert(fin == mid.update(to_idx as int, fin[to_idx as int]));
            assert forall|t: Seq<char>|
                t != token@ implies #[trigger] balance_of_in(fin, from_wallet_id, t)
                == balance_of_in(pre, from_wallet_id, t) by {
                assert(mid[from_idx as int].spec_balance(t) == pre[
                    from_idx as int
                ].spec_balance(t));
            }
            assert forall|t: Seq<char>|
                t != token@ implies #[trigger] balance_of_in(fin, to_wallet_id, t)
                == balance_of_in(pre, to_wallet_id, t) by {
                assert(fin[to_idx as int].spec_balance(t) == mid[to_idx as int].spec_balance(t));
            }
            assert forall|k: int|
                0 <= k < self.transactions@.len() implies tx_valid_in(
                fin,
                #[trigger] self.transactions@[k],
            ) by {
                if k < old(self).transactions@.len() {
                    assert(tx_valid_in(pre, old(self).transactions@[k]));
                }
            }
        }
        Ok(transaction)
    }

    /// Credits `amount` of `token` to the named wallet: the checked,
    /// user-facing way of funding a wallet. A refused credit leaves the
    /// ledger unchanged.
    pub fn credit_wallet(&mut self, wallet_id: u128, token: &str, amount: u64) -> (r: Result<
        (),
        WError,
    >)
        requires
            old(self).wf(),
            old(self).spec_balance_of(wallet_id, token@) + amount <= u64::MAX,
        ensures
            final(self).wf(),
            r is Err ==> *final(self) == *old(self),
            (r matches Err(WError::InvalidAmount(_))) <==> amount == 0,
            r matches Err(WError::InvalidAmount(a)) ==> a == amount,
            (r matches Err(WError::WalletNotFound(_))) <==> (amount > 0 && !old(self).has_wallet(
                wallet_id,
            )),
            r matches Err(WError::WalletNotFound(w)) ==> w == wallet_id,
            (r is Ok) <==> (amount > 0 && old(self).has_wallet(wallet_id)),
            r is Ok ==> {
                &&& final(self).spec_balance_of(wallet_id, token@) == old(self).spec_balance_of(
                    wallet_id,
                    token@,
                ) + amount
                &&& forall|t: Seq<char>|
                    t != token@ ==> #[trigger] final(self).spec_balance_of(wallet_id, t) == old(
                        self,
                    ).spec_balance_of(wallet_id, t)
                &&& total_of(final(self).wallets@, token@) == total_of(
                    old(self).wallets@,
                    token@,
                ) + amount
                &&& forall|id: u128| #[trigger]
                    final(self).has_wallet(id) == old(self).has_wallet(id)
                &&& forall|id: u128|
                    id != wallet_id && old(self).has_wallet(id) ==> #[trigger] wallet_in(
                        final(self).wallets@,
                        id,
                    ) == wallet_in(old(self).wallets@, id)
                &&& final(self).transactions == old(self).transactions
            },
    {
        if amount == 0 {
            return Err(WError::InvalidAmount(amount));
        }
        let idx = match self.find_wallet_index(wallet_id) {
            Some(i) => i,
            None => {
                return Err(WError::WalletNotFound(wallet_id));
            },
        };
        let ghost pre = self.wallets@;
        let mut wallet = self.wallets.remove(idx);
        wallet.add_tokens(token, amount);
        self.wallets.insert(idx, wallet);
        proof {
            assert(self.wallets@ =~= pre.update(idx as int, self.wallets@[idx as int]));
            lemma_wallets_update(pre, idx as int, self.wallets@[idx as int]);
            let fin = self.wallets@;
            assert(forall|k: int|
                0 <= k < fin.len() ==> (#[trigger] fin[k]).wf() && fin[k].id == pre[k].id);
            lemma_wallet_at(fin, idx as int);
            lemma_wallet_at(pre, idx as int);
            lemma_total_update(pre, idx as int, fin[idx as int], token@);
            assert(fin == pre.update(idx as int, fin[idx as int]));
            assert(wallet_in(fin, wallet_id) == fin[idx as int]);
            assert forall|t: Seq<char>|
                t != token@ implies #[trigger] balance_of_in(fin, wallet_id, t) == balance_of_in(
                pre,
                wallet_id,
                t,
            ) by {
                assert(fin[idx as int].spec_balance(t) == pre[idx as int].spec_balance(t));
            }
            assert forall|k: int|
                0 <= k < self.transactions@.len() implies tx_valid_in(
                fin,
                #[trigger] self.transactions@[k],
            ) by {
                assert(tx_valid_in(pre, self.transactions@[k]));
            }
        }
        Ok(())
    }

    /// Every recorded transaction in which the wallet is sender or receiver,
    /// in their chronological order of commitment.
    #[verifier::loop_isolation(false)]
    pub fn get_wallet_transactions(&self, wallet_id: u128) -> (r: Vec<Transaction>)
        ensures
            r@ == self.transactions@.filter(touching(wallet_id)),
    {
        let mut r: Vec<Transaction> = Vec::new();
        let n = self.transactions.len();
        let mut i: usize = 0;
        while i < n
            invariant
                0 <= i <= n,
                r@ == self.transactions@.subrange(0, i as int).filter(touching(wallet_id)),
            decreases n - i,
        {
            let ghost pre = self.transactions@.subrange(0, i as int);
            let tx = &self.transactions[i];
            if tx.from_wallet_id == wallet_id || tx.to_wallet_id == wallet_id {
                r.push(tx.clone());
            }
            proof {
                let stepped = self.transactions@.subrange(0, i as int + 1);
                assert(stepped =~= pre.push(self.transactions@[i as int]));
                lemma_history_step(pre, self.transactions@[i as int], wallet_id);
            }
            i += 1;
        }
        proof {
            assert(self.transactions@.subrange(0, n as int) =~= self.transactions@);
        }
        r
    }

    /// A shared reference to the wallet with this id, if the ledger tracks one.
    pub fn get_wallet(&self, id: u128) -> (r: Option<&Wallet>)
        requires
            self.wf(),
        ensures
            match r {
                Some(w) => self.has_wallet(id) && *w == wallet_in(self.wallets@, id),
                None => !self.has_wallet(id),
            },
    {
        match self.find_wallet_index(id) {
            Some(i) => Some(&self.wallets[i]),
            None => None,
        }
    }
}

/// Law: history completeness. Appending one committed transfer to the
/// history extends a wallet's queried history by exactly that transfer when
/// the wallet is its sender or receiver, and leaves it unchanged otherwise;
/// so the query returns exactly the touching transfers, in commit order.
pub proof fn lemma_history_step(txs: Seq<Transaction>, tx: Transaction, wallet_id: u128)
    ensures
        txs.push(tx).filter(touching(wallet_id)) == if touches(tx, wallet_id) {
            txs.filter(touching(wallet_id)).push(tx)
        } else {
            txs.filter(touching(wallet_id))
        },
{
    reveal_with_fuel(Seq::<Transaction>::filter, 2);
    assert(txs.push(tx).drop_last() =~= txs);
    assert(txs.push(tx).last() == tx);
}

/// Helper for add_wallet's push case: an id found among the old wallets is
/// found at the same position afterwards.
proof fn wallet_idx_keep(pre: Seq<Wallet>, post: Seq<Wallet>, id: u128) -> (k: int)
    requires
        crate::models::ids_unique(pre),
        crate::models::ids_unique(post),
        pre.len() <= post.len(),
        forall|k: int| 0 <= k < pre.len() ==> (#[trigger] post[k]) == pre[k],
        has_wallet_in(pre, id),
    ensures
        0 <= k < pre.len(),
        pre[k].id == id,
        wallet_in(pre, id) == pre[k],
        wallet_in(post, id) == pre[k],
{
    let k = crate::models::wallet_idx_in(pre, id);
    lemma_wallet_at(pre, k);
    lemma_wallet_at(post, k);
    k
}

} // verus!
