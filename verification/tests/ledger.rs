use token_wallet::models::Transaction;
use token_wallet::models::Wallet;
use token_wallet::models::WalletSystem;
use token_wallet::operations::WError;
use token_wallet::storage::Storage;
use token_wallet::storage::StorageErrors;

fn wallet_with(id: u128, balances: Vec<(&str, u64)>) -> Wallet {
    Wallet {
        id,
        balances: balances.into_iter().map(|(t, a)| (t.to_string(), a)).collect(),
        created_at: 0,
        owner_name: None,
    }
}

#[test]
fn new_wallet_is_empty() {
    let w = Wallet::new(Some("Alex".to_string()));
    assert_eq!(w.owner_name, Some("Alex".to_string()));
    assert!(w.balances.is_empty());
    assert_eq!(w.get_balance("BTC"), 0);
}

#[test]
fn add_tokens_accumulates() {
    let mut w = Wallet::new(None);
    w.add_tokens("BTC", 10);
    w.add_tokens("BTC", 5);
    w.add_tokens("ETH", 3);
    assert_eq!(w.get_balance("BTC"), 15);
    assert_eq!(w.get_balance("ETH"), 3);
    assert_eq!(w.get_balance("DOGE"), 0);
}

#[test]
fn token_symbols_are_case_sensitive() {
    let mut w = Wallet::new(None);
    w.add_tokens("btc", 7);
    assert_eq!(w.get_balance("BTC"), 0);
    assert_eq!(w.get_balance("btc"), 7);
}

#[test]
fn transaction_new_keeps_fields() {
    let tx = Transaction::new(1, 2, 42, "BTC".to_string());
    assert_eq!(tx.from_wallet_id, 1);
    assert_eq!(tx.to_wallet_id, 2);
    assert_eq!(tx.amount, 42);
    assert_eq!(tx.token, "BTC");
    assert_eq!(tx.clone(), tx);
}

#[test]
fn add_wallet_and_lookup() {
    let mut sys = WalletSystem::new();
    let w = wallet_with(7, vec![("BTC", 3)]);
    sys.add_wallet(w.clone());
    assert_eq!(sys.get_wallet(7), Some(&w));
    assert_eq!(sys.get_wallet(8), None);
}

#[test]
fn add_wallet_overwrites_same_id() {
    let mut sys = WalletSystem::new();
    sys.add_wallet(wallet_with(7, vec![("BTC", 3)]));
    let replacement = wallet_with(7, vec![("ETH", 9)]);
    sys.add_wallet(replacement.clone());
    assert_eq!(sys.wallets.len(), 1);
    assert_eq!(sys.get_wallet(7), Some(&replacement));
}

#[test]
fn get_wallet_mut_edits_in_place() {
    let mut sys = WalletSystem::new();
    sys.add_wallet(wallet_with(7, vec![]));
    let w = sys.get_wallet_mut(7).expect("wallet is tracked");
    w.add_tokens("BTC", 4);
    assert_eq!(sys.get_wallet(7).unwrap().get_balance("BTC"), 4);
    assert!(sys.get_wallet_mut(8).is_none());
}

#[test]
fn funded_transfer_moves_the_amount() {
    let mut sys = WalletSystem::new();
    sys.add_wallet(wallet_with(1, vec![]));
    sys.add_wallet(wallet_with(2, vec![]));
    assert_eq!(sys.credit_wallet(1, "BTC", 10), Ok(()));
    let tx = sys.transfer(1, 2, "BTC", 4).expect("transfer is funded");
    assert_eq!(sys.get_wallet(1).unwrap().get_balance("BTC"), 6);
    assert_eq!(sys.get_wallet(2).unwrap().get_balance("BTC"), 4);
    assert_eq!(tx.from_wallet_id, 1);
    assert_eq!(tx.to_wallet_id, 2);
    assert_eq!(tx.token, "BTC");
    assert_eq!(tx.amount, 4);
    assert_eq!(sys.transactions, vec![tx]);
}

#[test]
fn self_transfer_is_refused_without_change() {
    let mut sys = WalletSystem::new();
    sys.add_wallet(wallet_with(1, vec![("BTC", 10)]));
    let before = sys.clone();
    assert_eq!(sys.transfer(1, 1, "BTC", 1), Err(WError::SelfTransfer));
    assert_eq!(sys, before);
}

#[test]
fn zero_amount_is_refused_without_change() {
    let mut sys = WalletSystem::new();
    sys.add_wallet(wallet_with(1, vec![("BTC", 10)]));
    sys.add_wallet(wallet_with(2, vec![]));
    let before = sys.clone();
    assert_eq!(sys.transfer(1, 2, "BTC", 0), Err(WError::InvalidAmount(0)));
    assert_eq!(sys, before);
}

#[test]
fn insufficient_balance_is_refused_without_change() {
    let mut sys = WalletSystem::new();
    sys.add_wallet(wallet_with(1, vec![("BTC", 6)]));
    sys.add_wallet(wallet_with(2, vec![]));
    let before = sys.clone();
    assert_eq!(
        sys.transfer(1, 2, "BTC", 999),
        Err(WError::InsufficientBalance {
            wallet_id: 1,
            token: "BTC".to_string(),
            balance: 6,
            amount: 999,
        })
    );
    assert_eq!(sys, before);
}

#[test]
fn unknown_receiver_is_refused_without_change() {
    let mut sys = WalletSystem::new();
    sys.add_wallet(wallet_with(1, vec![("BTC", 6)]));
    let before = sys.clone();
    assert_eq!(sys.transfer(1, 99, "BTC", 1), Err(WError::WalletNotFound(99)));
    assert_eq!(sys, before);
}

#[test]
fn unknown_sender_is_refused_without_change() {
    let mut sys = WalletSystem::new();
    sys.add_wallet(wallet_with(2, vec![]));
    let before = sys.clone();
    assert_eq!(sys.transfer(98, 2, "BTC", 1), Err(WError::WalletNotFound(98)));
    assert_eq!(sys, before);
}

#[test]
fn transfer_conserves_the_token_total() {
    let mut sys = WalletSystem::new();
    sys.add_wallet(wallet_with(1, vec![("BTC", 10), ("ETH", 2)]));
    sys.add_wallet(wallet_with(2, vec![("BTC", 1)]));
    sys.add_wallet(wallet_with(3, vec![("BTC", 5)]));
    let total_before: u64 = sys.wallets.iter().map(|w| w.get_balance("BTC")).sum();
    sys.transfer(1, 2, "BTC", 7).expect("transfer is funded");
    let total_after: u64 = sys.wallets.iter().map(|w| w.get_balance("BTC")).sum();
    assert_eq!(total_before, 16);
    assert_eq!(total_after, 16);
    let a = sys.get_wallet(1).unwrap();
    let b = sys.get_wallet(2).unwrap();
    assert_eq!(a.get_balance("BTC"), 3);
    assert_eq!(b.get_balance("BTC"), 8);
    assert_eq!(a.get_balance("ETH"), 2);
    assert_eq!(sys.get_wallet(3).unwrap().get_balance("BTC"), 5);
}

#[test]
fn history_keeps_only_touching_transfers_in_order() {
    let mut sys = WalletSystem::new();
    sys.add_wallet(wallet_with(1, vec![("BTC", 10)]));
    sys.add_wallet(wallet_with(2, vec![("BTC", 10)]));
    sys.add_wallet(wallet_with(3, vec![("BTC", 10)]));
    let t1 = sys.transfer(1, 2, "BTC", 1).unwrap();
    let t2 = sys.transfer(2, 3, "BTC", 2).unwrap();
    let t3 = sys.transfer(3, 1, "BTC", 3).unwrap();
    assert_eq!(sys.get_wallet_transactions(1), vec![t1.clone(), t3.clone()]);
    assert_eq!(sys.get_wallet_transactions(2), vec![t1.clone(), t2.clone()]);
    assert_eq!(sys.get_wallet_transactions(3), vec![t2, t3]);
    assert_eq!(sys.get_wallet_transactions(4), vec![]);
    assert_eq!(sys.transactions.len(), 3);
}

#[test]
fn credit_wallet_checks_its_inputs() {
    let mut sys = WalletSystem::new();
    sys.add_wallet(wallet_with(1, vec![]));
    assert_eq!(sys.credit_wallet(1, "BTC", 0), Err(WError::InvalidAmount(0)));
    assert_eq!(sys.credit_wallet(9, "BTC", 5), Err(WError::WalletNotFound(9)));
    assert_eq!(sys.credit_wallet(1, "BTC", 5), Ok(()));
    assert_eq!(sys.get_wallet(1).unwrap().get_balance("BTC"), 5);
    assert!(sys.transactions.is_empty());
}

#[test]
fn snapshot_parts_round_trip() {
    let mut sys = WalletSystem::new();
    sys.add_wallet(wallet_with(1, vec![("BTC", 10)]));
    sys.add_wallet(wallet_with(2, vec![]));
    sys.transfer(1, 2, "BTC", 4).unwrap();
    let rebuilt = WalletSystem::from_parts(sys.wallets.clone(), sys.transactions.clone())
        .expect("a well-formed ledger's parts are accepted");
    assert_eq!(rebuilt, sys);
}

#[test]
fn malformed_snapshot_parts_are_refused() {
    // two wallets under one id
    assert_eq!(
        WalletSystem::from_parts(vec![wallet_with(1, vec![]), wallet_with(1, vec![])], vec![]),
        Err(StorageErrors::SerializationError)
    );
    // one wallet with two entries for one token
    assert_eq!(
        WalletSystem::from_parts(vec![wallet_with(1, vec![("BTC", 1), ("BTC", 2)])], vec![]),
        Err(StorageErrors::SerializationError)
    );
    let wallets = vec![wallet_with(1, vec![]), wallet_with(2, vec![])];
    // a transfer from a wallet to itself
    assert_eq!(
        WalletSystem::from_parts(wallets.clone(), vec![Transaction {
            id: 5,
            from_wallet_id: 1,
            to_wallet_id: 1,
            amount: 1,
            token: "BTC".to_string(),
            created_at: 0,
        }]),
        Err(StorageErrors::SerializationError)
    );
    // a transfer of nothing
    assert_eq!(
        WalletSystem::from_parts(wallets.clone(), vec![Transaction {
            id: 5,
            from_wallet_id: 1,
            to_wallet_id: 2,
            amount: 0,
            token: "BTC".to_string(),
            created_at: 0,
        }]),
        Err(StorageErrors::SerializationError)
    );
    // a transfer touching an untracked wallet
    assert_eq!(
        WalletSystem::from_parts(wallets, vec![Transaction {
            id: 5,
            from_wallet_id: 1,
            to_wallet_id: 3,
            amount: 1,
            token: "BTC".to_string(),
            created_at: 0,
        }]),
        Err(StorageErrors::SerializationError)
    );
}

#[test]
fn created_wallets_transfer_by_their_ids() {
    let mut sys = WalletSystem::new();
    let a = Wallet::new(Some("A".to_string()));
    let b = Wallet::new(Some("B".to_string()));
    let (a1, b1) = (a.id, b.id);
    sys.add_wallet(a);
    sys.add_wallet(b);
    sys.credit_wallet(a1, "BTC", 10).unwrap();
    sys.transfer(a1, b1, "BTC", 4).unwrap();
    assert_eq!(sys.get_wallet(a1).unwrap().get_balance("BTC"), 6);
    assert_eq!(sys.get_wallet(b1).unwrap().get_balance("BTC"), 4);
}

#[test]
fn storage_remembers_its_path() {
    let storage = Storage::new("wallet_data.json");
    assert_eq!(storage.file_path, "wallet_data.json");
}
