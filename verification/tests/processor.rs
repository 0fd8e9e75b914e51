use ledger::account::Error as AccountError;
use ledger::processor::{Error, Message, Processor};

fn send(p: &mut Processor, msg: Message) -> Result<(), Error> {
    assert!(p.fits(&msg));
    p.handle(msg)
}

#[test]
fn two_deposits() {
    let mut p = Processor::new();
    send(&mut p, Message::Deposit { client: 1, tx: 0, amount: 500 }).unwrap();
    send(&mut p, Message::Deposit { client: 1, tx: 1, amount: 300 }).unwrap();

    let state = p.state();
    assert_eq!(state.len(), 1);
    assert_eq!(state[0].client, 1);
    assert_eq!(state[0].available, 800);
    assert_eq!(state[0].held, 0);
    assert_eq!(state[0].total, 800);
    assert!(!state[0].locked);
}

#[test]
fn withdrawal_and_insufficient_funds() {
    let mut p = Processor::new();
    send(&mut p, Message::Deposit { client: 1, tx: 0, amount: 500 }).unwrap();
    send(&mut p, Message::Deposit { client: 1, tx: 1, amount: 300 }).unwrap();
    send(&mut p, Message::Withdrawal { client: 1, tx: 2, amount: 300 }).unwrap();

    let state = p.state();
    assert_eq!(state[0].available, 500);
    assert_eq!(state[0].held, 0);
    assert_eq!(state[0].total, 500);

    assert_eq!(
        send(&mut p, Message::Withdrawal { client: 1, tx: 3, amount: 600 }).unwrap_err(),
        Error::Transaction { client: 1, err: AccountError::InsufficientFunds }
    );
    let state = p.state();
    assert_eq!(state[0].available, 500);
}

#[test]
fn chargeback_locks_the_account() {
    let mut p = Processor::new();
    send(&mut p, Message::Deposit { client: 1, tx: 0, amount: 500 }).unwrap();
    send(&mut p, Message::Dispute { client: 1, tx: 0 }).unwrap();
    send(&mut p, Message::Chargeback { client: 1, tx: 0 }).unwrap();

    let state = p.state();
    assert_eq!(state[0].available, 0);
    assert_eq!(state[0].held, 0);
    assert_eq!(state[0].total, 0);
    assert!(state[0].locked);

    assert_eq!(
        send(&mut p, Message::Deposit { client: 1, tx: 1, amount: 100 }).unwrap_err(),
        Error::Transaction { client: 1, err: AccountError::Locked }
    );
    let state = p.state();
    assert_eq!(state[0].total, 0);
    assert!(state[0].locked);
}

#[test]
fn unknown_transaction_and_undisputed() {
    let mut p = Processor::new();
    send(&mut p, Message::Deposit { client: 1, tx: 0, amount: 500 }).unwrap();

    assert_eq!(
        send(&mut p, Message::Dispute { client: 1, tx: 9 }).unwrap_err(),
        Error::Transaction { client: 1, err: AccountError::TransactionUnknown(9) }
    );
    assert_eq!(
        send(&mut p, Message::Resolve { client: 1, tx: 0 }).unwrap_err(),
        Error::Transaction { client: 1, err: AccountError::TransactionUndisputed(0) }
    );
}

#[test]
fn only_deposits_create_accounts() {
    let mut p = Processor::new();

    assert_eq!(
        send(&mut p, Message::Withdrawal { client: 7, tx: 0, amount: 5 }).unwrap_err(),
        Error::UnknownClient(7)
    );
    assert_eq!(
        send(&mut p, Message::Dispute { client: 7, tx: 0 }).unwrap_err(),
        Error::UnknownClient(7)
    );
    assert_eq!(
        send(&mut p, Message::Resolve { client: 7, tx: 0 }).unwrap_err(),
        Error::UnknownClient(7)
    );
    assert_eq!(
        send(&mut p, Message::Chargeback { client: 7, tx: 0 }).unwrap_err(),
        Error::UnknownClient(7)
    );
    assert!(p.state().is_empty());

    send(&mut p, Message::Deposit { client: 7, tx: 0, amount: 5 }).unwrap();
    assert_eq!(p.state().len(), 1);
}

#[test]
fn rejected_deposit_still_creates_the_account() {
    let mut p = Processor::new();
    assert_eq!(
        send(&mut p, Message::Deposit { client: 3, tx: 0, amount: -1 }).unwrap_err(),
        Error::Transaction { client: 3, err: AccountError::NegativeAmount(-1) }
    );

    let state = p.state();
    assert_eq!(state.len(), 1);
    assert_eq!(state[0].client, 3);
    assert_eq!(state[0].available, 0);
    assert_eq!(state[0].held, 0);
    assert!(!state[0].locked);
}

#[test]
fn snapshot_is_sorted_by_client() {
    let mut p = Processor::new();
    send(&mut p, Message::Deposit { client: 5, tx: 0, amount: 50 }).unwrap();
    send(&mut p, Message::Deposit { client: 2, tx: 1, amount: 20 }).unwrap();
    send(&mut p, Message::Deposit { client: 9, tx: 2, amount: 90 }).unwrap();

    let state = p.state();
    assert_eq!(state.len(), 3);
    assert_eq!(state[0].client, 2);
    assert_eq!(state[0].available, 20);
    assert_eq!(state[1].client, 5);
    assert_eq!(state[1].available, 50);
    assert_eq!(state[2].client, 9);
    assert_eq!(state[2].available, 90);
}

#[test]
fn snapshot_reflects_exactly_the_events_before_it() {
    let mut p = Processor::new();
    send(&mut p, Message::Deposit { client: 1, tx: 0, amount: 100 }).unwrap();
    send(&mut p, Message::Deposit { client: 1, tx: 1, amount: 50 }).unwrap();

    let before = p.state();
    assert_eq!(before[0].available, 150);

    // A later event is not visible in the snapshot taken before it.
    send(&mut p, Message::Withdrawal { client: 1, tx: 2, amount: 30 }).unwrap();
    assert_eq!(before[0].available, 150);

    let after = p.state();
    assert_eq!(after[0].available, 120);
}

#[test]
fn overflowing_deposit_does_not_fit() {
    let mut p = Processor::new();
    send(&mut p, Message::Deposit { client: 1, tx: 0, amount: i64::MAX }).unwrap();

    assert!(!p.fits(&Message::Deposit { client: 1, tx: 1, amount: 1 }));
    assert!(p.fits(&Message::Deposit { client: 1, tx: 1, amount: 0 }));
    // A fresh client's first deposit always fits.
    assert!(p.fits(&Message::Deposit { client: 2, tx: 1, amount: i64::MAX }));
}
