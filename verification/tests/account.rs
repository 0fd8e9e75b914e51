use ledger::account::{Account, Error, Op};

#[test]
fn create() {
    let account = Account::new();
    assert_eq!(account.available(), 0);
    assert_eq!(account.held(), 0);
    assert!(!account.locked());
    assert_eq!(account.log_len(), 0);
    assert_eq!(account.disputes_len(), 0);
    assert_eq!(account.total(), 0)
}

#[test]
fn deposit() {
    let mut account = Account::new();

    assert!(account.deposit(0, 5).is_ok());
    assert_eq!(account.available(), 5);
    assert_eq!(account.held(), 0);
    assert!(!account.locked());
    assert_eq!(account.log_amount(0), Some(5));
    assert_eq!(account.log_len(), 1);
    assert_eq!(account.disputes_len(), 0);
    assert_eq!(account.total(), 5);

    assert!(account.deposit(1, 3).is_ok());
    assert_eq!(account.available(), 8);
    assert_eq!(account.held(), 0);
    assert!(!account.locked());
    assert_eq!(account.log_amount(0), Some(5));
    assert_eq!(account.log_amount(1), Some(3));
    assert_eq!(account.log_len(), 2);
    assert_eq!(account.disputes_len(), 0);
    assert_eq!(account.total(), 8);

    assert_eq!(
        account.deposit(0, 1).unwrap_err(),
        Error::TransactionAlreadyExists(0)
    );
    assert_eq!(
        account.deposit(2, -1).unwrap_err(),
        Error::NegativeAmount(-1)
    );
    assert_eq!(account.total(), 8)
}

#[test]
fn withdraw() {
    let mut account = Account::new();

    account.deposit(0, 5).unwrap();
    assert_eq!(account.total(), 5);

    assert!(account.withdraw(1, 3).is_ok());
    assert_eq!(account.available(), 2);
    assert_eq!(account.held(), 0);
    assert!(!account.locked());
    assert_eq!(account.log_amount(0), Some(5));
    assert_eq!(account.log_amount(1), Some(-3));
    assert_eq!(account.log_len(), 2);
    assert_eq!(account.disputes_len(), 0);
    assert_eq!(account.total(), 2);

    assert_eq!(
        account.withdraw(0, 1).unwrap_err(),
        Error::TransactionAlreadyExists(0)
    );
    assert_eq!(
        account.withdraw(2, 3).unwrap_err(),
        Error::InsufficientFunds
    );

    assert_eq!(
        account.withdraw(2, -1).unwrap_err(),
        Error::NegativeAmount(-1)
    );
    assert_eq!(account.log_len(), 2);
    assert_eq!(account.total(), 2)
}

#[test]
fn dispute() {
    let mut account = Account::new();

    account.deposit(0, 5).unwrap();
    account.withdraw(1, 3).unwrap();

    assert_eq!(account.total(), 2);

    assert!(account.dispute(0).is_ok());
    assert_eq!(account.available(), -3);
    assert_eq!(account.held(), 5);
    assert!(!account.locked());
    assert_eq!(account.log_amount(0), Some(5));
    assert_eq!(account.log_amount(1), Some(-3));
    assert!(account.is_disputed(0));
    assert!(!account.is_disputed(1));
    assert_eq!(account.disputes_len(), 1);
    assert_eq!(account.total(), 2);

    assert!(account.dispute(1).is_ok());
    assert_eq!(account.available(), 0);
    assert_eq!(account.held(), 2);
    assert!(!account.locked());
    assert!(account.is_disputed(0));
    assert!(account.is_disputed(1));
    assert_eq!(account.disputes_len(), 2);
    assert_eq!(account.total(), 2);

    assert_eq!(
        account.dispute(2).unwrap_err(),
        Error::TransactionUnknown(2)
    );
    assert_eq!(
        account.dispute(0).unwrap_err(),
        Error::TransactionAlreadyDisputed(0)
    );

    assert_eq!(account.total(), 2)
}

#[test]
fn resolve() {
    let mut account = Account::new();
    account.deposit(0, 5).unwrap();
    account.dispute(0).unwrap();

    assert!(account.resolve(0).is_ok());
    assert_eq!(account.available(), 5);
    assert_eq!(account.held(), 0);
    assert!(!account.locked());
    assert_eq!(account.log_amount(0), Some(5));
    assert_eq!(account.disputes_len(), 0);
    assert_eq!(account.total(), 5);

    assert_eq!(
        account.resolve(1).unwrap_err(),
        Error::TransactionUnknown(1)
    );
    assert_eq!(
        account.resolve(0).unwrap_err(),
        Error::TransactionUndisputed(0)
    );
    assert_eq!(account.total(), 5);
}

#[test]
fn chargeback() {
    let mut account = Account::new();

    assert_eq!(
        account.chargeback(0).unwrap_err(),
        Error::TransactionUnknown(0)
    );

    account.deposit(0, 5).unwrap();

    assert_eq!(
        account.chargeback(0).unwrap_err(),
        Error::TransactionUndisputed(0)
    );

    account.dispute(0).unwrap();

    assert!(account.chargeback(0).is_ok());
    assert_eq!(account.available(), 0);
    assert_eq!(account.held(), 0);
    assert!(account.locked());
    assert_eq!(account.log_amount(0), Some(5));
    assert_eq!(account.disputes_len(), 0);
    assert_eq!(account.total(), 0);

    assert_eq!(account.deposit(1, 1).unwrap_err(), Error::Locked);
    assert_eq!(account.withdraw(1, 1).unwrap_err(), Error::Locked);
    assert_eq!(account.dispute(1).unwrap_err(), Error::Locked);
    assert_eq!(account.resolve(1).unwrap_err(), Error::Locked);
    assert_eq!(account.chargeback(1).unwrap_err(), Error::Locked);
    assert_eq!(account.total(), 0);
}

#[test]
fn dispute_withdrawal_then_resolve_restores() {
    let mut account = Account::new();
    account.deposit(0, 500).unwrap();
    account.withdraw(1, 300).unwrap();
    assert_eq!(account.available(), 200);
    assert_eq!(account.held(), 0);

    // Disputing a withdrawal holds its negative net amount: available rises,
    // held falls, the total is unchanged.
    account.dispute(1).unwrap();
    assert_eq!(account.available(), 500);
    assert_eq!(account.held(), -300);
    assert_eq!(account.total(), 200);

    // Resolving restores available and held to their pre-dispute values.
    account.resolve(1).unwrap();
    assert_eq!(account.available(), 200);
    assert_eq!(account.held(), 0);
    assert_eq!(account.total(), 200);
    assert!(!account.is_disputed(1));
}

#[test]
fn deposit_overflow_does_not_fit() {
    let mut account = Account::new();
    account.deposit(0, i64::MAX).unwrap();
    assert_eq!(account.available(), i64::MAX);

    // A further deposit would overflow the available balance: the fitness
    // check reports it, while a fitting operation passes.
    assert!(!account.op_fits(&Op::Deposit { tx: 1, amount: 1 }));
    assert!(account.op_fits(&Op::Deposit { tx: 1, amount: 0 }));
    assert!(account.op_fits(&Op::Withdraw { tx: 1, amount: 100 }));
}
