//! One client's account ledger: available and held balances, a log of the
//! signed net amount of every recorded transaction, and the set of
//! transactions currently under dispute.
//!
//! Every operation validates fully before it mutates, so a rejected event
//! leaves the account exactly as it was. The account's mathematical model is
//! [`AccountModel`]; each operation's effect is given by a spec-level
//! transition function (`spec_deposit`, `spec_withdraw`, ...) and the
//! executable methods are proved to implement those transitions exactly.

use vstd::prelude::*;

verus! {

/// The reason an account rejected an operation.
#[derive(Clone, Debug, PartialEq, Eq, Structural)]
pub enum Error {
    /// The transaction id is already recorded for this account.
    TransactionAlreadyExists(u32),
    /// The transaction id is not recorded for this account.
    TransactionUnknown(u32),
    /// The transaction is not currently under dispute.
    TransactionUndisputed(u32),
    /// The transaction is already under dispute.
    TransactionAlreadyDisputed(u32),
    /// A withdrawal asked for more than the available balance.
    InsufficientFunds,
    /// A deposit or withdrawal carried a negative amount.
    NegativeAmount(i64),
    /// The account is locked; no operation may change it any more.
    Locked,
}

/// The mathematical model of one account.
pub struct AccountModel {
    /// Funds usable for withdrawal or dispute, in minor currency units.
    pub available: int,
    /// Funds frozen pending dispute resolution.
    pub held: int,
    /// Once true, every operation fails with [`Error::Locked`].
    pub locked: bool,
    /// Signed net amount recorded per transaction id: positive for a
    /// deposit, negative for a withdrawal.
    pub log: Map<u32, i64>,
    /// Transaction ids currently under dispute; always a subset of the
    /// log's keys.
    pub disputes: Set<u32>,
}

/// The model of a freshly created account: zero balances, unlocked, empty
/// history.
pub open spec fn spec_new() -> AccountModel {
    AccountModel {
        available: 0,
        held: 0,
        locked: false,
        log: Map::empty(),
        disputes: Set::empty(),
    }
}

/// Whether a mathematical value fits the machine representation of a balance.
pub open spec fn in_i64(x: int) -> bool {
    i64::MIN <= x <= i64::MAX
}

/// Whether a model's balances, and their sum, fit the machine representation.
/// The executable operations require this of the state they would produce;
/// an operation whose arithmetic would overflow is outside their contract.
pub open spec fn model_fits(a: AccountModel) -> bool {
    in_i64(a.available) && in_i64(a.held) && in_i64(a.available + a.held)
}

/// Sum of the signed amounts recorded in a log.
pub open spec fn sum_log(m: Map<u32, i64>) -> int
    decreases m.dom().len() when m.dom().finite()
{
    if m.dom().finite() && m.dom().len() > 0 {
        let k = m.dom().choose();
        m[k] + sum_log(m.remove(k))
    } else {
        0
    }
}

/// The account invariant: the dispute set names only recorded transactions,
/// the total fits a machine balance, and — as long as the account is not
/// locked — the total equals the sum of all recorded amounts. (A chargeback
/// removes funds permanently while the transaction stays recorded, and it
/// always locks the account, so the equation is stated for unlocked
/// accounts.)
pub open spec fn inv(a: AccountModel) -> bool {
    &&& a.log.dom().finite()
    &&& a.disputes.finite()
    &&& a.disputes.subset_of(a.log.dom())
    &&& in_i64(a.available + a.held)
    &&& (!a.locked ==> a.available + a.held == sum_log(a.log))
}

/// Record a transaction's signed net amount: rejected if the id was already
/// recorded, otherwise the amount is logged and credited to `available`.
pub open spec fn spec_tx(a: AccountModel, tx: u32, amount: i64) -> (AccountModel, Result<(), Error>) {
    if a.log.contains_key(tx) {
        (a, Err(Error::TransactionAlreadyExists(tx)))
    } else {
        (AccountModel {
            available: a.available + amount,
            held: a.held,
            locked: a.locked,
            log: a.log.insert(tx, amount),
            disputes: a.disputes,
        }, Ok(()))
    }
}

/// A deposit credits `available` by a non-negative amount.
pub open spec fn spec_deposit(a: AccountModel, tx: u32, amount: i64) -> (AccountModel, Result<(), Error>) {
    if a.locked {
        (a, Err(Error::Locked))
    } else if amount < 0 {
        (a, Err(Error::NegativeAmount(amount)))
    } else {
        spec_tx(a, tx, amount)
    }
}

/// A withdrawal debits `available` by a non-negative amount, and is rejected
/// before any mutation when the available balance does not cover it.
pub open spec fn spec_withdraw(a: AccountModel, tx: u32, amount: i64) -> (AccountModel, Result<(), Error>) {
    if a.locked {
        (a, Err(Error::Locked))
    } else if amount < 0 {
        (a, Err(Error::NegativeAmount(amount)))
    } else if a.available < amount {
        (a, Err(Error::InsufficientFunds))
    } else {
        spec_tx(a, tx, (-amount) as i64)
    }
}

/// A dispute freezes a recorded transaction's net amount: the amount moves
/// from `available` to `held`, leaving the total unchanged.
pub open spec fn spec_dispute(a: AccountModel, tx: u32) -> (AccountModel, Result<(), Error>) {
    if a.locked {
        (a, Err(Error::Locked))
    } else if !a.log.contains_key(tx) {
        (a, Err(Error::TransactionUnknown(tx)))
    } else if a.disputes.contains(tx) {
        (a, Err(Error::TransactionAlreadyDisputed(tx)))
    } else {
        (AccountModel {
            available: a.available - a.log[tx],
            held: a.held + a.log[tx],
            locked: a.locked,
            log: a.log,
            disputes: a.disputes.insert(tx),
        }, Ok(()))
    }
}

/// A resolve releases a disputed transaction's hold: the amount moves back
/// from `held` to `available`, leaving the total unchanged.
pub open spec fn spec_resolve(a: AccountModel, tx: u32) -> (AccountModel, Result<(), Error>) {
    if a.locked {
        (a, Err(Error::Locked))
    } else if !a.log.contains_key(tx) {
        (a, Err(Error::TransactionUnknown(tx)))
    } else if !a.disputes.contains(tx) {
        (a, Err(Error::TransactionUndisputed(tx)))
    } else {
        (AccountModel {
            available: a.available + a.log[tx],
            held: a.held - a.log[tx],
            locked: a.locked,
            log: a.log,
            disputes: a.disputes.remove(tx),
        }, Ok(()))
    }
}

/// A chargeback reverses a disputed transaction: the held amount is removed
/// permanently and the account is locked.
pub open spec fn spec_chargeback(a: AccountModel, tx: u32) -> (AccountModel, Result<(), Error>) {
    if a.locked {
        (a, Err(Error::Locked))
    } else if !a.log.contains_key(tx) {
        (a, Err(Error::TransactionUnknown(tx)))
    } else if !a.disputes.contains(tx) {
        (a, Err(Error::TransactionUndisputed(tx)))
    } else {
        (AccountModel {
            available: a.available,
            held: a.held - a.log[tx],
            locked: true,
            log: a.log,
            disputes: a.disputes.remove(tx),
        }, Ok(()))
    }
}

/// One account-level operation, as routed by the processor.
#[derive(Clone, Copy, Debug, PartialEq, Eq, Structural)]
pub enum Op {
    Deposit { tx: u32, amount: i64 },
    Withdraw { tx: u32, amount: i64 },
    Dispute { tx: u32 },
    Resolve { tx: u32 },
    Chargeback { tx: u32 },
}

/// Dispatch one operation to its transition function.
pub open spec fn spec_apply(a: AccountModel, op: Op) -> (AccountModel, Result<(), Error>) {
    match op {
        Op::Deposit { tx, amount } => spec_deposit(a, tx, amount),
        Op::Withdraw { tx, amount } => spec_withdraw(a, tx, amount),
        Op::Dispute { tx } => spec_dispute(a, tx),
        Op::Resolve { tx } => spec_resolve(a, tx),
        Op::Chargeback { tx } => spec_chargeback(a, tx),
    }
}

/// Association view of the log vector: later entries would win, but the
/// account keeps the keys unique so every entry is authoritative.
pub open spec fn log_map(s: Seq<(u32, i64)>) -> Map<u32, i64>
    decreases s.len()
{
    if s.len() == 0 {
        Map::empty()
    } else {
        log_map(s.drop_last()).insert(s.last().0, s.last().1)
    }
}

/// No two entries of the log vector share a transaction id.
pub open spec fn unique_keys(s: Seq<(u32, i64)>) -> bool {
    forall|i: int, j: int| 0 <= i < j < s.len() ==> s[i].0 != s[j].0
}

/// No two entries of the dispute vector are equal.
pub open spec fn unique_elems(s: Seq<u32>) -> bool {
    forall|i: int, j: int| 0 <= i < j < s.len() ==> s[i] != s[j]
}

/// Summing a log commutes with taking one recorded entry out.
proof fn lemma_sum_remove(m: Map<u32, i64>, k: u32)
    requires
        m.dom().finite(),
        m.contains_key(k),
    ensures
        sum_log(m) == m[k] + sum_log(m.remove(k)),
    decreases m.dom().len(),
{
    let c = m.dom().choose();
    assert(m.dom().contains(k));
    assert(m.dom().len() > 0);
    if c == k {
        assert(sum_log(m) == m[k] + sum_log(m.remove(k)));
    } else {
        assert(m.dom().contains(c));
        lemma_sum_remove(m.remove(c), k);
        lemma_sum_remove(m.remove(k), c);
        assert(m.remove(c).remove(k) =~= m.remove(k).remove(c));
        assert(sum_log(m) == m[c] + sum_log(m.remove(c)));
    }
}

/// Summing a log commutes with recording a new entry.
proof fn lemma_sum_insert(m: Map<u32, i64>, k: u32, v: i64)
    requires
        m.dom().finite(),
        !m.contains_key(k),
    ensures
        sum_log(m.insert(k, v)) == sum_log(m) + v,
{
    lemma_sum_remove(m.insert(k, v), k);
    assert(m.insert(k, v).remove(k) =~= m);
}

/// The association view of a log vector has a finite domain.
proof fn lemma_log_map_finite(s: Seq<(u32, i64)>)
    ensures
        log_map(s).dom().finite(),
    decreases s.len(),
{
    if s.len() > 0 {
        lemma_log_map_finite(s.drop_last());
    }
}

/// A key is in the association view exactly when some entry carries it.
proof fn lemma_log_map_contains(s: Seq<(u32, i64)>, k: u32)
    ensures
        log_map(s).contains_key(k) <==> exists|i: int| 0 <= i < s.len() && s[i].0 == k,
    decreases s.len(),
{
    if s.len() > 0 {
        lemma_log_map_contains(s.drop_last(), k);
        if s.last().0 == k {
            assert(s[s.len() - 1].0 == k);
        } else {
            if log_map(s).contains_key(k) {
                let i = choose|i: int| 0 <= i < s.drop_last().len() && s.drop_last()[i].0 == k;
                assert(s[i].0 == k);
            }
            if exists|i: int| 0 <= i < s.len() && s[i].0 == k {
                let i = choose|i: int| 0 <= i < s.len() && s[i].0 == k;
                assert(i != s.len() - 1);
                assert(s.drop_last()[i].0 == k);
            }
        }
    }
}

/// Dropping the last entry keeps the keys unique.
proof fn lemma_unique_keys_drop_last(s: Seq<(u32, i64)>)
    requires
        unique_keys(s),
        s.len() > 0,
    ensures
        unique_keys(s.drop_last()),
{
    assert forall|x: int, y: int|
        0 <= x < y < s.drop_last().len() implies s.drop_last()[x].0 != s.drop_last()[y].0 by {
        assert(s.drop_last()[x] == s[x]);
        assert(s.drop_last()[y] == s[y]);
    }
}

/// With unique keys, every entry of the vector is authoritative in the view.
proof fn lemma_log_map_index(s: Seq<(u32, i64)>, i: int)
    requires
        unique_keys(s),
        0 <= i < s.len(),
    ensures
        log_map(s).contains_key(s[i].0),
        log_map(s)[s[i].0] == s[i].1,
    decreases s.len(),
{
    if i == s.len() - 1 {
        assert(s.last() == s[i]);
    } else {
        lemma_unique_keys_drop_last(s);
        lemma_log_map_index(s.drop_last(), i);
        assert(s.drop_last()[i] == s[i]);
        assert(s.last().0 != s[i].0);
    }
}

/// With unique keys, the view has exactly one key per vector entry.
proof fn lemma_log_map_len(s: Seq<(u32, i64)>)
    requires
        unique_keys(s),
    ensures
        log_map(s).dom().len() == s.len(),
    decreases s.len(),
{
    if s.len() > 0 {
        lemma_unique_keys_drop_last(s);
        lemma_log_map_len(s.drop_last());
        lemma_log_map_finite(s.drop_last());
        lemma_log_map_contains(s.drop_last(), s.last().0);
        assert(forall|i: int| 0 <= i < s.drop_last().len() ==> s.drop_last()[i] == s[i]);
        assert(!log_map(s.drop_last()).contains_key(s.last().0));
    }
}

/// Removing one entry of a duplicate-free vector removes exactly that
/// element from the set it denotes.
proof fn lemma_to_set_remove(s: Seq<u32>, i: int)
    requires
        unique_elems(s),
        0 <= i < s.len(),
    ensures
        s.remove(i).to_set() =~= s.to_set().remove(s[i]),
{
    s.remove_ensures(i);
    assert forall|y: u32| s.remove(i).to_set().contains(y) implies s.to_set().remove(s[i]).contains(y) by {
        let j = choose|j: int| 0 <= j < s.remove(i).len() && s.remove(i)[j] == y;
        if j < i {
            assert(s[j] == y);
        } else {
            assert(s[j + 1] == y);
        }
    }
    assert forall|y: u32| s.to_set().remove(s[i]).contains(y) implies s.remove(i).to_set().contains(y) by {
        let j = choose|j: int| 0 <= j < s.len() && s[j] == y;
        assert(j != i);
        if j < i {
            assert(s.remove(i)[j] == y);
        } else {
            assert(s.remove(i)[j - 1] == y);
        }
    }
}

/// Removing one entry of a duplicate-free vector keeps it duplicate-free.
proof fn lemma_unique_elems_remove(s: Seq<u32>, i: int)
    requires
        unique_elems(s),
        0 <= i < s.len(),
    ensures
        unique_elems(s.remove(i)),
{
    s.remove_ensures(i);
    assert forall|x: int, y: int|
        0 <= x < y < s.remove(i).len() implies s.remove(i)[x] != s.remove(i)[y] by {
        if x < i {
            assert(s.remove(i)[x] == s[x]);
        } else {
            assert(s.remove(i)[x] == s[x + 1]);
        }
        if y < i {
            assert(s.remove(i)[y] == s[y]);
        } else {
            assert(s.remove(i)[y] == s[y + 1]);
        }
    }
}

/// Appending an element adds exactly it to the set a vector denotes.
proof fn lemma_to_set_push(s: Seq<u32>, x: u32)
    ensures
        s.push(x).to_set() =~= s.to_set().insert(x),
{
    assert forall|y: u32| s.push(x).to_set().contains(y) implies s.to_set().insert(x).contains(y) by {
        let j = choose|j: int| 0 <= j < s.push(x).len() && s.push(x)[j] == y;
        if j < s.len() {
            assert(s[j] == y);
        }
    }
    assert forall|y: u32| s.to_set().insert(x).contains(y) implies s.push(x).to_set().contains(y) by {
        if y == x {
            assert(s.push(x)[s.len() as int] == y);
        } else {
            let j = choose|j: int| 0 <= j < s.len() && s[j] == y;
            assert(s.push(x)[j] == y);
        }
    }
}

/// One client's account.
#[derive(Clone, Debug)]
pub struct Account {
    available: i64,
    held: i64,
    locked: bool,
    log: Vec<(u32, i64)>,
    disputes: Vec<u32>,
}

impl View for Account {
    type V = AccountModel;

    closed spec fn view(&self) -> AccountModel {
        AccountModel {
            available: self.available as int,
            held: self.held as int,
            locked: self.locked,
            log: log_map(self.log@),
            disputes: self.disputes@.to_set(),
        }
    }
}

impl Account {
    /// Well-formedness: the vectors carry no duplicate, every disputed id is
    /// recorded, and the model invariant holds.
    pub closed spec fn wf(&self) -> bool {
        &&& unique_keys(self.log@)
        &&& unique_elems(self.disputes@)
        &&& inv(self@)
    }

    /// A fresh account: zero balances, unlocked, no history.
    pub fn new() -> (r: Account)
        ensures
            r.wf(),
            r@ == spec_new(),
    {
        let r = Account {
            available: 0,
            held: 0,
            locked: false,
            log: Vec::new(),
            disputes: Vec::new(),
        };
        proof {
            assert(r@.log =~= Map::<u32, i64>::empty());
            assert(r@.disputes =~= Set::<u32>::empty());
            assert(r@ == spec_new());
            assert(sum_log(r@.log) == 0);
        }
        r
    }

    /// The total funds of the account, available or held.
    pub fn total(&self) -> (r: i64)
        requires
            self.wf(),
        ensures
            r == self@.available + self@.held,
    {
        self.available + self.held
    }

    /// Record a transaction's signed net amount and credit it to the
    /// available balance; rejected if the id is already recorded.
    fn tx(&mut self, tx: u32, amount: i64) -> (r: Result<(), Error>)
        requires
            old(self).wf(),
            !old(self)@.locked,
            model_fits(spec_tx(old(self)@, tx, amount).0),
        ensures
            final(self).wf(),
            final(self)@ == spec_tx(old(self)@, tx, amount).0,
            r == spec_tx(old(self)@, tx, amount).1,
    {
        proof {
            lemma_log_map_contains(self.log@, tx);
        }
        match find_key(&self.log, tx) {
            Some(i) => {
                proof {
                    assert(self.log@[i as int].0 == tx);
                }
                Err(Error::TransactionAlreadyExists(tx))
            }
            None => {
                let ghost prior = self.log@;
                self.log.push((tx, amount));
                self.available = self.available + amount;
                proof {
                    assert(self.log@.drop_last() =~= prior);
                    assert(self.log@.last() == (tx, amount));
                    assert(log_map(self.log@) == log_map(prior).insert(tx, amount));
                    assert(unique_keys(self.log@)) by {
                        assert forall|x: int, y: int|
                            0 <= x < y < self.log@.len() implies self.log@[x].0 != self.log@[y].0 by {
                            if y < self.log@.len() - 1 {
                                assert(self.log@[x] == prior[x]);
                                assert(self.log@[y] == prior[y]);
                            } else {
                                assert(self.log@[x] == prior[x]);
                                assert(self.log@[y].0 == tx);
                            }
                        }
                    }
                    lemma_log_map_finite(prior);
                    lemma_sum_insert(log_map(prior), tx, amount);
                }
                Ok(())
            }
        }
    }

    /// A deposit credits the available balance by a non-negative amount.
    pub fn deposit(&mut self, tx: u32, amount: i64) -> (r: Result<(), Error>)
        requires
            old(self).wf(),
            model_fits(spec_deposit(old(self)@, tx, amount).0),
        ensures
            final(self).wf(),
            final(self)@ == spec_deposit(old(self)@, tx, amount).0,
            r == spec_deposit(old(self)@, tx, amount).1,
    {
        if self.locked {
            return Err(Error::Locked);
        }
        if amount < 0 {
            return Err(Error::NegativeAmount(amount));
        }
        self.tx(tx, amount)
    }

    /// A withdrawal debits the available balance by a non-negative amount;
    /// it is rejected, with no change to any fund, when the available
    /// balance does not cover it.
    pub fn withdraw(&mut self, tx: u32, amount: i64) -> (r: Result<(), Error>)
        requires
            old(self).wf(),
            model_fits(spec_withdraw(old(self)@, tx, amount).0),
        ensures
            final(self).wf(),
            final(self)@ == spec_withdraw(old(self)@, tx, amount).0,
            r == spec_withdraw(old(self)@, tx, amount).1,
    {
        if self.locked {
            return Err(Error::Locked);
        }
        if amount < 0 {
            return Err(Error::NegativeAmount(amount));
        }
        if self.available < amount {
            return Err(Error::InsufficientFunds);
        }
        self.tx(tx, -amount)
    }

    /// A dispute freezes a recorded transaction's net amount: the amount
    /// moves from the available to the held balance; the total is unchanged.
    pub fn dispute(&mut self, tx: u32) -> (r: Result<(), Error>)
        requires
            old(self).wf(),
            model_fits(spec_dispute(old(self)@, tx).0),
        ensures
            final(self).wf(),
            final(self)@ == spec_dispute(old(self)@, tx).0,
            r == spec_dispute(old(self)@, tx).1,
    {
        if self.locked {
            return Err(Error::Locked);
        }
        proof {
            lemma_log_map_contains(self.log@, tx);
        }
        match find_key(&self.log, tx) {
            None => Err(Error::TransactionUnknown(tx)),
            Some(i) => {
                proof {
                    lemma_log_map_index(self.log@, i as int);
                }
                match find_u32(&self.disputes, tx) {
                    Some(j) => {
                        proof {
                            assert(self.disputes@[j as int] == tx);
                            assert(self@.disputes.contains(tx));
                        }
                        Err(Error::TransactionAlreadyDisputed(tx))
                    }
                    None => {
                        let amount = self.log[i].1;
                        let ghost prior = self.disputes@;
                        self.disputes.push(tx);
                        self.available = self.available - amount;
                        self.held = self.held + amount;
                        proof {
                            lemma_to_set_push(prior, tx);
                            assert(unique_elems(self.disputes@)) by {
                                assert forall|x: int, y: int|
                                    0 <= x < y < self.disputes@.len()
                                    implies self.disputes@[x] != self.disputes@[y] by {
                                    assert(self.disputes@[x] == prior[x]);
                                    if y < self.disputes@.len() - 1 {
                                        assert(self.disputes@[y] == prior[y]);
                                    } else {
                                        assert(self.disputes@[y] == tx);
                                    }
                                }
                            }
                        }
                        Ok(())
                    }
                }
            }
        }
    }

    /// A resolve releases a disputed transaction's hold: the amount moves
    /// back from the held to the available balance; the total is unchanged.
    pub fn resolve(&mut self, tx: u32) -> (r: Result<(), Error>)
        requires
            old(self).wf(),
            model_fits(spec_resolve(old(self)@, tx).0),
        ensures
            final(self).wf(),
            final(self)@ == spec_resolve(old(self)@, tx).0,
            r == spec_resolve(old(self)@, tx).1,
    {
        if self.locked {
            return Err(Error::Locked);
        }
        proof {
            lemma_log_map_contains(self.log@, tx);
        }
        match find_key(&self.log, tx) {
            None => Err(Error::TransactionUnknown(tx)),
            Some(i) => {
                proof {
                    lemma_log_map_index(self.log@, i as int);
                }
                match find_u32(&self.disputes, tx) {
                    None => Err(Error::TransactionUndisputed(tx)),
                    Some(j) => {
                        let amount = self.log[i].1;
                        let ghost prior = self.disputes@;
                        self.disputes.remove(j);
                        self.available = self.available + amount;
                        self.held = self.held - amount;
                        proof {
                            assert(prior[j as int] == tx);
                            assert(prior.to_set().contains(tx));
                            lemma_to_set_remove(prior, j as int);
                            lemma_unique_elems_remove(prior, j as int);
                        }
                        Ok(())
                    }
                }
            }
        }
    }

    /// A chargeback reverses a disputed transaction: the held amount is
    /// removed permanently and the account is locked for good.
    pub fn chargeback(&mut self, tx: u32) -> (r: Result<(), Error>)
        requires
            old(self).wf(),
            model_fits(spec_chargeback(old(self)@, tx).0),
        ensures
            final(self).wf(),
            final(self)@ == spec_chargeback(old(self)@, tx).0,
            r == spec_chargeback(old(self)@, tx).1,
    {
        if self.locked {
            return Err(Error::Locked);
        }
        proof {
            lemma_log_map_contains(self.log@, tx);
        }
        match find_key(&self.log, tx) {
            None => Err(Error::TransactionUnknown(tx)),
            Some(i) => {
                proof {
                    lemma_log_map_index(self.log@, i as int);
                }
                match find_u32(&self.disputes, tx) {
                    None => Err(Error::TransactionUndisputed(tx)),
                    Some(j) => {
                        let amount = self.log[i].1;
                        let ghost prior = self.disputes@;
                        self.disputes.remove(j);
                        self.held = self.held - amount;
                        self.locked = true;
                        proof {
                            assert(prior[j as int] == tx);
                            assert(prior.to_set().contains(tx));
                            lemma_to_set_remove(prior, j as int);
                            lemma_unique_elems_remove(prior, j as int);
                        }
                        Ok(())
                    }
                }
            }
        }
    }

    /// Dispatch one operation to the method that implements it.
    pub fn apply(&mut self, op: Op) -> (r: Result<(), Error>)
        requires
            old(self).wf(),
            model_fits(spec_apply(old(self)@, op).0),
        ensures
            final(self).wf(),
            final(self)@ == spec_apply(old(self)@, op).0,
            r == spec_apply(old(self)@, op).1,
    {
        match op {
            Op::Deposit { tx, amount } => self.deposit(tx, amount),
            Op::Withdraw { tx, amount } => self.withdraw(tx, amount),
            Op::Dispute { tx } => self.dispute(tx),
            Op::Resolve { tx } => self.resolve(tx),
            Op::Chargeback { tx } => self.chargeback(tx),
        }
    }

    /// The funds usable for withdrawal or dispute.
    pub fn available(&self) -> (r: i64)
        ensures
            r == self@.available,
    {
        self.available
    }

    /// The funds frozen pending dispute resolution.
    pub fn held(&self) -> (r: i64)
        ensures
            r == self@.held,
    {
        self.held
    }

    /// Whether the account is locked.
    pub fn locked(&self) -> (r: bool)
        ensures
            r == self@.locked,
    {
        self.locked
    }

    /// The signed net amount recorded for a transaction id, if any.
    pub fn log_amount(&self, tx: u32) -> (r: Option<i64>)
        requires
            self.wf(),
        ensures
            r == (if self@.log.contains_key(tx) {
                Some(self@.log[tx])
            } else {
                None::<i64>
            }),
    {
        proof {
            lemma_log_map_contains(self.log@, tx);
        }
        match find_key(&self.log, tx) {
            Some(i) => {
                proof {
                    lemma_log_map_index(self.log@, i as int);
                }
                Some(self.log[i].1)
            }
            None => None,
        }
    }

    /// How many transactions are recorded.
    pub fn log_len(&self) -> (r: usize)
        requires
            self.wf(),
        ensures
            r == self@.log.dom().len(),
    {
        proof {
            lemma_log_map_len(self.log@);
        }
        self.log.len()
    }

    /// Whether a transaction is currently under dispute.
    pub fn is_disputed(&self, tx: u32) -> (r: bool)
        ensures
            r == self@.disputes.contains(tx),
    {
        match find_u32(&self.disputes, tx) {
            Some(j) => {
                proof {
                    assert(self.disputes@[j as int] == tx);
                }
                true
            }
            None => false,
        }
    }

    /// How many transactions are currently under dispute.
    pub fn disputes_len(&self) -> (r: usize)
        requires
            self.wf(),
        ensures
            r == self@.disputes.len(),
    {
        proof {
            assert(self.disputes@.no_duplicates());
            self.disputes@.unique_seq_to_set();
        }
        self.disputes.len()
    }

    /// Whether applying an operation would keep the balances, and their sum,
    /// within the machine representation. The executable operations require
    /// this of the state they produce; an unverified caller tests it first
    /// and treats a failure as the overflow it is.
    pub fn op_fits(&self, op: &Op) -> (r: bool)
        requires
            self.wf(),
        ensures
            r == model_fits(spec_apply(self@, *op).0),
    {
        match *op {
            Op::Deposit { tx, amount } => {
                if self.locked || amount < 0 {
                    true
                } else {
                    proof {
                        lemma_log_map_contains(self.log@, tx);
                    }
                    match find_key(&self.log, tx) {
                        Some(_) => true,
                        None => {
                            let a = self.available as i128 + amount as i128;
                            in_range(a) && in_range(a + self.held as i128)
                        }
                    }
                }
            }
            Op::Withdraw { .. } => true,
            Op::Dispute { tx } => {
                if self.locked {
                    true
                } else {
                    proof {
                        lemma_log_map_contains(self.log@, tx);
                    }
                    match find_key(&self.log, tx) {
                        None => true,
                        Some(i) => {
                            proof {
                                lemma_log_map_index(self.log@, i as int);
                            }
                            if self.is_disputed(tx) {
                                true
                            } else {
                                let v = self.log[i].1 as i128;
                                in_range(self.available as i128 - v)
                                    && in_range(self.held as i128 + v)
                            }
                        }
                    }
                }
            }
            Op::Resolve { tx } => {
                if self.locked {
                    true
                } else {
                    proof {
                        lemma_log_map_contains(self.log@, tx);
                    }
                    match find_key(&self.log, tx) {
                        None => true,
                        Some(i) => {
                            proof {
                                lemma_log_map_index(self.log@, i as int);
                            }
                            if !self.is_disputed(tx) {
                                true
                            } else {
                                let v = self.log[i].1 as i128;
                                in_range(self.available as i128 + v)
                                    && in_range(self.held as i128 - v)
                            }
                        }
                    }
                }
            }
            Op::Chargeback { tx } => {
                if self.locked {
                    true
                } else {
                    proof {
                        lemma_log_map_contains(self.log@, tx);
                    }
                    match find_key(&self.log, tx) {
                        None => true,
                        Some(i) => {
                            proof {
                                lemma_log_map_index(self.log@, i as int);
                            }
                            if !self.is_disputed(tx) {
                                true
                            } else {
                                let v = self.log[i].1 as i128;
                                let h = self.held as i128 - v;
                                in_range(h) && in_range(self.available as i128 + h)
                            }
                        }
                    }
                }
            }
        }
    }
}

/// Whether a machine-wide intermediate value fits an `i64` balance.
fn in_range(x: i128) -> (r: bool)
    ensures
        r == in_i64(x as int),
{
    i64::MIN as i128 <= x && x <= i64::MAX as i128
}

/// Conservation of funds: while an account is unlocked, available plus held
/// equals the sum of all recorded transaction amounts, whatever its dispute
/// state.
pub proof fn lemma_total_is_log_sum(a: AccountModel)
    requires
        inv(a),
        !a.locked,
    ensures
        a.available + a.held == sum_log(a.log),
{
}

/// Every operation preserves the account invariant, so the conservation law
/// holds after any successful sequence of operations.
pub proof fn lemma_apply_preserves_inv(a: AccountModel, op: Op)
    requires
        inv(a),
        model_fits(spec_apply(a, op).0),
    ensures
        inv(spec_apply(a, op).0),
{
    match op {
        Op::Deposit { tx, amount } => {
            if !a.locked && amount >= 0 && !a.log.contains_key(tx) {
                lemma_sum_insert(a.log, tx, amount);
            }
        }
        Op::Withdraw { tx, amount } => {
            if !a.locked && amount >= 0 && a.available >= amount && !a.log.contains_key(tx) {
                lemma_sum_insert(a.log, tx, (-amount) as i64);
            }
        }
        _ => {}
    }
}

/// A dispute or a resolve only moves funds between available and held; a
/// deposit, a withdrawal or a chargeback changes the total by exactly the
/// amount it records or reverses, and only when it succeeds.
pub proof fn lemma_total_change(a: AccountModel, op: Op)
    ensures
        ({
            let (a1, r) = spec_apply(a, op);
            match op {
                Op::Dispute { .. } => a1.available + a1.held == a.available + a.held,
                Op::Resolve { .. } => a1.available + a1.held == a.available + a.held,
                Op::Deposit { amount, .. } => a1.available + a1.held == a.available + a.held
                    + (if r is Ok { amount as int } else { 0 }),
                Op::Withdraw { amount, .. } => a1.available + a1.held == a.available + a.held
                    - (if r is Ok { amount as int } else { 0 }),
                Op::Chargeback { tx } => a1.available + a1.held == a.available + a.held
                    - (if r is Ok { a.log[tx] as int } else { 0 }),
            }
        }),
{
}

/// Replaying a transaction id through a deposit a second time always fails
/// with `TransactionAlreadyExists` and leaves the account unchanged.
/// (A negative replayed amount is rejected as `NegativeAmount` instead,
/// since amounts are validated before ids.)
pub proof fn lemma_deposit_replay_rejected(a: AccountModel, tx: u32, first: i64, amount: i64)
    requires
        spec_deposit(a, tx, first).1 is Ok,
        amount >= 0,
    ensures
        spec_deposit(spec_deposit(a, tx, first).0, tx, amount).0 == spec_deposit(a, tx, first).0,
        spec_deposit(spec_deposit(a, tx, first).0, tx, amount).1
            == Err::<(), Error>(Error::TransactionAlreadyExists(tx)),
{
}

/// Replaying a transaction id through a withdrawal a second time always
/// fails with `TransactionAlreadyExists` and leaves the account unchanged,
/// as long as the replayed amount passes the validations that precede the
/// id check (it is not negative, and the available balance covers it).
pub proof fn lemma_withdraw_replay_rejected(a: AccountModel, tx: u32, first: i64, amount: i64)
    requires
        spec_withdraw(a, tx, first).1 is Ok,
        0 <= amount <= spec_withdraw(a, tx, first).0.available,
    ensures
        spec_withdraw(spec_withdraw(a, tx, first).0, tx, amount).0 == spec_withdraw(a, tx, first).0,
        spec_withdraw(spec_withdraw(a, tx, first).0, tx, amount).1
            == Err::<(), Error>(Error::TransactionAlreadyExists(tx)),
{
}

/// Once an account is locked, every operation fails with `Locked` and the
/// account — balances, lock state, log and disputes — is unchanged.
pub proof fn lemma_locked_rejects_all(a: AccountModel, op: Op)
    requires
        a.locked,
    ensures
        spec_apply(a, op).0 == a,
        spec_apply(a, op).1 == Err::<(), Error>(Error::Locked),
{
}

/// Disputing a transaction and then resolving it restores the account
/// exactly: available and held return to their pre-dispute values, and the
/// log, lock state and dispute set are as before.
pub proof fn lemma_dispute_resolve_restores(a: AccountModel, tx: u32)
    requires
        spec_dispute(a, tx).1 is Ok,
    ensures
        ({
            let a1 = spec_dispute(a, tx).0;
            &&& spec_resolve(a1, tx).1 is Ok
            &&& spec_resolve(a1, tx).0.available == a.available
            &&& spec_resolve(a1, tx).0.held == a.held
            &&& spec_resolve(a1, tx).0.log == a.log
            &&& spec_resolve(a1, tx).0.locked == a.locked
            &&& spec_resolve(a1, tx).0.disputes =~= a.disputes
        }),
{
}

/// Index of the entry that records a transaction id, if any.
fn find_key(entries: &Vec<(u32, i64)>, tx: u32) -> (r: Option<usize>)
    ensures
        match r {
            Some(i) => i < entries@.len() && entries@[i as int].0 == tx,
            None => forall|j: int| 0 <= j < entries@.len() ==> entries@[j].0 != tx,
        },
{
    let mut i: usize = 0;
    while i < entries.len()
        invariant
            i <= entries@.len(),
            forall|j: int| 0 <= j < i ==> entries@[j].0 != tx,
        decreases entries@.len() - i,
    {
        if entries[i].0 == tx {
            return Some(i);
        }
        i = i + 1;
    }
    None
}

/// Index of a transaction id in the dispute vector, if any.
fn find_u32(entries: &Vec<u32>, tx: u32) -> (r: Option<usize>)
    ensures
        match r {
            Some(i) => i < entries@.len() && entries@[i as int] == tx,
            None => forall|j: int| 0 <= j < entries@.len() ==> entries@[j] != tx,
        },
{
    let mut i: usize = 0;
    while i < entries.len()
        invariant
            i <= entries@.len(),
            forall|j: int| 0 <= j < i ==> entries@[j] != tx,
        decreases entries@.len() - i,
    {
        if entries[i] == tx {
            return Some(i);
        }
        i = i + 1;
    }
    None
}

} // verus!
