//! The ledger processor: owns the table of accounts, routes each event to the
//! right account, and materializes deterministic snapshots.
//!
//! Only a deposit may create an account: every other event addressed to an
//! unseen client fails with [`Error::UnknownClient`]. (An account created by
//! a deposit stays in the table even when that deposit itself is rejected,
//! for instance over a negative amount.) Every failure is local to the one
//! event that caused it; the table is mutated only through [`Processor::tx`],
//! in one total order.

use vstd::prelude::*;

use crate::account;
use crate::account::{
    lemma_apply_preserves_inv, model_fits, spec_apply, spec_new, sum_log, Account, AccountModel,
    Op,
};

verus! {

/// The reason the processor rejected an event.
#[derive(Clone, Debug, PartialEq, Eq, Structural)]
pub enum Error {
    /// The target account rejected the operation.
    Transaction { client: u16, err: account::Error },
    /// The event addressed a client with no account, through an operation
    /// that may not create one.
    UnknownClient(u16),
    /// A snapshot reply could not be delivered to its requester.
    Send(),
}

/// One row of a snapshot: a client's balances and lock state.
#[derive(Clone, Copy, Debug, PartialEq, Eq, Structural)]
pub struct State {
    pub client: u16,
    pub available: i64,
    pub held: i64,
    pub total: i64,
    pub locked: bool,
}

/// One transaction event addressed to a client.
#[derive(Clone, Copy, Debug, PartialEq, Eq, Structural)]
pub enum Message {
    Deposit { client: u16, tx: u32, amount: i64 },
    Withdrawal { client: u16, tx: u32, amount: i64 },
    Dispute { client: u16, tx: u32 },
    Resolve { client: u16, tx: u32 },
    Chargeback { client: u16, tx: u32 },
}

/// The client a message addresses.
pub open spec fn msg_client(msg: Message) -> u16 {
    match msg {
        Message::Deposit { client, .. } => client,
        Message::Withdrawal { client, .. } => client,
        Message::Dispute { client, .. } => client,
        Message::Resolve { client, .. } => client,
        Message::Chargeback { client, .. } => client,
    }
}

/// Whether a message may create the account it addresses.
pub open spec fn msg_creates(msg: Message) -> bool {
    msg is Deposit
}

/// The account-level operation a message carries.
pub open spec fn msg_op(msg: Message) -> Op {
    match msg {
        Message::Deposit { tx, amount, .. } => Op::Deposit { tx, amount },
        Message::Withdrawal { tx, amount, .. } => Op::Withdraw { tx, amount },
        Message::Dispute { tx, .. } => Op::Dispute { tx },
        Message::Resolve { tx, .. } => Op::Resolve { tx },
        Message::Chargeback { tx, .. } => Op::Chargeback { tx },
    }
}

/// The account an event lands on: the client's account, or a fresh one if
/// the client is unseen and the operation may create it.
pub open spec fn route_target(m: Map<u16, AccountModel>, client: u16) -> AccountModel {
    if m.contains_key(client) {
        m[client]
    } else {
        spec_new()
    }
}

/// Routing one operation: resolve the target account, creating it only when
/// `create` allows; apply the operation; on failure report it wrapped with
/// the client id. An account created for a deposit stays in the table even
/// when the deposit itself is rejected.
pub open spec fn spec_route(m: Map<u16, AccountModel>, client: u16, create: bool, op: Op)
    -> (Map<u16, AccountModel>, Result<(), Error>)
{
    if !m.contains_key(client) && !create {
        (m, Err(Error::UnknownClient(client)))
    } else {
        let a = route_target(m, client);
        let (a1, r) = spec_apply(a, op);
        match r {
            Ok(()) => (m.insert(client, a1), Ok(())),
            Err(e) => (m.insert(client, a), Err(Error::Transaction { client, err: e })),
        }
    }
}

/// Whether routing an operation keeps the target account's balances within
/// the machine representation.
pub open spec fn route_fits(m: Map<u16, AccountModel>, client: u16, create: bool, op: Op) -> bool {
    (m.contains_key(client) || create) ==> model_fits(
        spec_apply(route_target(m, client), op).0,
    )
}

/// Handling one message: routing its operation to the client it addresses.
pub open spec fn spec_handle(m: Map<u16, AccountModel>, msg: Message)
    -> (Map<u16, AccountModel>, Result<(), Error>)
{
    spec_route(m, msg_client(msg), msg_creates(msg), msg_op(msg))
}

/// Whether handling one message keeps the target account's balances within
/// the machine representation.
pub open spec fn handle_fits(m: Map<u16, AccountModel>, msg: Message) -> bool {
    route_fits(m, msg_client(msg), msg_creates(msg), msg_op(msg))
}

/// Association view of the account table: a map from client id to the model
/// of that client's account.
pub open spec fn accounts_map(s: Seq<(u16, Account)>) -> Map<u16, AccountModel>
    decreases s.len()
{
    if s.len() == 0 {
        Map::empty()
    } else {
        accounts_map(s.drop_last()).insert(s.last().0, s.last().1@)
    }
}

/// The table is sorted by strictly ascending client id.
pub open spec fn sorted_clients(s: Seq<(u16, Account)>) -> bool {
    forall|i: int, j: int| 0 <= i < j < s.len() ==> s[i].0 < s[j].0
}

/// The account table's view has a finite domain.
proof fn lemma_accounts_map_finite(s: Seq<(u16, Account)>)
    ensures
        accounts_map(s).dom().finite(),
    decreases s.len(),
{
    if s.len() > 0 {
        lemma_accounts_map_finite(s.drop_last());
    }
}

/// A client is in the table's view exactly when some entry carries it.
proof fn lemma_accounts_map_contains(s: Seq<(u16, Account)>, c: u16)
    ensures
        accounts_map(s).contains_key(c) <==> exists|i: int| 0 <= i < s.len() && s[i].0 == c,
    decreases s.len(),
{
    if s.len() > 0 {
        lemma_accounts_map_contains(s.drop_last(), c);
        if s.last().0 == c {
            assert(s[s.len() - 1].0 == c);
        } else {
            if accounts_map(s).contains_key(c) {
                let i = choose|i: int| 0 <= i < s.drop_last().len() && s.drop_last()[i].0 == c;
                assert(s[i].0 == c);
            }
            if exists|i: int| 0 <= i < s.len() && s[i].0 == c {
                let i = choose|i: int| 0 <= i < s.len() && s[i].0 == c;
                assert(i != s.len() - 1);
                assert(s.drop_last()[i].0 == c);
            }
        }
    }
}

/// Dropping the last entry keeps a sorted table sorted.
proof fn lemma_sorted_drop_last(s: Seq<(u16, Account)>)
    requires
        sorted_clients(s),
        s.len() > 0,
    ensures
        sorted_clients(s.drop_last()),
{
    assert forall|x: int, y: int|
        0 <= x < y < s.drop_last().len() implies s.drop_last()[x].0 < s.drop_last()[y].0 by {
        assert(s.drop_last()[x] == s[x]);
        assert(s.drop_last()[y] == s[y]);
    }
}

/// With sorted (hence unique) client ids, every entry is authoritative in
/// the view.
proof fn lemma_accounts_map_index(s: Seq<(u16, Account)>, i: int)
    requires
        sorted_clients(s),
        0 <= i < s.len(),
    ensures
        accounts_map(s).contains_key(s[i].0),
        accounts_map(s)[s[i].0] == s[i].1@,
    decreases s.len(),
{
    if i == s.len() - 1 {
        assert(s.last() == s[i]);
    } else {
        lemma_sorted_drop_last(s);
        lemma_accounts_map_index(s.drop_last(), i);
        assert(s.drop_last()[i] == s[i]);
        assert(s.last().0 != s[i].0);
    }
}

/// With sorted client ids, the view has exactly one key per table entry.
proof fn lemma_accounts_map_len(s: Seq<(u16, Account)>)
    requires
        sorted_clients(s),
    ensures
        accounts_map(s).dom().len() == s.len(),
    decreases s.len(),
{
    if s.len() > 0 {
        lemma_sorted_drop_last(s);
        lemma_accounts_map_len(s.drop_last());
        lemma_accounts_map_finite(s.drop_last());
        lemma_accounts_map_contains(s.drop_last(), s.last().0);
        assert(forall|i: int| 0 <= i < s.drop_last().len() ==> s.drop_last()[i] == s[i]);
        assert(!accounts_map(s.drop_last()).contains_key(s.last().0));
    }
}

/// Inserting an entry with a fresh client id anywhere in the table inserts
/// exactly that account into the view.
proof fn lemma_accounts_map_insert(s: Seq<(u16, Account)>, i: int, p: (u16, Account))
    requires
        0 <= i <= s.len(),
        forall|j: int| 0 <= j < s.len() ==> s[j].0 != p.0,
    ensures
        accounts_map(s.insert(i, p)) == accounts_map(s).insert(p.0, p.1@),
    decreases s.len(),
{
    let t = s.insert(i, p);
    if i == s.len() {
        assert(t.drop_last() =~= s);
        assert(t.last() == p);
    } else {
        assert(t.last() == s.last());
        assert(t.drop_last() =~= s.drop_last().insert(i, p));
        assert(forall|j: int| 0 <= j < s.drop_last().len() ==> s.drop_last()[j] == s[j]);
        lemma_accounts_map_insert(s.drop_last(), i, p);
        assert(s.last().0 != p.0);
        assert(accounts_map(s.drop_last()).insert(p.0, p.1@).insert(s.last().0, s.last().1@)
            =~= accounts_map(s.drop_last()).insert(s.last().0, s.last().1@).insert(p.0, p.1@));
    }
}

/// Replacing the account of one entry, keeping its client id, updates
/// exactly that account in the view.
proof fn lemma_accounts_map_update(s: Seq<(u16, Account)>, i: int, a: Account)
    requires
        sorted_clients(s),
        0 <= i < s.len(),
    ensures
        accounts_map(s.update(i, (s[i].0, a))) == accounts_map(s).insert(s[i].0, a@),
    decreases s.len(),
{
    let t = s.update(i, (s[i].0, a));
    if i == s.len() - 1 {
        assert(t.drop_last() =~= s.drop_last());
        assert(t.last() == (s[i].0, a));
        assert(accounts_map(s.drop_last()).insert(s[i].0, s[i].1@).insert(s[i].0, a@)
            =~= accounts_map(s.drop_last()).insert(s[i].0, a@));
        assert(s.last() == s[i]);
    } else {
        lemma_sorted_drop_last(s);
        assert(t.last() == s.last());
        assert(t.drop_last() =~= s.drop_last().update(i, (s[i].0, a)));
        assert(s.drop_last()[i] == s[i]);
        lemma_accounts_map_update(s.drop_last(), i, a);
        assert(s.last().0 != s[i].0);
        assert(accounts_map(s.drop_last()).insert(s[i].0, a@).insert(s.last().0, s.last().1@)
            =~= accounts_map(s.drop_last()).insert(s.last().0, s.last().1@).insert(s[i].0, a@));
    }
}

/// Once a client's account is locked, every event routed to it fails with
/// `Locked`, wrapped with the client id, and the whole table is unchanged.
pub proof fn lemma_locked_client_rejected(
    m: Map<u16, AccountModel>,
    client: u16,
    create: bool,
    op: Op,
)
    requires
        m.contains_key(client),
        m[client].locked,
    ensures
        spec_route(m, client, create, op).0 =~= m,
        spec_route(m, client, create, op).1 == Err::<(), Error>(Error::Transaction {
            client,
            err: account::Error::Locked,
        }),
{
    account::lemma_locked_rejects_all(m[client], op);
    assert(m.insert(client, m[client]) =~= m);
}

/// Routing preserves every account's invariant, so the conservation law —
/// available plus held equals the sum of the recorded amounts while the
/// account is unlocked — holds for all accounts after any sequence of
/// routed events.
pub proof fn lemma_route_preserves_inv(
    m: Map<u16, AccountModel>,
    client: u16,
    create: bool,
    op: Op,
)
    requires
        forall|c: u16| m.contains_key(c) ==> account::inv(#[trigger] m[c]),
        route_fits(m, client, create, op),
    ensures
        forall|c: u16| spec_route(m, client, create, op).0.contains_key(c)
            ==> account::inv(#[trigger] spec_route(m, client, create, op).0[c]),
{
    if m.contains_key(client) || create {
        let a = route_target(m, client);
        assert(account::inv(a)) by {
            if !m.contains_key(client) {
                assert(a == spec_new());
                assert(sum_log(a.log) == 0);
            }
        }
        account::lemma_apply_preserves_inv(a, op);
    }
}

/// The processor: the sole owner of the account table. All mutation goes
/// through [`Processor::tx`], so the events form one total order.
#[derive(Debug)]
pub struct Processor {
    accounts: Vec<(u16, Account)>,
}

impl View for Processor {
    type V = Map<u16, AccountModel>;

    closed spec fn view(&self) -> Map<u16, AccountModel> {
        accounts_map(self.accounts@)
    }
}

impl Processor {
    /// Well-formedness: the table is sorted by strictly ascending client id
    /// and every account satisfies its own invariant.
    pub closed spec fn wf(&self) -> bool {
        &&& sorted_clients(self.accounts@)
        &&& forall|i: int| 0 <= i < self.accounts@.len() ==> (#[trigger] self.accounts@[i]).1.wf()
    }

    /// A fresh processor with no accounts.
    pub fn new() -> (r: Processor)
        ensures
            r.wf(),
            r@ == Map::<u16, AccountModel>::empty(),
    {
        let r = Processor { accounts: Vec::new() };
        proof {
            assert(r@ =~= Map::<u16, AccountModel>::empty());
        }
        r
    }

    /// Route one operation to a client's account: the account is looked up,
    /// or created when `create` allows, the operation is applied, and any
    /// account-level failure is reported wrapped with the client id.
    pub fn tx(&mut self, client: u16, create: bool, op: Op) -> (r: Result<(), Error>)
        requires
            old(self).wf(),
            route_fits(old(self)@, client, create, op),
        ensures
            final(self).wf(),
            final(self)@ == spec_route(old(self)@, client, create, op).0,
            r == spec_route(old(self)@, client, create, op).1,
    {
        proof {
            lemma_accounts_map_contains(self.accounts@, client);
        }
        match find_client(&self.accounts, client) {
            Err(pos) => {
                if create {
                    let mut acct = Account::new();
                    let res = acct.apply(op);
                    let ghost prior = self.accounts@;
                    self.accounts.insert(pos, (client, acct));
                    proof {
                        lemma_accounts_map_insert(prior, pos as int, (client, acct));
                        assert(sorted_clients(self.accounts@)) by {
                            assert forall|x: int, y: int|
                                0 <= x < y < self.accounts@.len()
                                implies self.accounts@[x].0 < self.accounts@[y].0 by {
                                if x < pos {
                                    assert(self.accounts@[x] == prior[x]);
                                } else if x > pos {
                                    assert(self.accounts@[x] == prior[x - 1]);
                                }
                                if y < pos {
                                    assert(self.accounts@[y] == prior[y]);
                                } else if y > pos {
                                    assert(self.accounts@[y] == prior[y - 1]);
                                }
                            }
                        }
                        assert forall|i: int|
                            0 <= i < self.accounts@.len()
                            implies (#[trigger] self.accounts@[i]).1.wf() by {
                            if i < pos {
                                assert(self.accounts@[i] == prior[i]);
                            } else if i > pos {
                                assert(self.accounts@[i] == prior[i - 1]);
                            }
                        }
                    }
                    match res {
                        Ok(()) => Ok(()),
                        Err(e) => Err(Error::Transaction { client, err: e }),
                    }
                } else {
                    Err(Error::UnknownClient(client))
                }
            }
            Ok(i) => {
                let ghost prior = self.accounts@;
                let mut pair = self.accounts.remove(i);
                proof {
                    lemma_accounts_map_index(prior, i as int);
                }
                let res = pair.1.apply(op);
                self.accounts.insert(i, pair);
                proof {
                    assert(self.accounts@ =~= prior.update(i as int, (client, pair.1)));
                    lemma_accounts_map_update(prior, i as int, pair.1);
                    assert(sorted_clients(self.accounts@)) by {
                        assert forall|x: int, y: int|
                            0 <= x < y < self.accounts@.len()
                            implies self.accounts@[x].0 < self.accounts@[y].0 by {
                            assert(self.accounts@[x].0 == prior[x].0);
                            assert(self.accounts@[y].0 == prior[y].0);
                        }
                    }
                    assert forall|k: int|
                        0 <= k < self.accounts@.len()
                        implies (#[trigger] self.accounts@[k]).1.wf() by {
                        if k != i {
                            assert(self.accounts@[k] == prior[k]);
                        }
                    }
                }
                match res {
                    Ok(()) => Ok(()),
                    Err(e) => Err(Error::Transaction { client, err: e }),
                }
            }
        }
    }

    /// Handle one event by routing its operation to the client it addresses.
    /// Only a deposit may create the account.
    pub fn handle(&mut self, msg: Message) -> (r: Result<(), Error>)
        requires
            old(self).wf(),
            handle_fits(old(self)@, msg),
        ensures
            final(self).wf(),
            final(self)@ == spec_handle(old(self)@, msg).0,
            r == spec_handle(old(self)@, msg).1,
    {
        match msg {
            Message::Deposit { client, tx, amount } => self.tx(client, true, Op::Deposit { tx, amount }),
            Message::Withdrawal { client, tx, amount } => self.tx(client, false, Op::Withdraw { tx, amount }),
            Message::Dispute { client, tx } => self.tx(client, false, Op::Dispute { tx }),
            Message::Resolve { client, tx } => self.tx(client, false, Op::Resolve { tx }),
            Message::Chargeback { client, tx } => self.tx(client, false, Op::Chargeback { tx }),
        }
    }

    /// Whether handling a message would keep the target account's balances
    /// within the machine representation. An unverified caller tests this
    /// before [`Processor::handle`] and treats a failure as the overflow it
    /// is.
    pub fn fits(&self, msg: &Message) -> (r: bool)
        requires
            self.wf(),
        ensures
            r == handle_fits(self@, *msg),
    {
        let (client, op) = match *msg {
            Message::Deposit { client, tx, amount } => (client, Op::Deposit { tx, amount }),
            Message::Withdrawal { client, tx, amount } => (client, Op::Withdraw { tx, amount }),
            Message::Dispute { client, tx } => (client, Op::Dispute { tx }),
            Message::Resolve { client, tx } => (client, Op::Resolve { tx }),
            Message::Chargeback { client, tx } => (client, Op::Chargeback { tx }),
        };
        proof {
            lemma_accounts_map_contains(self.accounts@, client);
        }
        match find_client(&self.accounts, client) {
            Ok(i) => {
                proof {
                    lemma_accounts_map_index(self.accounts@, i as int);
                }
                let pair = &self.accounts[i];
                pair.1.op_fits(&op)
            }
            Err(_) => {
                proof {
                    if msg_creates(*msg) {
                        assert(model_fits(spec_apply(spec_new(), op).0));
                    }
                }
                true
            }
        }
    }

    /// A snapshot: one row per account, in ascending client id order, each
    /// carrying the client's available, held and total funds and its lock
    /// state. The snapshot is a pure function of the processor's state, so
    /// it reflects exactly the events routed before it and none after.
    pub fn state(&self) -> (r: Vec<State>)
        requires
            self.wf(),
        ensures
            r@.len() == self@.dom().len(),
            forall|i: int| 0 <= i < r@.len() ==> {
                let s = #[trigger] r@[i];
                &&& self@.contains_key(s.client)
                &&& s.available == self@[s.client].available
                &&& s.held == self@[s.client].held
                &&& s.total == self@[s.client].available + self@[s.client].held
                &&& s.locked == self@[s.client].locked
            },
            forall|c: u16| self@.contains_key(c)
                ==> exists|i: int| 0 <= i < r@.len() && #[trigger] r@[i].client == c,
            forall|i: int, j: int| 0 <= i < j < r@.len() ==> r@[i].client < r@[j].client,
    {
        let mut out: Vec<State> = Vec::new();
        let mut i: usize = 0;
        while i < self.accounts.len()
            invariant
                self.wf(),
                i <= self.accounts@.len(),
                out@.len() == i,
                forall|j: int| 0 <= j < i ==> {
                    let s = #[trigger] out@[j];
                    &&& s.client == self.accounts@[j].0
                    &&& s.available == self.accounts@[j].1@.available
                    &&& s.held == self.accounts@[j].1@.held
                    &&& s.total == self.accounts@[j].1@.available + self.accounts@[j].1@.held
                    &&& s.locked == self.accounts@[j].1@.locked
                },
            decreases self.accounts@.len() - i,
        {
            let pair = &self.accounts[i];
            let st = State {
                client: pair.0,
                available: pair.1.available(),
                held: pair.1.held(),
                total: pair.1.total(),
                locked: pair.1.locked(),
            };
            out.push(st);
            i = i + 1;
        }
        proof {
            lemma_accounts_map_len(self.accounts@);
            assert forall|j: int| 0 <= j < out@.len() implies {
                let s = #[trigger] out@[j];
                &&& self@.contains_key(s.client)
                &&& s.available == self@[s.client].available
                &&& s.held == self@[s.client].held
                &&& s.total == self@[s.client].available + self@[s.client].held
                &&& s.locked == self@[s.client].locked
            } by {
                lemma_accounts_map_index(self.accounts@, j);
            }
            assert forall|c: u16| self@.contains_key(c)
                implies exists|i2: int| 0 <= i2 < out@.len() && #[trigger] out@[i2].client == c by {
                lemma_accounts_map_contains(self.accounts@, c);
                let j = choose|j: int| 0 <= j < self.accounts@.len() && self.accounts@[j].0 == c;
                assert(out@[j].client == c);
            }
        }
        out
    }
}

/// Position of a client in the sorted table: the entry that carries it, or
/// the place where it would be inserted.
fn find_client(entries: &Vec<(u16, Account)>, client: u16) -> (r: Result<usize, usize>)
    requires
        sorted_clients(entries@),
    ensures
        match r {
            Ok(i) => i < entries@.len() && entries@[i as int].0 == client,
            Err(i) => {
                &&& i <= entries@.len()
                &&& forall|j: int| 0 <= j < i ==> entries@[j].0 < client
                &&& forall|j: int| i <= j < entries@.len() ==> entries@[j].0 > client
            },
        },
{
    let mut i: usize = 0;
    while i < entries.len()
        invariant
            sorted_clients(entries@),
            i <= entries@.len(),
            forall|j: int| 0 <= j < i ==> entries@[j].0 < client,
        decreases entries@.len() - i,
    {
        let k = entries[i].0;
        if k == client {
            return Ok(i);
        }
        if k > client {
            proof {
                assert forall|j: int| i <= j < entries@.len() implies entries@[j].0 > client by {
                    if j > i {
                        assert(entries@[i as int].0 < entries@[j].0);
                    }
                }
            }
            return Err(i);
        }
        i = i + 1;
    }
    Err(i)
}

} // verus!
