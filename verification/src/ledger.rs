//! The account ledger: per-client accounts and the rules by which one
//! transaction record at a time mutates them.
//!
//! A record carries its type as text (`deposit`, `withdrawal`, `dispute`,
//! `resolve`, `chargeback`; anything else is discarded) and its amount as
//! decimal text. The ledger never fails: every record that cannot be applied
//! — unknown type, unknown client for a non-deposit, locked account, unknown
//! or inapplicable transaction reference, insufficient funds, malformed
//! amount text, a duplicate deposit transaction id, or a balance that would
//! leave the fixed-point range — is silently discarded and the account set is
//! left unchanged.
//!
//! Two deliberate hardenings over a literal reading of the record stream:
//! a second deposit under an already-seen transaction id is rejected rather
//! than overwriting the stored deposit, and a dispute of a deposit already in
//! dispute is a no-op rather than moving the funds twice.

use vstd::prelude::*;

use crate::amount::{lemma_spec_amount_nonneg, parse_amount, spec_amount_i64};

verus! {

/// One row of input: a transaction record, amount still as text.
#[derive(Clone, Copy)]
pub struct Row<'a> {
    pub transaction_type: &'a str,
    pub client_id: u16,
    pub transaction_id: u32,
    pub amount: &'a str,
}

/// A retained deposit. Only deposits can be disputed, so all other
/// transaction kinds are processed but not stored.
pub struct ApprovedTransaction {
    pub transaction_id: u32,
    pub amount: i64,
    pub in_dispute: bool,
}

/// A client account: its balances, lock state, and retained deposits.
pub struct Client {
    pub client_id: u16,
    pub current_transactions: Vec<ApprovedTransaction>,
    pub available: i64,
    pub held: i64,
    pub locked: bool,
}

pub ghost struct RowView {
    pub transaction_type: Seq<char>,
    pub client_id: u16,
    pub transaction_id: u32,
    pub amount: Seq<char>,
}

pub ghost struct ClientView {
    pub client_id: u16,
    pub transactions: Seq<ApprovedTransaction>,
    pub available: i64,
    pub held: i64,
    pub locked: bool,
}

impl<'a> View for Row<'a> {
    type V = RowView;

    open spec fn view(&self) -> RowView {
        RowView {
            transaction_type: self.transaction_type@,
            client_id: self.client_id,
            transaction_id: self.transaction_id,
            amount: self.amount@,
        }
    }
}

impl View for Client {
    type V = ClientView;

    open spec fn view(&self) -> ClientView {
        ClientView {
            client_id: self.client_id,
            transactions: self.current_transactions@,
            available: self.available,
            held: self.held,
            locked: self.locked,
        }
    }
}

pub open spec fn views(cs: Seq<Client>) -> Seq<ClientView> {
    cs.map_values(|c: Client| c@)
}

// ----- transaction kinds -----

pub enum TransactionKind {
    Deposit,
    Withdrawal,
    Dispute,
    Resolve,
    Chargeback,
    Other,
}

pub open spec fn spec_classify(s: Seq<char>) -> TransactionKind {
    if s == "deposit"@ {
        TransactionKind::Deposit
    } else if s == "withdrawal"@ {
        TransactionKind::Withdrawal
    } else if s == "dispute"@ {
        TransactionKind::Dispute
    } else if s == "resolve"@ {
        TransactionKind::Resolve
    } else if s == "chargeback"@ {
        TransactionKind::Chargeback
    } else {
        TransactionKind::Other
    }
}

// ----- looking deposits and clients up -----

pub open spec fn has_tx(txs: Seq<ApprovedTransaction>, tx: u32) -> bool {
    exists|i: int| 0 <= i < txs.len() && #[trigger] txs[i].transaction_id == tx
}

pub open spec fn tx_index(txs: Seq<ApprovedTransaction>, tx: u32) -> int {
    choose|i: int| 0 <= i < txs.len() && #[trigger] txs[i].transaction_id == tx
}

pub open spec fn has_client(l: Seq<ClientView>, id: u16) -> bool {
    exists|i: int| 0 <= i < l.len() && #[trigger] l[i].client_id == id
}

pub open spec fn client_at(l: Seq<ClientView>, id: u16) -> int {
    choose|i: int| 0 <= i < l.len() && #[trigger] l[i].client_id == id
}

// ----- the account invariant -----

pub open spec fn unique_tx_ids(txs: Seq<ApprovedTransaction>) -> bool {
    forall|i: int, j: int|
        #![trigger txs[i].transaction_id, txs[j].transaction_id]
        0 <= i < j < txs.len() ==> txs[i].transaction_id != txs[j].transaction_id
}

pub open spec fn amounts_nonneg(txs: Seq<ApprovedTransaction>) -> bool {
    forall|i: int| 0 <= i < txs.len() ==> #[trigger] txs[i].amount >= 0
}

pub open spec fn tx_contrib(t: ApprovedTransaction) -> int {
    if t.in_dispute {
        t.amount as int
    } else {
        0
    }
}

/// The amounts of the retained deposits currently in dispute.
pub open spec fn disputed_sum(txs: Seq<ApprovedTransaction>) -> int
    decreases txs.len(),
{
    if txs.len() == 0 {
        0
    } else {
        disputed_sum(txs.drop_last()) + tx_contrib(txs.last())
    }
}

/// What holds of every account the ledger ever exposes: deposit ids are
/// unique, deposit amounts nonnegative, the held funds of an unlocked
/// account are exactly the amounts in dispute, and the account's total
/// (available + held) stays representable.
pub open spec fn client_inv(c: ClientView) -> bool {
    &&& unique_tx_ids(c.transactions)
    &&& amounts_nonneg(c.transactions)
    &&& c.held >= 0
    &&& (!c.locked ==> c.held == disputed_sum(c.transactions))
    &&& c.available + c.held <= i64::MAX
}

/// Ledger-wide invariant: client ids are unique and every account is sound.
pub open spec fn ledger_inv(l: Seq<ClientView>) -> bool {
    &&& forall|i: int, j: int|
        #![trigger l[i].client_id, l[j].client_id]
        0 <= i < j < l.len() ==> l[i].client_id != l[j].client_id
    &&& forall|i: int| 0 <= i < l.len() ==> client_inv(#[trigger] l[i])
}

// ----- the state machine, one transition per transaction kind -----

/// Deposit: grow `available` and retain the deposit. Discarded on a locked
/// account, malformed or oversized amount text, a duplicate transaction id,
/// or a total that would leave the fixed-point range.
pub open spec fn spec_deposit(c: ClientView, r: RowView) -> ClientView {
    if c.locked {
        c
    } else {
        match spec_amount_i64(r.amount) {
            None => c,
            Some(a) => if has_tx(c.transactions, r.transaction_id) {
                c
            } else if c.available + c.held + a > i64::MAX {
                c
            } else {
                ClientView {
                    client_id: c.client_id,
                    transactions: c.transactions.push(
                        ApprovedTransaction {
                            transaction_id: r.transaction_id,
                            amount: a,
                            in_dispute: false,
                        },
                    ),
                    available: (c.available + a) as i64,
                    held: c.held,
                    locked: c.locked,
                }
            },
        }
    }
}

/// Withdrawal: shrink `available` when it covers the amount; otherwise
/// discard. Withdrawals leave no retrievable record.
pub open spec fn spec_withdrawal(c: ClientView, r: RowView) -> ClientView {
    if c.locked {
        c
    } else {
        match spec_amount_i64(r.amount) {
            None => c,
            Some(a) => if c.available >= a {
                ClientView {
                    client_id: c.client_id,
                    transactions: c.transactions,
                    available: (c.available - a) as i64,
                    held: c.held,
                    locked: c.locked,
                }
            } else {
                c
            },
        }
    }
}

/// Dispute: move the referenced deposit's amount from `available` to `held`
/// and mark it in dispute. Discarded on a locked account, an unknown
/// transaction id, a deposit already in dispute, or a balance that would
/// leave the fixed-point range. A dispute may drive `available` negative.
pub open spec fn spec_dispute(c: ClientView, r: RowView) -> ClientView {
    if c.locked || !has_tx(c.transactions, r.transaction_id) {
        c
    } else {
        let i = tx_index(c.transactions, r.transaction_id);
        let t = c.transactions[i];
        if t.in_dispute {
            c
        } else if c.available - t.amount < i64::MIN || c.held + t.amount > i64::MAX {
            c
        } else {
            ClientView {
                client_id: c.client_id,
                transactions: c.transactions.update(
                    i,
                    ApprovedTransaction {
                        transaction_id: t.transaction_id,
                        amount: t.amount,
                        in_dispute: true,
                    },
                ),
                available: (c.available - t.amount) as i64,
                held: (c.held + t.amount) as i64,
                locked: c.locked,
            }
        }
    }
}

/// Resolve: undo a dispute, moving the amount back from `held` to
/// `available`. Discarded unless the referenced deposit is in dispute.
pub open spec fn spec_resolve(c: ClientView, r: RowView) -> ClientView {
    if c.locked || !has_tx(c.transactions, r.transaction_id) {
        c
    } else {
        let i = tx_index(c.transactions, r.transaction_id);
        let t = c.transactions[i];
        if !t.in_dispute {
            c
        } else {
            ClientView {
                client_id: c.client_id,
                transactions: c.transactions.update(
                    i,
                    ApprovedTransaction {
                        transaction_id: t.transaction_id,
                        amount: t.amount,
                        in_dispute: false,
                    },
                ),
                available: (c.available + t.amount) as i64,
                held: (c.held - t.amount) as i64,
                locked: c.locked,
            }
        }
    }
}

/// Chargeback: write the disputed amount off from `held` and lock the
/// account for good. `available` is not touched — the dispute already
/// removed the funds from it. Discarded unless the referenced deposit is in
/// dispute.
pub open spec fn spec_chargeback(c: ClientView, r: RowView) -> ClientView {
    if c.locked || !has_tx(c.transactions, r.transaction_id) {
        c
    } else {
        let i = tx_index(c.transactions, r.transaction_id);
        let t = c.transactions[i];
        if !t.in_dispute {
            c
        } else {
            ClientView {
                client_id: c.client_id,
                transactions: c.transactions,
                available: c.available,
                held: (c.held - t.amount) as i64,
                locked: true,
            }
        }
    }
}

/// One record against one account, dispatched by the record's type text.
pub open spec fn spec_apply_client(c: ClientView, r: RowView) -> ClientView {
    match spec_classify(r.transaction_type) {
        TransactionKind::Deposit => spec_deposit(c, r),
        TransactionKind::Withdrawal => spec_withdrawal(c, r),
        TransactionKind::Dispute => spec_dispute(c, r),
        TransactionKind::Resolve => spec_resolve(c, r),
        TransactionKind::Chargeback => spec_chargeback(c, r),
        TransactionKind::Other => c,
    }
}

/// The account a first deposit creates.
pub open spec fn new_client_view(r: RowView, a: i64) -> ClientView {
    ClientView {
        client_id: r.client_id,
        transactions: seq![
            ApprovedTransaction { transaction_id: r.transaction_id, amount: a, in_dispute: false },
        ],
        available: a,
        held: 0,
        locked: false,
    }
}

/// One record against the whole ledger: route it to the matching account,
/// or — for a deposit to an unknown client with a well-formed amount —
/// create the account. Everything else is discarded.
pub open spec fn spec_apply(l: Seq<ClientView>, r: RowView) -> Seq<ClientView> {
    if has_client(l, r.client_id) {
        let i = client_at(l, r.client_id);
        l.update(i, spec_apply_client(l[i], r))
    } else if spec_classify(r.transaction_type) is Deposit {
        match spec_amount_i64(r.amount) {
            Some(a) => l.push(new_client_view(r, a)),
            None => l,
        }
    } else {
        l
    }
}

// ----- lemmas about the disputed sum and the lookups -----

pub proof fn lemma_dsum_nonneg(txs: Seq<ApprovedTransaction>)
    requires
        amounts_nonneg(txs),
    ensures
        disputed_sum(txs) >= 0,
    decreases txs.len(),
{
    if txs.len() > 0 {
        assert forall|i: int| 0 <= i < txs.drop_last().len() implies #[trigger] txs.drop_last()[i].amount
            >= 0 by {
            assert(txs.drop_last()[i] == txs[i]);
        }
        lemma_dsum_nonneg(txs.drop_last());
    }
}

pub proof fn lemma_dsum_push(txs: Seq<ApprovedTransaction>, t: ApprovedTransaction)
    ensures
        disputed_sum(txs.push(t)) == disputed_sum(txs) + tx_contrib(t),
{
    assert(txs.push(t).drop_last() =~= txs);
    assert(txs.push(t).last() == t);
}

pub proof fn lemma_dsum_update(txs: Seq<ApprovedTransaction>, i: int, t: ApprovedTransaction)
    requires
        0 <= i < txs.len(),
    ensures
        disputed_sum(txs.update(i, t)) == disputed_sum(txs) - tx_contrib(txs[i]) + tx_contrib(t),
    decreases txs.len(),
{
    let u = txs.update(i, t);
    if i == txs.len() - 1 {
        assert(u.drop_last() =~= txs.drop_last());
        assert(u.last() == t);
    } else {
        assert(u.drop_last() =~= txs.drop_last().update(i, t));
        assert(u.last() == txs.last());
        lemma_dsum_update(txs.drop_last(), i, t);
    }
}

/// A deposit in dispute contributes its amount to the disputed sum, so the
/// sum covers it.
pub proof fn lemma_dsum_elem(txs: Seq<ApprovedTransaction>, i: int)
    requires
        amounts_nonneg(txs),
        0 <= i < txs.len(),
        txs[i].in_dispute,
    ensures
        txs[i].amount <= disputed_sum(txs),
    decreases txs.len(),
{
    assert forall|j: int| 0 <= j < txs.drop_last().len() implies #[trigger] txs.drop_last()[j].amount
        >= 0 by {
        assert(txs.drop_last()[j] == txs[j]);
    }
    if i == txs.len() - 1 {
        lemma_dsum_nonneg(txs.drop_last());
    } else {
        assert(txs.drop_last()[i] == txs[i]);
        lemma_dsum_elem(txs.drop_last(), i);
    }
}

/// With unique transaction ids, a found index is the looked-up index.
pub proof fn lemma_tx_index_unique(txs: Seq<ApprovedTransaction>, tx: u32, i: int)
    requires
        unique_tx_ids(txs),
        0 <= i < txs.len(),
        txs[i].transaction_id == tx,
    ensures
        has_tx(txs, tx),
        tx_index(txs, tx) == i,
{
    assert(has_tx(txs, tx));
    let j = tx_index(txs, tx);
    assert(0 <= j < txs.len() && txs[j].transaction_id == tx);
    if i < j {
        assert(txs[i].transaction_id != txs[j].transaction_id);
    }
    if j < i {
        assert(txs[j].transaction_id != txs[i].transaction_id);
    }
}

/// With unique client ids, a found index is the looked-up index.
pub proof fn lemma_client_at_unique(l: Seq<ClientView>, id: u16, i: int)
    requires
        forall|p: int, q: int|
            #![trigger l[p].client_id, l[q].client_id]
            0 <= p < q < l.len() ==> l[p].client_id != l[q].client_id,
        0 <= i < l.len(),
        l[i].client_id == id,
    ensures
        has_client(l, id),
        client_at(l, id) == i,
{
    assert(has_client(l, id));
    let j = client_at(l, id);
    assert(0 <= j < l.len() && l[j].client_id == id);
    if i < j {
        assert(l[i].client_id != l[j].client_id);
    }
    if j < i {
        assert(l[j].client_id != l[i].client_id);
    }
}

/// Updating one deposit in place, id and amount kept, preserves the
/// structural parts of the account invariant.
pub proof fn lemma_update_same_id(txs: Seq<ApprovedTransaction>, i: int, t: ApprovedTransaction)
    requires
        unique_tx_ids(txs),
        amounts_nonneg(txs),
        0 <= i < txs.len(),
        t.transaction_id == txs[i].transaction_id,
        t.amount == txs[i].amount,
    ensures
        unique_tx_ids(txs.update(i, t)),
        amounts_nonneg(txs.update(i, t)),
{
    let u = txs.update(i, t);
    assert forall|p: int, q: int|
        #![trigger u[p].transaction_id, u[q].transaction_id]
        0 <= p < q < u.len() implies u[p].transaction_id != u[q].transaction_id by {
        assert(txs[p].transaction_id != txs[q].transaction_id);
    }
    assert forall|p: int| 0 <= p < u.len() implies #[trigger] u[p].amount >= 0 by {
        assert(txs[p].amount >= 0);
    }
}

// ----- executable lookups -----

/// Compare two strings character by character.
fn str_eq(a: &str, b: &str) -> (r: bool)
    ensures
        r == (a@ == b@),
{
    let n = a.unicode_len();
    let m = b.unicode_len();
    if n != m {
        return false;
    }
    let mut i: usize = 0;
    while i < n
        invariant
            n == a@.len(),
            n == b@.len(),
            0 <= i <= n,
            forall|j: int| 0 <= j < i ==> a@[j] == b@[j],
        decreases n - i,
    {
        if a.get_char(i) != b.get_char(i) {
            return false;
        }
        i += 1;
    }
    proof {
        assert(a@ =~= b@);
    }
    true
}

pub fn classify(s: &str) -> (k: TransactionKind)
    ensures
        k == spec_classify(s@),
{
    if str_eq(s, "deposit") {
        TransactionKind::Deposit
    } else if str_eq(s, "withdrawal") {
        TransactionKind::Withdrawal
    } else if str_eq(s, "dispute") {
        TransactionKind::Dispute
    } else if str_eq(s, "resolve") {
        TransactionKind::Resolve
    } else if str_eq(s, "chargeback") {
        TransactionKind::Chargeback
    } else {
        TransactionKind::Other
    }
}

fn find_transaction(txs: &Vec<ApprovedTransaction>, tx: u32) -> (r: Option<usize>)
    ensures
        match r {
            Some(i) => i < txs@.len() && txs@[i as int].transaction_id == tx,
            None => !has_tx(txs@, tx),
        },
{
    let n = txs.len();
    let mut i: usize = 0;
    while i < n
        invariant
            n == txs@.len(),
            0 <= i <= n,
            forall|j: int| 0 <= j < i ==> #[trigger] txs@[j].transaction_id != tx,
        decreases n - i,
    {
        if txs[i].transaction_id == tx {
            return Some(i);
        }
        i += 1;
    }
    None
}

fn find_client_index(clients: &Vec<Client>, id: u16) -> (r: Option<usize>)
    ensures
        match r {
            Some(i) => i < clients@.len() && clients@[i as int].client_id == id,
            None => !has_client(views(clients@), id),
        },
{
    let n = clients.len();
    let mut i: usize = 0;
    while i < n
        invariant
            n == clients@.len(),
            0 <= i <= n,
            forall|j: int| 0 <= j < i ==> #[trigger] clients@[j].client_id != id,
        decreases n - i,
    {
        if clients[i].client_id == id {
            return Some(i);
        }
        i += 1;
    }
    proof {
        assert forall|j: int| 0 <= j < views(clients@).len() implies #[trigger] views(clients@)[j].client_id
            != id by {
            assert(views(clients@)[j] == clients@[j]@);
        }
    }
    None
}

// ----- executable transaction handlers -----

/// Apply a deposit to an account.
pub fn process_deposit(row: Row<'_>, client: &mut Client)
    requires
        client_inv(old(client)@),
    ensures
        client_inv(final(client)@),
        final(client)@ == spec_deposit(old(client)@, row@),
{
    proof {
        lemma_spec_amount_nonneg(row@.amount);
    }
    if client.locked {
        return ;
    }
    let a = match parse_amount(row.amount) {
        None => {
            return ;
        },
        Some(a) => a,
    };
    match find_transaction(&client.current_transactions, row.transaction_id) {
        Some(_) => {
            return ;
        },
        None => {},
    }
    let total_w: i128 = client.available as i128 + client.held as i128 + a as i128;
    if total_w > i64::MAX as i128 {
        return ;
    }
    let t = ApprovedTransaction { transaction_id: row.transaction_id, amount: a, in_dispute: false };
    proof {
        lemma_dsum_push(old(client)@.transactions, t);
        assert forall|p: int, q: int|
            #![trigger old(client)@.transactions.push(t)[p].transaction_id, old(client)@.transactions.push(t)[q].transaction_id]
            0 <= p < q < old(client)@.transactions.push(t).len() implies old(
            client,
        )@.transactions.push(t)[p].transaction_id != old(client)@.transactions.push(
            t,
        )[q].transaction_id by {
            if q < old(client)@.transactions.len() {
            } else {
                assert(old(client)@.transactions.push(t)[p] == old(client)@.transactions[p]);
            }
        }
    }
    client.available = client.available + a;
    client.current_transactions.push(t);
}

/// Apply a withdrawal to an account.
pub fn process_withdrawal(row: Row<'_>, client: &mut Client)
    requires
        client_inv(old(client)@),
    ensures
        client_inv(final(client)@),
        final(client)@ == spec_withdrawal(old(client)@, row@),
{
    proof {
        lemma_spec_amount_nonneg(row@.amount);
    }
    if client.locked {
        return ;
    }
    match parse_amount(row.amount) {
        None => {},
        Some(a) => {
            if client.available >= a {
                client.available = client.available - a;
            }
        },
    }
}

/// Apply a dispute to an account.
pub fn process_dispute(row: Row<'_>, client: &mut Client)
    requires
        client_inv(old(client)@),
    ensures
        client_inv(final(client)@),
        final(client)@ == spec_dispute(old(client)@, row@),
{
    if client.locked {
        return ;
    }
    let i = match find_transaction(&client.current_transactions, row.transaction_id) {
        None => {
            return ;
        },
        Some(i) => i,
    };
    proof {
        lemma_tx_index_unique(old(client)@.transactions, row.transaction_id, i as int);
    }
    let t_amount = client.current_transactions[i].amount;
    if client.current_transactions[i].in_dispute {
        return ;
    }
    let avail_w: i128 = client.available as i128 - t_amount as i128;
    if avail_w < i64::MIN as i128 {
        return ;
    }
    let held_w: i128 = client.held as i128 + t_amount as i128;
    if held_w > i64::MAX as i128 {
        return ;
    }
    let t = ApprovedTransaction {
        transaction_id: row.transaction_id,
        amount: t_amount,
        in_dispute: true,
    };
    proof {
        lemma_dsum_update(old(client)@.transactions, i as int, t);
        lemma_update_same_id(old(client)@.transactions, i as int, t);
    }
    client.current_transactions[i] = t;
    client.available = client.available - t_amount;
    client.held = client.held + t_amount;
}

/// Apply a resolve to an account.
pub fn process_resolve(row: Row<'_>, client: &mut Client)
    requires
        client_inv(old(client)@),
    ensures
        client_inv(final(client)@),
        final(client)@ == spec_resolve(old(client)@, row@),
{
    if client.locked {
        return ;
    }
    let i = match find_transaction(&client.current_transactions, row.transaction_id) {
        None => {
            return ;
        },
        Some(i) => i,
    };
    proof {
        lemma_tx_index_unique(old(client)@.transactions, row.transaction_id, i as int);
    }
    let t_amount = client.current_transactions[i].amount;
    if !client.current_transactions[i].in_dispute {
        return ;
    }
    // The held funds of an unlocked account cover every disputed amount, so
    // neither balance move can leave the fixed-point range.
    proof {
        lemma_dsum_elem(old(client)@.transactions, i as int);
    }
    let t = ApprovedTransaction {
        transaction_id: row.transaction_id,
        amount: t_amount,
        in_dispute: false,
    };
    proof {
        lemma_dsum_update(old(client)@.transactions, i as int, t);
        lemma_update_same_id(old(client)@.transactions, i as int, t);
    }
    client.current_transactions[i] = t;
    client.available = client.available + t_amount;
    client.held = client.held - t_amount;
}

/// Apply a chargeback to an account.
pub fn process_chargeback(row: Row<'_>, client: &mut Client)
    requires
        client_inv(old(client)@),
    ensures
        client_inv(final(client)@),
        final(client)@ == spec_chargeback(old(client)@, row@),
{
    if client.locked {
        return ;
    }
    let i = match find_transaction(&client.current_transactions, row.transaction_id) {
        None => {
            return ;
        },
        Some(i) => i,
    };
    proof {
        lemma_tx_index_unique(old(client)@.transactions, row.transaction_id, i as int);
    }
    let t_amount = client.current_transactions[i].amount;
    if !client.current_transactions[i].in_dispute {
        return ;
    }
    proof {
        lemma_dsum_elem(old(client)@.transactions, i as int);
    }
    client.held = client.held - t_amount;
    client.locked = true;
}

/// Apply one transaction record to the account set. Invalid records of every
/// kind are silently discarded; processing never fails.
pub fn process_record(row: Row<'_>, clients: &mut Vec<Client>)
    requires
        ledger_inv(views(old(clients)@)),
    ensures
        ledger_inv(views(final(clients)@)),
        views(final(clients)@) == spec_apply(views(old(clients)@), row@),
{
    let ghost l = views(old(clients)@);
    match find_client_index(clients, row.client_id) {
        Some(i) => {
            proof {
                assert(l[i as int] == old(clients)@[i as int]@);
                lemma_client_at_unique(l, row.client_id, i as int);
            }
            let client = &mut clients[i];
            match classify(row.transaction_type) {
                TransactionKind::Deposit => process_deposit(row, client),
                TransactionKind::Withdrawal => process_withdrawal(row, client),
                TransactionKind::Dispute => process_dispute(row, client),
                TransactionKind::Resolve => process_resolve(row, client),
                TransactionKind::Chargeback => process_chargeback(row, client),
                TransactionKind::Other => {},
            }
            proof {
                assert(views(clients@) =~= l.update(i as int, clients@[i as int]@));
                assert(views(clients@) == spec_apply(l, row@));
                assert forall|p: int, q: int|
                    #![trigger views(clients@)[p].client_id, views(clients@)[q].client_id]
                    0 <= p < q < views(clients@).len() implies views(clients@)[p].client_id
                    != views(clients@)[q].client_id by {
                    assert(l[p].client_id == views(clients@)[p].client_id);
                    assert(l[q].client_id == views(clients@)[q].client_id);
                }
                assert forall|p: int| 0 <= p < views(clients@).len() implies client_inv(
                    #[trigger] views(clients@)[p],
                ) by {
                    if p != i as int {
                        assert(views(clients@)[p] == l[p]);
                    }
                }
            }
        },
        None => {
            match classify(row.transaction_type) {
                TransactionKind::Deposit => {
                    match parse_amount(row.amount) {
                        None => {},
                        Some(a) => {
                            proof {
                                lemma_spec_amount_nonneg(row@.amount);
                            }
                            let mut txs: Vec<ApprovedTransaction> = Vec::new();
                            txs.push(
                                ApprovedTransaction {
                                    transaction_id: row.transaction_id,
                                    amount: a,
                                    in_dispute: false,
                                },
                            );
                            let new_client = Client {
                                client_id: row.client_id,
                                current_transactions: txs,
                                available: a,
                                held: 0,
                                locked: false,
                            };
                            proof {
                                assert(new_client@.transactions =~= new_client_view(
                                    row@,
                                    a,
                                ).transactions);
                                assert(new_client@ == new_client_view(row@, a));
                            }
                            clients.push(new_client);
                            proof {
                                assert(views(clients@) =~= l.push(new_client_view(row@, a)));
                                assert forall|p: int, q: int|
                                    #![trigger views(clients@)[p].client_id, views(clients@)[q].client_id]
                                    0 <= p < q < views(clients@).len() implies views(
                                    clients@,
                                )[p].client_id != views(clients@)[q].client_id by {
                                    if q < l.len() {
                                        assert(views(clients@)[p] == l[p]);
                                        assert(views(clients@)[q] == l[q]);
                                    } else {
                                        assert(views(clients@)[p] == l[p]);
                                    }
                                }
                                assert forall|p: int| 0 <= p < views(clients@).len() implies client_inv(
                                    #[trigger] views(clients@)[p],
                                ) by {
                                    if p < l.len() {
                                        assert(views(clients@)[p] == l[p]);
                                    } else {
                                        let t0 = ApprovedTransaction {
                                            transaction_id: row@.transaction_id,
                                            amount: a,
                                            in_dispute: false,
                                        };
                                        lemma_dsum_push(Seq::<ApprovedTransaction>::empty(), t0);
                                        assert(new_client_view(row@, a).transactions =~= Seq::<
                                            ApprovedTransaction,
                                        >::empty().push(t0));
                                        assert(disputed_sum(new_client_view(row@, a).transactions)
                                            == 0);
                                    }
                                }
                            }
                        },
                    }
                },
                _ => {},
            }
        },
    }
}

} // verus!
