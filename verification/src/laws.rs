//! Ledger-wide laws, stated and proved over the spec-level state machine.

use vstd::prelude::*;

use crate::amount::{lemma_spec_amount_nonneg, spec_amount_i64};
use crate::ledger::{
    client_at, client_inv, has_client, has_tx, ledger_inv, lemma_client_at_unique,
    lemma_dsum_elem, lemma_dsum_push, lemma_dsum_update, lemma_tx_index_unique,
    lemma_update_same_id, new_client_view, spec_apply, spec_apply_client, spec_classify, tx_index,
    ApprovedTransaction, ClientView, RowView, TransactionKind,
};

verus! {

/// No transaction changes which client an account belongs to, and a locked
/// account is never changed at all.
pub proof fn lemma_apply_client_frame(c: ClientView, r: RowView)
    ensures
        spec_apply_client(c, r).client_id == c.client_id,
        c.locked ==> spec_apply_client(c, r) == c,
{
}

/// Every transition preserves the account invariant: deposit ids stay
/// unique, amounts nonnegative, the held funds of an unlocked account equal
/// the disputed amounts, and the total stays representable. In particular
/// the derived total, available + held, is meaningful after every step.
pub proof fn lemma_apply_client_preserves_inv(c: ClientView, r: RowView)
    requires
        client_inv(c),
    ensures
        client_inv(spec_apply_client(c, r)),
{
    lemma_spec_amount_nonneg(r.amount);
    if !c.locked {
        match spec_classify(r.transaction_type) {
            TransactionKind::Deposit => {
                match spec_amount_i64(r.amount) {
                    None => {},
                    Some(a) => {
                        if !has_tx(c.transactions, r.transaction_id) && c.available + c.held + a
                            <= i64::MAX {
                            let t = ApprovedTransaction {
                                transaction_id: r.transaction_id,
                                amount: a,
                                in_dispute: false,
                            };
                            let u = c.transactions.push(t);
                            lemma_dsum_push(c.transactions, t);
                            assert forall|p: int, q: int|
                                #![trigger u[p].transaction_id, u[q].transaction_id]
                                0 <= p < q < u.len() implies u[p].transaction_id
                                != u[q].transaction_id by {
                                if q < c.transactions.len() {
                                } else {
                                    assert(u[p] == c.transactions[p]);
                                }
                            }
                            assert forall|p: int| 0 <= p < u.len() implies #[trigger] u[p].amount
                                >= 0 by {
                                if p < c.transactions.len() {
                                    assert(u[p] == c.transactions[p]);
                                }
                            }
                        }
                    },
                }
            },
            TransactionKind::Withdrawal => {},
            TransactionKind::Dispute => {
                if has_tx(c.transactions, r.transaction_id) {
                    let i = tx_index(c.transactions, r.transaction_id);
                    assert(0 <= i < c.transactions.len() && c.transactions[i].transaction_id
                        == r.transaction_id);
                    let t = c.transactions[i];
                    if !t.in_dispute && c.available - t.amount >= i64::MIN && c.held + t.amount
                        <= i64::MAX {
                        let t2 = ApprovedTransaction {
                            transaction_id: t.transaction_id,
                            amount: t.amount,
                            in_dispute: true,
                        };
                        lemma_dsum_update(c.transactions, i, t2);
                        lemma_update_same_id(c.transactions, i, t2);
                    }
                }
            },
            TransactionKind::Resolve => {
                if has_tx(c.transactions, r.transaction_id) {
                    let i = tx_index(c.transactions, r.transaction_id);
                    assert(0 <= i < c.transactions.len() && c.transactions[i].transaction_id
                        == r.transaction_id);
                    let t = c.transactions[i];
                    if t.in_dispute {
                        lemma_dsum_elem(c.transactions, i);
                        let t2 = ApprovedTransaction {
                            transaction_id: t.transaction_id,
                            amount: t.amount,
                            in_dispute: false,
                        };
                        lemma_dsum_update(c.transactions, i, t2);
                        lemma_update_same_id(c.transactions, i, t2);
                    }
                }
            },
            TransactionKind::Chargeback => {
                if has_tx(c.transactions, r.transaction_id) {
                    let i = tx_index(c.transactions, r.transaction_id);
                    assert(0 <= i < c.transactions.len() && c.transactions[i].transaction_id
                        == r.transaction_id);
                    if c.transactions[i].in_dispute {
                        lemma_dsum_elem(c.transactions, i);
                    }
                }
            },
            TransactionKind::Other => {},
        }
    }
}

/// Applying any record preserves the ledger invariant.
pub proof fn lemma_apply_preserves_inv(l: Seq<ClientView>, r: RowView)
    requires
        ledger_inv(l),
    ensures
        ledger_inv(spec_apply(l, r)),
{
    let l2 = spec_apply(l, r);
    if has_client(l, r.client_id) {
        let i = client_at(l, r.client_id);
        assert(0 <= i < l.len() && l[i].client_id == r.client_id);
        lemma_apply_client_preserves_inv(l[i], r);
        lemma_apply_client_frame(l[i], r);
        assert forall|p: int, q: int|
            #![trigger l2[p].client_id, l2[q].client_id]
            0 <= p < q < l2.len() implies l2[p].client_id != l2[q].client_id by {
            assert(l2[p].client_id == l[p].client_id);
            assert(l2[q].client_id == l[q].client_id);
        }
        assert forall|p: int| 0 <= p < l2.len() implies client_inv(#[trigger] l2[p]) by {
            if p != i {
                assert(l2[p] == l[p]);
            }
        }
    } else if spec_classify(r.transaction_type) is Deposit {
        match spec_amount_i64(r.amount) {
            None => {},
            Some(a) => {
                lemma_spec_amount_nonneg(r.amount);
                let c = new_client_view(r, a);
                let t0 = ApprovedTransaction {
                    transaction_id: r.transaction_id,
                    amount: a,
                    in_dispute: false,
                };
                lemma_dsum_push(Seq::<ApprovedTransaction>::empty(), t0);
                assert(c.transactions =~= Seq::<ApprovedTransaction>::empty().push(t0));
                assert(client_inv(c));
                assert forall|p: int, q: int|
                    #![trigger l2[p].client_id, l2[q].client_id]
                    0 <= p < q < l2.len() implies l2[p].client_id != l2[q].client_id by {
                    if q < l.len() {
                        assert(l2[p] == l[p]);
                        assert(l2[q] == l[q]);
                    } else {
                        assert(l2[p] == l[p]);
                    }
                }
                assert forall|p: int| 0 <= p < l2.len() implies client_inv(#[trigger] l2[p]) by {
                    if p < l.len() {
                        assert(l2[p] == l[p]);
                    }
                }
            },
        }
    }
}

/// A deposit to an unknown client creates exactly one account: the new
/// account holds the deposited amount available, nothing held, and is
/// unlocked; every existing account is untouched.
pub proof fn lemma_deposit_creates_account(l: Seq<ClientView>, r: RowView, a: i64)
    requires
        ledger_inv(l),
        !has_client(l, r.client_id),
        spec_classify(r.transaction_type) is Deposit,
        spec_amount_i64(r.amount) == Some(a),
    ensures
        spec_apply(l, r).len() == l.len() + 1,
        spec_apply(l, r) == l.push(new_client_view(r, a)),
        spec_apply(l, r).last().client_id == r.client_id,
        spec_apply(l, r).last().available == a,
        spec_apply(l, r).last().held == 0,
        !spec_apply(l, r).last().locked,
        forall|j: int| 0 <= j < l.len() ==> spec_apply(l, r)[j] == l[j],
{
}

/// A withdrawal exceeding the available funds leaves the ledger unchanged.
pub proof fn lemma_withdrawal_insufficient_no_op(l: Seq<ClientView>, r: RowView, i: int, a: i64)
    requires
        ledger_inv(l),
        0 <= i < l.len(),
        l[i].client_id == r.client_id,
        spec_classify(r.transaction_type) is Withdrawal,
        spec_amount_i64(r.amount) == Some(a),
        a > l[i].available,
    ensures
        spec_apply(l, r) == l,
{
    lemma_client_at_unique(l, r.client_id, i);
    assert(spec_apply_client(l[i], r) == l[i]);
    assert(l.update(i, l[i]) =~= l);
}

/// A record addressed to a locked account — of any kind — changes nothing.
pub proof fn lemma_locked_account_no_op(l: Seq<ClientView>, r: RowView, i: int)
    requires
        ledger_inv(l),
        0 <= i < l.len(),
        l[i].client_id == r.client_id,
        l[i].locked,
    ensures
        spec_apply(l, r) == l,
{
    lemma_client_at_unique(l, r.client_id, i);
    lemma_apply_client_frame(l[i], r);
    assert(l.update(i, l[i]) =~= l);
}

/// Once locked, an account stays locked and untouched, whatever record comes
/// next.
pub proof fn lemma_locked_is_permanent(l: Seq<ClientView>, r: RowView, i: int)
    requires
        ledger_inv(l),
        0 <= i < l.len(),
        l[i].locked,
    ensures
        spec_apply(l, r).len() >= l.len(),
        spec_apply(l, r)[i] == l[i],
        spec_apply(l, r)[i].locked,
{
    if has_client(l, r.client_id) {
        let j = client_at(l, r.client_id);
        assert(0 <= j < l.len() && l[j].client_id == r.client_id);
        if j == i {
            lemma_apply_client_frame(l[i], r);
        }
    }
}

/// A chargeback of a deposit in dispute locks the account, writes the
/// disputed amount off from the held funds, and leaves the available funds
/// alone: the deposit's principal is gone from the account's total.
pub proof fn lemma_chargeback_locks(c: ClientView, r: RowView)
    requires
        client_inv(c),
        !c.locked,
        spec_classify(r.transaction_type) is Chargeback,
        has_tx(c.transactions, r.transaction_id),
        c.transactions[tx_index(c.transactions, r.transaction_id)].in_dispute,
    ensures
        spec_apply_client(c, r).locked,
        spec_apply_client(c, r).held == c.held - c.transactions[tx_index(
            c.transactions,
            r.transaction_id,
        )].amount,
        spec_apply_client(c, r).available == c.available,
{
    let i = tx_index(c.transactions, r.transaction_id);
    assert(0 <= i < c.transactions.len() && c.transactions[i].transaction_id == r.transaction_id);
    lemma_dsum_elem(c.transactions, i);
}

/// An unknown transaction type changes nothing, whether or not the client
/// exists.
pub proof fn lemma_unknown_kind_no_op(l: Seq<ClientView>, r: RowView)
    requires
        ledger_inv(l),
        spec_classify(r.transaction_type) is Other,
    ensures
        spec_apply(l, r) == l,
{
    if has_client(l, r.client_id) {
        let i = client_at(l, r.client_id);
        assert(0 <= i < l.len() && l[i].client_id == r.client_id);
        assert(l.update(i, l[i]) =~= l);
    }
}

/// A dispute, resolve, or chargeback that references a transaction id the
/// targeted account never deposited — or that targets no account at all —
/// changes nothing.
pub proof fn lemma_unseen_tx_no_op(l: Seq<ClientView>, r: RowView)
    requires
        ledger_inv(l),
        spec_classify(r.transaction_type) is Dispute || spec_classify(r.transaction_type)
            is Resolve || spec_classify(r.transaction_type) is Chargeback,
        has_client(l, r.client_id) ==> !has_tx(
            l[client_at(l, r.client_id)].transactions,
            r.transaction_id,
        ),
    ensures
        spec_apply(l, r) == l,
{
    if has_client(l, r.client_id) {
        let i = client_at(l, r.client_id);
        assert(0 <= i < l.len() && l[i].client_id == r.client_id);
        assert(spec_apply_client(l[i], r) == l[i]);
        assert(l.update(i, l[i]) =~= l);
    }
}

/// Dispute then resolve of the same transaction id, against the same client,
/// is a round trip: available, held, and the dispute flag all return to
/// their values before the pair, so the net effect on the ledger is nothing.
/// The one exclusion: the referenced deposit must not already be in dispute
/// before the pair — resolving a pre-existing dispute is a real change.
pub proof fn lemma_dispute_resolve_round_trip(l: Seq<ClientView>, d: RowView, s: RowView)
    requires
        ledger_inv(l),
        spec_classify(d.transaction_type) is Dispute,
        spec_classify(s.transaction_type) is Resolve,
        s.client_id == d.client_id,
        s.transaction_id == d.transaction_id,
        (has_client(l, d.client_id) && !l[client_at(l, d.client_id)].locked && has_tx(
            l[client_at(l, d.client_id)].transactions,
            d.transaction_id,
        )) ==> !l[client_at(l, d.client_id)].transactions[tx_index(
            l[client_at(l, d.client_id)].transactions,
            d.transaction_id,
        )].in_dispute,
    ensures
        spec_apply(spec_apply(l, d), s) == l,
{
    if !has_client(l, d.client_id) {
        assert(spec_apply(l, d) == l);
        assert(spec_apply(l, s) == l);
    } else {
        let i = client_at(l, d.client_id);
        assert(0 <= i < l.len() && l[i].client_id == d.client_id);
        let c = l[i];
        let c1 = spec_apply_client(c, d);
        let l1 = spec_apply(l, d);
        assert(l1 == l.update(i, c1));
        lemma_apply_client_frame(c, d);
        // Client ids are untouched, so the second record routes to the same
        // account.
        assert forall|p: int, q: int|
            #![trigger l1[p].client_id, l1[q].client_id]
            0 <= p < q < l1.len() implies l1[p].client_id != l1[q].client_id by {
            assert(l1[p].client_id == l[p].client_id);
            assert(l1[q].client_id == l[q].client_id);
        }
        lemma_client_at_unique(l1, s.client_id, i);
        if c.locked {
            assert(c1 == c);
            assert(l1 =~= l);
            lemma_apply_client_frame(c, s);
            assert(spec_apply(l, s) == l.update(i, c));
            assert(l.update(i, c) =~= l);
        } else if !has_tx(c.transactions, d.transaction_id) {
            assert(c1 == c);
            assert(l1 =~= l);
            assert(spec_apply_client(c, s) == c);
            assert(l.update(i, c) =~= l);
        } else {
            let ti = tx_index(c.transactions, d.transaction_id);
            assert(0 <= ti < c.transactions.len() && c.transactions[ti].transaction_id
                == d.transaction_id);
            let t = c.transactions[ti];
            assert(!t.in_dispute);
            if c.available - t.amount < i64::MIN || c.held + t.amount > i64::MAX {
                // The dispute was discarded; the resolve then finds the
                // deposit not in dispute and is discarded too.
                assert(c1 == c);
                assert(l1 =~= l);
                lemma_tx_index_unique(c.transactions, s.transaction_id, ti);
                assert(spec_apply_client(c, s) == c);
                assert(l.update(i, c) =~= l);
            } else {
                let t_disp = ApprovedTransaction {
                    transaction_id: t.transaction_id,
                    amount: t.amount,
                    in_dispute: true,
                };
                lemma_update_same_id(c.transactions, ti, t_disp);
                assert(c1.transactions == c.transactions.update(ti, t_disp));
                lemma_tx_index_unique(c1.transactions, s.transaction_id, ti);
                let c2 = spec_apply_client(c1, s);
                assert(c2.transactions =~= c.transactions) by {
                    assert(c2.transactions == c1.transactions.update(
                        ti,
                        ApprovedTransaction {
                            transaction_id: t.transaction_id,
                            amount: t.amount,
                            in_dispute: false,
                        },
                    ));
                }
                assert(c2 == c);
                assert(l1.update(i, c2) =~= l);
            }
        }
    }
}

} // verus!
