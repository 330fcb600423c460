//! The replay driver and the final report.
//!
//! The driver feeds an ordered sequence of parsed records one by one into the
//! ledger, in input order, with no reordering. The report renders every
//! account that was created, in order of first appearance: a header row, then
//! one line per account with the client id, the available, held and total
//! balances to four decimal places, and the lock state. The total is derived
//! as available + held; it is never stored.

use vstd::prelude::*;

use crate::amount::{amount_str, append_dec, dec_str, format_amount};
use crate::ledger::{
    client_inv, ledger_inv, process_record, spec_apply, views, Client, ClientView, Row, RowView,
};

verus! {

/// The accounts after replaying a record sequence, first record first.
pub open spec fn spec_replay(l: Seq<ClientView>, rows: Seq<RowView>) -> Seq<ClientView>
    decreases rows.len(),
{
    if rows.len() == 0 {
        l
    } else {
        spec_replay(spec_apply(l, rows[0]), rows.drop_first())
    }
}

/// Replaying one more record applies it to the replayed state.
pub proof fn lemma_replay_snoc(l: Seq<ClientView>, rows: Seq<RowView>, r: RowView)
    ensures
        spec_replay(l, rows.push(r)) == spec_apply(spec_replay(l, rows), r),
    decreases rows.len(),
{
    if rows.len() == 0 {
        assert(rows.push(r)[0] == r);
        assert(rows.push(r).drop_first() =~= Seq::<RowView>::empty());
        assert(spec_replay(l, rows.push(r)) == spec_replay(
            spec_apply(l, r),
            Seq::<RowView>::empty(),
        ));
        assert(spec_replay(spec_apply(l, r), Seq::<RowView>::empty()) == spec_apply(l, r));
        assert(spec_replay(l, rows) == l);
    } else {
        assert(rows.push(r)[0] == rows[0]);
        assert(rows.push(r).drop_first() =~= rows.drop_first().push(r));
        assert(spec_replay(l, rows.push(r)) == spec_replay(
            spec_apply(l, rows[0]),
            rows.drop_first().push(r),
        ));
        lemma_replay_snoc(spec_apply(l, rows[0]), rows.drop_first(), r);
        assert(spec_replay(l, rows) == spec_replay(spec_apply(l, rows[0]), rows.drop_first()));
    }
}

/// Feed every record into the ledger, in input order.
pub fn replay<'a>(rows: &Vec<Row<'a>>, clients: &mut Vec<Client>)
    requires
        ledger_inv(views(old(clients)@)),
    ensures
        ledger_inv(views(final(clients)@)),
        views(final(clients)@) == spec_replay(
            views(old(clients)@),
            rows@.map_values(|r: Row<'a>| r@),
        ),
{
    let ghost rv = rows@.map_values(|r: Row<'a>| r@);
    let n = rows.len();
    let mut idx: usize = 0;
    proof {
        assert(rv.take(0) =~= Seq::<RowView>::empty());
    }
    while idx < n
        invariant
            n == rows@.len(),
            rv == rows@.map_values(|r: Row<'a>| r@),
            0 <= idx <= n,
            ledger_inv(views(clients@)),
            views(clients@) == spec_replay(views(old(clients)@), rv.take(idx as int)),
        decreases n - idx,
    {
        let row = rows[idx];
        process_record(row, clients);
        proof {
            assert(rv.take(idx as int + 1) =~= rv.take(idx as int).push(rv[idx as int]));
            lemma_replay_snoc(views(old(clients)@), rv.take(idx as int), rv[idx as int]);
            assert(rv[idx as int] == rows@[idx as int]@);
        }
        idx += 1;
    }
    proof {
        assert(rv.take(n as int) =~= rv);
    }
}

pub open spec fn bool_str(b: bool) -> Seq<char> {
    if b {
        "true"@
    } else {
        "false"@
    }
}

/// One report line: client id, available, held, total and lock state,
/// comma separated, amounts with four decimal places, the total derived as
/// available + held.
pub open spec fn spec_account_line(c: ClientView) -> Seq<char> {
    dec_str(c.client_id as nat) + seq![','] + amount_str(c.available as int) + seq![',']
        + amount_str(c.held as int) + seq![','] + amount_str(c.available + c.held) + seq![',']
        + bool_str(c.locked)
}

pub open spec fn header_str() -> Seq<char> {
    "client, available, held, total, locked"@
}

/// Render one account's report line.
pub fn account_line(client: &Client) -> (r: String)
    requires
        client_inv(client@),
    ensures
        r@ == spec_account_line(client@),
{
    let mut out = String::new();
    append_dec(client.client_id as u64, &mut out);
    out.append(",");
    let s_avail = format_amount(client.available);
    out.append(s_avail.as_str());
    out.append(",");
    let s_held = format_amount(client.held);
    out.append(s_held.as_str());
    out.append(",");
    let total = client.available + client.held;
    let s_total = format_amount(total);
    out.append(s_total.as_str());
    out.append(",");
    if client.locked {
        out.append("true");
    } else {
        out.append("false");
    }
    proof {
        reveal_strlit(",");
        assert(out@ =~= spec_account_line(client@));
    }
    out
}

/// Render the whole report: the header row, then one line per account in
/// order of first appearance.
pub fn report(clients: &Vec<Client>) -> (r: Vec<String>)
    requires
        ledger_inv(views(clients@)),
    ensures
        r@.len() == clients@.len() + 1,
        r@[0]@ == header_str(),
        forall|i: int|
            1 <= i < r@.len() ==> (#[trigger] r@[i])@ == spec_account_line(views(clients@)[i - 1]),
{
    let mut out: Vec<String> = Vec::new();
    out.push(String::from_str("client, available, held, total, locked"));
    let n = clients.len();
    let mut i: usize = 0;
    while i < n
        invariant
            ledger_inv(views(clients@)),
            n == clients@.len(),
            0 <= i <= n,
            out@.len() == i + 1,
            out@[0]@ == header_str(),
            forall|j: int|
                1 <= j < out@.len() ==> (#[trigger] out@[j])@ == spec_account_line(
                    views(clients@)[j - 1],
                ),
        decreases n - i,
    {
        proof {
            assert(views(clients@)[i as int] == clients@[i as int]@);
        }
        let line = account_line(&clients[i]);
        out.push(line);
        i += 1;
    }
    out
}

} // verus!
