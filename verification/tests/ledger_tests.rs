use txledger::amount::{format_amount, parse_amount};
use txledger::ledger::{process_record, Client, Row};
use txledger::replay::{account_line, replay, report};

fn row<'a>(kind: &'a str, client: u16, tx: u32, amount: &'a str) -> Row<'a> {
    Row { transaction_type: kind, client_id: client, transaction_id: tx, amount }
}

fn find<'a>(clients: &'a [Client], id: u16) -> Option<&'a Client> {
    clients.iter().find(|c| c.client_id == id)
}

// ----- amount parsing -----

#[test]
fn parse_empty_is_zero() {
    assert_eq!(parse_amount(""), Some(0));
}

#[test]
fn parse_plain_integer() {
    assert_eq!(parse_amount("1"), Some(10000));
    assert_eq!(parse_amount("42"), Some(420000));
    assert_eq!(parse_amount("0"), Some(0));
}

#[test]
fn parse_fractions() {
    assert_eq!(parse_amount("5.0"), Some(50000));
    assert_eq!(parse_amount("3.14"), Some(31400));
    assert_eq!(parse_amount("0.0001"), Some(1));
    assert_eq!(parse_amount("2.5000"), Some(25000));
    assert_eq!(parse_amount("10."), Some(100000));
}

#[test]
fn parse_rejects_malformed() {
    assert_eq!(parse_amount("abc"), None);
    assert_eq!(parse_amount("-1"), None);
    assert_eq!(parse_amount("1.2.3"), None);
    assert_eq!(parse_amount("."), None);
    assert_eq!(parse_amount(".5"), None);
    assert_eq!(parse_amount("1.23456"), None);
    assert_eq!(parse_amount("1a"), None);
    assert_eq!(parse_amount(" 1"), None);
}

#[test]
fn parse_range_edges() {
    assert_eq!(parse_amount("922337203685477.5807"), Some(i64::MAX));
    assert_eq!(parse_amount("922337203685477.5808"), None);
    assert_eq!(parse_amount("99999999999999999999"), None);
}

// ----- amount formatting -----

#[test]
fn format_four_decimals() {
    assert_eq!(format_amount(50000), "5.0000");
    assert_eq!(format_amount(0), "0.0000");
    assert_eq!(format_amount(1), "0.0001");
    assert_eq!(format_amount(31400), "3.1400");
    assert_eq!(format_amount(-35000), "-3.5000");
    assert_eq!(format_amount(i64::MAX), "922337203685477.5807");
    assert_eq!(format_amount(i64::MIN), "-922337203685477.5808");
}

// ----- scenarios -----

#[test]
fn deposit_then_withdrawal() {
    let mut clients: Vec<Client> = Vec::new();
    process_record(row("deposit", 1, 1, "5.0"), &mut clients);
    process_record(row("withdrawal", 1, 2, "3.0"), &mut clients);
    assert_eq!(clients.len(), 1);
    let c = find(&clients, 1).unwrap();
    assert_eq!(c.available, 20000);
    assert_eq!(c.held, 0);
    assert!(!c.locked);
}

#[test]
fn deposit_then_dispute() {
    let mut clients: Vec<Client> = Vec::new();
    process_record(row("deposit", 2, 3, "10.0"), &mut clients);
    process_record(row("dispute", 2, 3, ""), &mut clients);
    let c = find(&clients, 2).unwrap();
    assert_eq!(c.available, 0);
    assert_eq!(c.held, 100000);
    assert!(!c.locked);
}

#[test]
fn chargeback_locks_and_discards_later_deposit() {
    let mut clients: Vec<Client> = Vec::new();
    process_record(row("deposit", 2, 3, "10.0"), &mut clients);
    process_record(row("dispute", 2, 3, ""), &mut clients);
    process_record(row("chargeback", 2, 3, ""), &mut clients);
    {
        let c = find(&clients, 2).unwrap();
        assert_eq!(c.held, 0);
        assert_eq!(c.available, 0);
        assert!(c.locked);
    }
    process_record(row("deposit", 2, 4, "1.0"), &mut clients);
    let c = find(&clients, 2).unwrap();
    assert_eq!(c.available, 0);
    assert_eq!(c.held, 0);
    assert!(c.locked);
    assert_eq!(c.current_transactions.len(), 1);
}

#[test]
fn withdrawal_without_account_creates_nothing() {
    let mut clients: Vec<Client> = Vec::new();
    process_record(row("withdrawal", 99, 1, "5.0"), &mut clients);
    assert!(clients.is_empty());
}

// ----- discard policy -----

#[test]
fn new_account_from_first_deposit() {
    let mut clients: Vec<Client> = Vec::new();
    process_record(row("deposit", 7, 11, "2.5"), &mut clients);
    assert_eq!(clients.len(), 1);
    let c = &clients[0];
    assert_eq!(c.client_id, 7);
    assert_eq!(c.available, 25000);
    assert_eq!(c.held, 0);
    assert!(!c.locked);
    assert_eq!(c.current_transactions.len(), 1);
    assert_eq!(c.current_transactions[0].transaction_id, 11);
    assert_eq!(c.current_transactions[0].amount, 25000);
    assert!(!c.current_transactions[0].in_dispute);
}

#[test]
fn insufficient_withdrawal_changes_nothing() {
    let mut clients: Vec<Client> = Vec::new();
    process_record(row("deposit", 1, 1, "5.0"), &mut clients);
    process_record(row("withdrawal", 1, 2, "5.0001"), &mut clients);
    let c = find(&clients, 1).unwrap();
    assert_eq!(c.available, 50000);
    assert_eq!(c.held, 0);
}

#[test]
fn dispute_resolve_round_trip() {
    let mut clients: Vec<Client> = Vec::new();
    process_record(row("deposit", 1, 1, "5.0"), &mut clients);
    process_record(row("deposit", 1, 2, "3.0"), &mut clients);
    process_record(row("dispute", 1, 1, ""), &mut clients);
    {
        let c = find(&clients, 1).unwrap();
        assert_eq!(c.available, 30000);
        assert_eq!(c.held, 50000);
        assert!(c.current_transactions[0].in_dispute);
    }
    process_record(row("resolve", 1, 1, ""), &mut clients);
    let c = find(&clients, 1).unwrap();
    assert_eq!(c.available, 80000);
    assert_eq!(c.held, 0);
    assert!(!c.current_transactions[0].in_dispute);
    assert!(!c.locked);
}

#[test]
fn unknown_kind_is_discarded() {
    let mut clients: Vec<Client> = Vec::new();
    process_record(row("deposit", 1, 1, "5.0"), &mut clients);
    process_record(row("transfer", 1, 2, "5.0"), &mut clients);
    process_record(row("Deposit", 3, 4, "5.0"), &mut clients);
    assert_eq!(clients.len(), 1);
    let c = find(&clients, 1).unwrap();
    assert_eq!(c.available, 50000);
    assert_eq!(c.held, 0);
}

#[test]
fn dispute_of_unseen_transaction_is_discarded() {
    let mut clients: Vec<Client> = Vec::new();
    process_record(row("deposit", 1, 1, "5.0"), &mut clients);
    process_record(row("dispute", 1, 99, ""), &mut clients);
    process_record(row("resolve", 1, 99, ""), &mut clients);
    process_record(row("chargeback", 1, 99, ""), &mut clients);
    let c = find(&clients, 1).unwrap();
    assert_eq!(c.available, 50000);
    assert_eq!(c.held, 0);
    assert!(!c.locked);
}

#[test]
fn resolve_without_dispute_is_discarded() {
    let mut clients: Vec<Client> = Vec::new();
    process_record(row("deposit", 1, 1, "5.0"), &mut clients);
    process_record(row("resolve", 1, 1, ""), &mut clients);
    process_record(row("chargeback", 1, 1, ""), &mut clients);
    let c = find(&clients, 1).unwrap();
    assert_eq!(c.available, 50000);
    assert_eq!(c.held, 0);
    assert!(!c.locked);
}

#[test]
fn second_dispute_of_same_deposit_is_a_no_op() {
    let mut clients: Vec<Client> = Vec::new();
    process_record(row("deposit", 1, 1, "5.0"), &mut clients);
    process_record(row("dispute", 1, 1, ""), &mut clients);
    process_record(row("dispute", 1, 1, ""), &mut clients);
    let c = find(&clients, 1).unwrap();
    assert_eq!(c.available, 0);
    assert_eq!(c.held, 50000);
}

#[test]
fn duplicate_deposit_transaction_id_is_rejected() {
    let mut clients: Vec<Client> = Vec::new();
    process_record(row("deposit", 1, 1, "5.0"), &mut clients);
    process_record(row("deposit", 1, 1, "7.0"), &mut clients);
    let c = find(&clients, 1).unwrap();
    assert_eq!(c.available, 50000);
    assert_eq!(c.current_transactions.len(), 1);
    assert_eq!(c.current_transactions[0].amount, 50000);
}

#[test]
fn malformed_amount_is_discarded() {
    let mut clients: Vec<Client> = Vec::new();
    process_record(row("deposit", 1, 1, "oops"), &mut clients);
    assert!(clients.is_empty());
    process_record(row("deposit", 1, 1, "5.0"), &mut clients);
    process_record(row("deposit", 1, 2, "1,5"), &mut clients);
    process_record(row("withdrawal", 1, 3, "x"), &mut clients);
    let c = find(&clients, 1).unwrap();
    assert_eq!(c.available, 50000);
    assert_eq!(c.current_transactions.len(), 1);
}

#[test]
fn empty_amount_deposit_is_zero() {
    let mut clients: Vec<Client> = Vec::new();
    process_record(row("deposit", 1, 1, ""), &mut clients);
    assert_eq!(clients.len(), 1);
    let c = find(&clients, 1).unwrap();
    assert_eq!(c.available, 0);
    assert_eq!(c.held, 0);
}

#[test]
fn dispute_can_drive_available_negative() {
    let mut clients: Vec<Client> = Vec::new();
    process_record(row("deposit", 1, 1, "5.0"), &mut clients);
    process_record(row("deposit", 1, 2, "3.0"), &mut clients);
    process_record(row("withdrawal", 1, 3, "8.0"), &mut clients);
    process_record(row("dispute", 1, 1, ""), &mut clients);
    let c = find(&clients, 1).unwrap();
    assert_eq!(c.available, -50000);
    assert_eq!(c.held, 50000);
}

#[test]
fn locked_account_discards_every_kind() {
    let mut clients: Vec<Client> = Vec::new();
    process_record(row("deposit", 1, 1, "5.0"), &mut clients);
    process_record(row("deposit", 1, 2, "2.0"), &mut clients);
    process_record(row("dispute", 1, 1, ""), &mut clients);
    process_record(row("chargeback", 1, 1, ""), &mut clients);
    process_record(row("deposit", 1, 3, "1.0"), &mut clients);
    process_record(row("withdrawal", 1, 4, "1.0"), &mut clients);
    process_record(row("dispute", 1, 2, ""), &mut clients);
    process_record(row("resolve", 1, 2, ""), &mut clients);
    process_record(row("chargeback", 1, 2, ""), &mut clients);
    let c = find(&clients, 1).unwrap();
    assert!(c.locked);
    assert_eq!(c.available, 20000);
    assert_eq!(c.held, 0);
    assert_eq!(c.current_transactions.len(), 2);
}

// ----- replay driver -----

#[test]
fn replay_applies_in_input_order() {
    let rows = vec![
        row("deposit", 1, 1, "5.0"),
        row("withdrawal", 1, 2, "3.0"),
        row("deposit", 2, 3, "10.0"),
        row("dispute", 2, 3, ""),
        row("chargeback", 2, 3, ""),
    ];
    let mut clients: Vec<Client> = Vec::new();
    replay(&rows, &mut clients);
    assert_eq!(clients.len(), 2);
    let c1 = find(&clients, 1).unwrap();
    assert_eq!(c1.available, 20000);
    assert!(!c1.locked);
    let c2 = find(&clients, 2).unwrap();
    assert_eq!(c2.available, 0);
    assert_eq!(c2.held, 0);
    assert!(c2.locked);
}

// ----- output rendering -----

#[test]
fn account_line_renders_derived_total() {
    let mut clients: Vec<Client> = Vec::new();
    process_record(row("deposit", 1, 1, "5.0"), &mut clients);
    process_record(row("withdrawal", 1, 2, "3.0"), &mut clients);
    let line = account_line(&clients[0]);
    assert_eq!(line, "1,2.0000,0.0000,2.0000,false");
}

#[test]
fn report_has_header_and_first_appearance_order() {
    let mut clients: Vec<Client> = Vec::new();
    process_record(row("deposit", 5, 1, "1.0"), &mut clients);
    process_record(row("deposit", 2, 2, "10.0"), &mut clients);
    process_record(row("dispute", 2, 2, ""), &mut clients);
    process_record(row("chargeback", 2, 2, ""), &mut clients);
    let lines = report(&clients);
    assert_eq!(lines.len(), 3);
    assert_eq!(lines[0], "client, available, held, total, locked");
    assert_eq!(lines[1], "5,1.0000,0.0000,1.0000,false");
    assert_eq!(lines[2], "2,0.0000,0.0000,0.0000,true");
}
