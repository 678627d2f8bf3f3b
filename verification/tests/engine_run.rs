use balances::audit::audit_row;
use balances::block::{Block, Transaction, TxInput, TxOutput};
use balances::engine::Balances;
use balances::snapshot::snapshot_content;

fn coinbase_tx(txid: Vec<u8>, outputs: Vec<TxOutput>) -> Transaction {
    Transaction { txid, inputs: vec![TxInput::Coinbase], outputs }
}

fn to_addr(address: &str, value: u64) -> TxOutput {
    TxOutput { address: Some(address.to_string()), value }
}

#[test]
fn genesis_block_creates_one_balance_and_loses_nothing() {
    let mut engine = Balances::new();
    engine.on_start(0);

    let block = Block { txs: vec![coinbase_tx(vec![1; 4], vec![to_addr("A", 5_000_000_000)])] };
    let audit = engine.on_block(&block, 0);
    assert!(audit.is_none(), "subsidy fully accounted for: no audit row");
    assert_eq!(engine.lost_value(), 0);
    assert_eq!(engine.unspent_count(), 1);

    let rows = engine.on_complete(0);
    assert_eq!(rows, vec![("A".to_string(), 5_000_000_000u64)]);
    assert_eq!(snapshot_content(&rows), "address;balance\nA;5000000000\n");
    assert_eq!(engine.snapshot_file_name(), "balances-0-0.csv");
}

#[test]
fn spending_block_records_the_lost_value() {
    let mut engine = Balances::new();
    engine.on_start(0);

    let block0 = Block { txs: vec![coinbase_tx(vec![1; 4], vec![to_addr("A", 5_000_000_000)])] };
    assert!(engine.on_block(&block0, 0).is_none());

    // Height 1 spends the prior output in a transaction whose single output
    // pays 4,999,990,000 to B; 5,000,010,000 goes unaccounted for.
    let spend = Transaction {
        txid: vec![2; 4],
        inputs: vec![TxInput::Outpoint { txid: vec![1; 4], index: 0 }],
        outputs: vec![to_addr("B", 4_999_990_000)],
    };
    let block1 = Block { txs: vec![spend] };
    let audit = engine.on_block(&block1, 1).expect("positive lost value is recorded");
    assert_eq!(audit.block_height, 1);
    assert_eq!(audit.reward, 5_000_000_000);
    assert_eq!(audit.spent_value, 5_000_000_000);
    assert_eq!(audit.created_value, 4_999_990_000);
    assert_eq!(audit.lost, 5_000_010_000);
    assert_eq!(audit_row(&audit), "1,5000000000,5000000000,4999990000,5000010000\n");
    assert_eq!(engine.lost_value(), 5_000_010_000);

    let rows = engine.on_complete(1);
    assert_eq!(rows, vec![("B".to_string(), 4_999_990_000u64)]);
    assert_eq!(snapshot_content(&rows), "address;balance\nB;4999990000\n");
    assert_eq!(engine.snapshot_file_name(), "balances-0-1.csv");
}

#[test]
fn blocks_without_shared_outputs_accumulate_their_created_totals() {
    let mut engine = Balances::new();
    engine.on_start(0);
    let block0 = Block {
        txs: vec![coinbase_tx(vec![1; 4], vec![to_addr("A", 100), to_addr("B", 30)])],
    };
    let block1 = Block {
        txs: vec![
            coinbase_tx(vec![2; 4], vec![to_addr("A", 20)]),
            coinbase_tx(vec![3; 4], vec![to_addr("C", 5)]),
        ],
    };
    // Subsidy far exceeds the small values created here: audit rows appear,
    // but all four outputs stay live.
    assert!(engine.on_block(&block0, 0).is_some());
    assert_eq!(engine.unspent_count(), 2);
    assert!(engine.on_block(&block1, 1).is_some());
    assert_eq!(engine.unspent_count(), 4);

    let mut rows = engine.on_complete(1);
    rows.sort();
    assert_eq!(
        rows,
        vec![("A".to_string(), 120u64), ("B".to_string(), 30u64), ("C".to_string(), 5u64)]
    );
}

#[test]
fn spending_an_absent_output_contributes_zero() {
    let mut engine = Balances::new();
    engine.on_start(0);
    let block0 = Block { txs: vec![coinbase_tx(vec![1; 4], vec![to_addr("A", 50)])] };
    let first = engine.on_block(&block0, 0).expect("most of the subsidy went unaccounted");
    assert_eq!(first.lost, 5_000_000_000 - 50);

    // References an output nothing ever created: the miss is not fatal and
    // adds nothing to the spent counters.
    let spend = Transaction {
        txid: vec![9; 4],
        inputs: vec![TxInput::Outpoint { txid: vec![8; 4], index: 3 }],
        outputs: vec![to_addr("D", 1)],
    };
    let audit = engine.on_block(&Block { txs: vec![spend] }, 1).expect("subsidy went unaccounted");
    assert_eq!(audit.spent_value, 0);
    assert_eq!(audit.created_value, 1);
    assert_eq!(audit.lost, 5_000_000_000 - 1);
    assert_eq!(engine.unspent_count(), 2);

    let mut rows = engine.on_complete(1);
    rows.sort();
    assert_eq!(rows, vec![("A".to_string(), 50u64), ("D".to_string(), 1u64)]);
}

#[test]
fn untracked_outputs_are_excluded_from_created_value() {
    let mut engine = Balances::new();
    engine.on_start(0);
    // One output bears no address: it is not tracked, so the block's
    // created value counts only the addressed output.
    let tx = Transaction {
        txid: vec![4; 4],
        inputs: vec![TxInput::Coinbase],
        outputs: vec![to_addr("A", 4_000_000_000), TxOutput { address: None, value: 1_000_000_000 }],
    };
    let audit = engine.on_block(&Block { txs: vec![tx] }, 0).expect("untracked value is lost");
    assert_eq!(audit.created_value, 4_000_000_000);
    assert_eq!(audit.lost, 1_000_000_000);
    assert_eq!(engine.unspent_count(), 1);
}

#[test]
fn aggregating_an_unmodified_index_twice_yields_the_same_balances() {
    let mut engine = Balances::new();
    engine.on_start(0);
    let block = Block {
        txs: vec![coinbase_tx(vec![1; 4], vec![to_addr("A", 100), to_addr("B", 30), to_addr("A", 7)])],
    };
    engine.on_block(&block, 0);
    let first = engine.on_complete(0);
    let second = engine.on_complete(0);
    assert_eq!(first, second);
    let mut sorted = first;
    sorted.sort();
    assert_eq!(sorted, vec![("A".to_string(), 107u64), ("B".to_string(), 30u64)]);
}

#[test]
fn same_block_chain_spends_the_earlier_transactions_output() {
    let mut engine = Balances::new();
    engine.on_start(0);
    let mint = coinbase_tx(vec![1; 4], vec![to_addr("A", 5_000_000_000)]);
    let pass_on = Transaction {
        txid: vec![2; 4],
        inputs: vec![TxInput::Outpoint { txid: vec![1; 4], index: 0 }],
        outputs: vec![to_addr("B", 5_000_000_000)],
    };
    let block = Block { txs: vec![mint, pass_on] };
    // Spent and created balance out against the subsidy: nothing is lost.
    assert!(engine.on_block(&block, 0).is_none());
    assert_eq!(engine.unspent_count(), 1);
    let rows = engine.on_complete(0);
    assert_eq!(rows, vec![("B".to_string(), 5_000_000_000u64)]);
}
