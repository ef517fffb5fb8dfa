use near_balance_monitor::near::{select_recent, Transaction};

fn tx(hash: &str, ts: u128, deposit: u128) -> Transaction {
    Transaction {
        hash: hash.to_string(),
        signer_id: "signer.test".to_string(),
        receiver_id: "receiver.test".to_string(),
        block_timestamp: ts,
        deposit,
    }
}

#[test]
fn duplicates_keep_their_first_occurrence() {
    let txs = vec![tx("h1", 5, 100), tx("h1", 9, 200), tx("h2", 7, 300)];
    let out = select_recent(&txs);
    assert_eq!(out.len(), 2);
    // The first "h1" (timestamp 5) survives; the later duplicate goes.
    assert_eq!(out[0].hash, "h2");
    assert_eq!(out[0].block_timestamp, 7);
    assert_eq!(out[1].hash, "h1");
    assert_eq!(out[1].block_timestamp, 5);
    assert_eq!(out[1].deposit, 100);
}

#[test]
fn results_come_newest_first_and_stably() {
    let txs = vec![
        tx("a", 10, 1),
        tx("b", 30, 2),
        tx("c", 20, 3),
        tx("d", 20, 4),
    ];
    let out = select_recent(&txs);
    assert_eq!(out.len(), 4);
    assert_eq!(out[0].hash, "b");
    // Equal timestamps keep their arrival order: "c" before "d".
    assert_eq!(out[1].hash, "c");
    assert_eq!(out[2].hash, "d");
    assert_eq!(out[3].hash, "a");
}

#[test]
fn at_most_ten_survive() {
    let mut txs = Vec::new();
    for i in 0..25u128 {
        txs.push(tx(&format!("h{}", i), i, i));
    }
    let out = select_recent(&txs);
    assert_eq!(out.len(), 10);
    // The ten newest, newest first.
    for (k, t) in out.iter().enumerate() {
        assert_eq!(t.block_timestamp, 24 - k as u128);
    }
}

#[test]
fn empty_input_yields_empty_output() {
    let txs: Vec<Transaction> = Vec::new();
    assert_eq!(select_recent(&txs).len(), 0);
}
