use balances::audit::{audit_row, AuditRecord};
use balances::numfmt::u64_to_string;
use balances::snapshot::{snapshot_content, snapshot_file_name};

#[test]
fn decimal_formatting_matches_std() {
    assert_eq!(u64_to_string(0), "0");
    assert_eq!(u64_to_string(7), "7");
    assert_eq!(u64_to_string(10), "10");
    assert_eq!(u64_to_string(5_000_000_000), "5000000000");
    assert_eq!(u64_to_string(u64::MAX), u64::MAX.to_string());
}

#[test]
fn audit_row_is_one_comma_separated_line() {
    let rec = AuditRecord {
        block_height: 1,
        reward: 5_000_000_000,
        spent_value: 5_000_000_000,
        created_value: 4_999_990_000,
        lost: 5_000_010_000,
    };
    assert_eq!(audit_row(&rec), "1,5000000000,5000000000,4999990000,5000010000\n");
}

#[test]
fn audit_row_of_zeros() {
    let rec = AuditRecord { block_height: 0, reward: 0, spent_value: 0, created_value: 0, lost: 0 };
    assert_eq!(audit_row(&rec), "0,0,0,0,0\n");
}

#[test]
fn snapshot_has_header_then_rows() {
    let rows = vec![("A".to_string(), 5_000_000_000u64), ("B".to_string(), 17u64)];
    assert_eq!(snapshot_content(&rows), "address;balance\nA;5000000000\nB;17\n");
    let empty: Vec<(String, u64)> = Vec::new();
    assert_eq!(snapshot_content(&empty), "address;balance\n");
}

#[test]
fn snapshot_name_carries_both_heights() {
    assert_eq!(snapshot_file_name(0, 0), "balances-0-0.csv");
    assert_eq!(snapshot_file_name(123, 456_789), "balances-123-456789.csv");
}
