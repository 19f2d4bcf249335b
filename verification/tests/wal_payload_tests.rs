use redlinedb::error::Error;
use redlinedb::format::{Csn, Lsn, PageId, RelId, RowId, TxId};
use redlinedb::wal::WalPayload;

#[test]
fn wal_payload_variants_round_trip() {
    let payloads = [
        WalPayload::HeapInsert {
            tx_id: TxId(1),
            rel_id: RelId(11),
            row_id: RowId(2),
            payload: b"insert".to_vec(),
        },
        WalPayload::HeapUpdate {
            tx_id: TxId(3),
            rel_id: RelId(11),
            row_id: RowId(4),
            payload: b"update".to_vec(),
        },
        WalPayload::HeapDelete {
            tx_id: TxId(5),
            rel_id: RelId(11),
            row_id: RowId(6),
        },
        WalPayload::Commit {
            tx_id: TxId(7),
            csn: Csn(8),
        },
    ];

    for payload in payloads {
        let encoded = payload.encode().unwrap();
        let decoded = WalPayload::decode(&encoded).unwrap();
        assert_eq!(decoded, payload);
    }
}

#[test]
fn wal_payload_rejects_truncated_payload() {
    let payload = WalPayload::HeapInsert {
        tx_id: TxId(1),
        rel_id: RelId(11),
        row_id: RowId(2),
        payload: b"insert".to_vec(),
    };
    let mut encoded = payload.encode().unwrap();
    encoded.pop();

    let err = WalPayload::decode(&encoded).unwrap_err();
    assert!(matches!(err, Error::BufferTooSmall { .. }));
}

#[test]
fn wal_payload_rejects_unknown_tag() {
    let err = WalPayload::decode(&[99]).unwrap_err();
    assert_eq!(err, Error::CorruptWal("unknown wal payload tag"));
}

#[test]
fn wal_payload_page_images_round_trip() {
    let payload = WalPayload::PageImage {
        page_id: PageId(4),
        page_lsn: Lsn(9),
        page_bytes: vec![1, 2, 3],
    };
    let encoded = payload.encode().unwrap();
    assert_eq!(WalPayload::decode(&encoded).unwrap(), payload);
    assert_eq!(payload.tx_id(), TxId(0));
}

#[test]
fn wal_payload_rejects_nothing_at_all() {
    assert_eq!(WalPayload::decode(&[]).unwrap_err(), Error::CorruptWal("empty wal payload"));
}
