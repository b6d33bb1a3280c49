use durable_bloom::checkpoint::{decode_checkpoint, encode_checkpoint, CheckpointError, Snapshot};
use durable_bloom::wal::{parse_wal, wal_line};
use durable_bloom::{Filter, InitError, Saved, CHECKPOINT_MS};

const SEED: [u8; 32] = [
    7, 1, 2, 3, 4, 5, 6, 7, 8, 9, 10, 11, 12, 13, 14, 15, 16, 17, 18, 19, 20, 21, 22, 23, 24, 25,
    26, 27, 28, 29, 30, 31,
];

fn fresh(n_bytes: usize, expected: usize) -> Filter {
    Filter::new(None, n_bytes, expected, SEED, 0).unwrap()
}

#[test]
fn set_key_is_present() {
    let mut f = fresh(1 << 12, 1000);
    for key in [0u64, 1, 42, u64::MAX, 123_456_789] {
        f.set(key, 10);
        assert!(f.check(key));
    }
}

#[test]
fn fresh_filter_is_empty() {
    let mut f = fresh(1 << 20, 10000);
    for key in 0..1000u64 {
        assert!(!f.check(key));
    }
}

#[test]
fn false_positive_rate_is_near_prediction() {
    let n_bytes = 1000usize;
    let expected = 1000usize;
    let mut f = fresh(n_bytes, expected);
    for key in 0..expected as u64 {
        f.set(key, 0);
    }
    let record = f.checkpoint_record();
    let snap = decode_checkpoint(&record).unwrap();
    let k = snap.k_num as f64;
    let m = (n_bytes * 8) as f64;
    let n = expected as f64;
    let predicted = (1.0 - (-k * n / m).exp()).powf(k);
    let samples = 20000u64;
    let mut positives = 0u64;
    for key in 1_000_000..1_000_000 + samples {
        if f.check(key) {
            positives += 1;
        }
    }
    let observed = positives as f64 / samples as f64;
    assert!(observed > predicted * 0.5, "observed {} predicted {}", observed, predicted);
    assert!(observed < predicted * 2.0, "observed {} predicted {}", observed, predicted);
}

#[test]
fn checkpoint_bytes_layout() {
    let snap = Snapshot { bitmap: vec![1, 2], k_num: 3, sip_keys: ((4, 5), (6, 0x0102_0304_0506_0708)) };
    let bytes = encode_checkpoint(&snap);
    let mut expected: Vec<u8> = vec![2, 0, 0, 0, 0, 0, 0, 0, 1, 2, 3, 0, 0, 0];
    expected.extend_from_slice(&[4, 0, 0, 0, 0, 0, 0, 0]);
    expected.extend_from_slice(&[5, 0, 0, 0, 0, 0, 0, 0]);
    expected.extend_from_slice(&[6, 0, 0, 0, 0, 0, 0, 0]);
    expected.extend_from_slice(&[8, 7, 6, 5, 4, 3, 2, 1]);
    assert_eq!(bytes, expected);
}

#[test]
fn checkpoint_round_trip() {
    let snap = Snapshot { bitmap: vec![0xff, 0, 7, 9], k_num: 17, sip_keys: ((1, u64::MAX), (3, 4)) };
    let bytes = encode_checkpoint(&snap);
    let back = decode_checkpoint(&bytes).unwrap();
    assert_eq!(back.bitmap, snap.bitmap);
    assert_eq!(back.k_num, 17);
    assert_eq!(back.sip_keys, ((1, u64::MAX), (3, 4)));
}

#[test]
fn checkpoint_ignores_trailing_bytes() {
    let snap = Snapshot { bitmap: vec![5], k_num: 2, sip_keys: ((1, 2), (3, 4)) };
    let mut bytes = encode_checkpoint(&snap);
    bytes.push(99);
    let back = decode_checkpoint(&bytes).unwrap();
    assert_eq!(back.bitmap, vec![5]);
}

#[test]
fn checkpoint_errors() {
    let snap = Snapshot { bitmap: vec![5, 6], k_num: 2, sip_keys: ((1, 2), (3, 4)) };
    let bytes = encode_checkpoint(&snap);
    assert_eq!(decode_checkpoint(&bytes[..bytes.len() - 1]).err(), Some(CheckpointError::Truncated));
    assert_eq!(decode_checkpoint(&[]).err(), Some(CheckpointError::Truncated));
    let empty = Snapshot { bitmap: vec![], k_num: 2, sip_keys: ((1, 2), (3, 4)) };
    assert_eq!(decode_checkpoint(&encode_checkpoint(&empty)).err(), Some(CheckpointError::EmptyBitmap));
}

#[test]
fn filter_checkpoint_restores_state() {
    let mut f = fresh(64, 10);
    for key in [3u64, 9, 27] {
        f.set(key, 1);
    }
    let record = f.checkpoint_record();
    let g = Filter::new(Some(Saved { checkpoint: record.clone(), wal: vec![] }), 1, 1, SEED, 5).unwrap();
    assert_eq!(g.checkpoint_record(), record);
}

#[test]
fn wal_line_is_decimal() {
    assert_eq!(wal_line(42), b"42\n".to_vec());
    assert_eq!(wal_line(0), b"0\n".to_vec());
    assert_eq!(wal_line(u64::MAX), b"18446744073709551615\n".to_vec());
}

#[test]
fn wal_parse_cases() {
    assert_eq!(parse_wal(b""), Some(vec![]));
    assert_eq!(parse_wal(b"1\n2\n"), Some(vec![1, 2]));
    assert_eq!(parse_wal(b"1\n2"), Some(vec![1, 2]));
    assert_eq!(parse_wal(b"+5\r\n7\n"), Some(vec![5, 7]));
    assert_eq!(parse_wal(b"18446744073709551615\n"), Some(vec![u64::MAX]));
    assert_eq!(parse_wal(b"18446744073709551616\n"), None);
    assert_eq!(parse_wal(b"\n"), None);
    assert_eq!(parse_wal(b"-1\n"), None);
    assert_eq!(parse_wal(b"+\n"), None);
    assert_eq!(parse_wal(b"12a\n"), None);
}

#[test]
fn wal_round_trip() {
    let keys = [0u64, 7, 42, 1_000_000, u64::MAX];
    let mut text = Vec::new();
    for k in keys {
        text.extend(wal_line(k));
    }
    assert_eq!(parse_wal(&text), Some(keys.to_vec()));
}

#[test]
fn crash_recovery_keeps_keys() {
    let mut f = fresh(1 << 12, 500);
    let record = f.checkpoint_record();
    let mut wal = Vec::new();
    let keys: Vec<u64> = (0..200u64).map(|i| i * 7919 + 13).collect();
    for &k in &keys {
        let step = f.set(k, 1000);
        assert!(step.checkpoint.is_none());
        wal.extend(step.wal_line);
    }
    let mut g = Filter::new(Some(Saved { checkpoint: record, wal }), 1, 1, SEED, 2000).unwrap();
    for &k in &keys {
        assert!(g.check(k));
    }
}

#[test]
fn interval_checkpoint_then_empty_log() {
    let mut f = fresh(256, 20);
    let step = f.set(5, CHECKPOINT_MS);
    assert!(step.checkpoint.is_none());
    let step = f.set(6, CHECKPOINT_MS + 1);
    let record = step.checkpoint.expect("checkpoint due");
    assert_eq!(record, f.checkpoint_record());
    let step = f.set(8, CHECKPOINT_MS + 2);
    assert!(step.checkpoint.is_none());
    let mut g = Filter::new(Some(Saved { checkpoint: record.clone(), wal: vec![] }), 1, 1, SEED, 0).unwrap();
    assert_eq!(g.checkpoint_record(), record);
    assert!(g.check(5));
    assert!(g.check(6));
}

#[test]
fn init_errors() {
    assert_eq!(Filter::new(None, 0, 10, SEED, 0).err(), Some(InitError::InvalidSize));
    assert_eq!(Filter::new(None, 10, 0, SEED, 0).err(), Some(InitError::InvalidSize));
    let bad = Saved { checkpoint: vec![1, 2, 3], wal: vec![] };
    assert_eq!(Filter::new(Some(bad), 10, 10, SEED, 0).err(), Some(InitError::Checkpoint(CheckpointError::Truncated)));
    let record = fresh(8, 4).checkpoint_record();
    let bad_wal = Saved { checkpoint: record, wal: b"12\nx\n".to_vec() };
    assert_eq!(Filter::new(Some(bad_wal), 10, 10, SEED, 0).err(), Some(InitError::WalLine));
}

#[test]
fn example_scenario_with_restart() {
    let mut f = Filter::new(None, 1 << 20, 10000, SEED, 0).unwrap();
    let record = f.checkpoint_record();
    let mut wal = Vec::new();
    wal.extend(f.set(42, 1).wal_line);
    wal.extend(f.set(7, 2).wal_line);
    assert!(f.check(42));
    assert!(f.check(7));
    assert!(!f.check(99));
    let mut g = Filter::new(Some(Saved { checkpoint: record, wal }), 1 << 20, 10000, SEED, 3).unwrap();
    assert!(g.check(42));
    assert!(g.check(7));
    assert!(!g.check(99));
}

#[test]
fn seed_gives_sip_keys() {
    let mut seed = [0u8; 32];
    seed[0] = 1;
    seed[8] = 2;
    seed[16] = 3;
    seed[31] = 4;
    let f = Filter::new(None, 16, 4, seed, 0).unwrap();
    let snap = decode_checkpoint(&f.checkpoint_record()).unwrap();
    assert_eq!(snap.sip_keys, ((1, 2), (3, 4 << 56)));
    assert_eq!(snap.bitmap, vec![0u8; 16]);
    assert!(snap.k_num >= 1);
}

#[test]
fn same_seed_same_state() {
    let mut a = fresh(128, 50);
    let mut b = fresh(128, 50);
    for k in [11u64, 22, 33] {
        a.set(k, 0);
        b.set(k, 0);
    }
    assert_eq!(a.checkpoint_record(), b.checkpoint_record());
}

#[test]
fn setting_twice_changes_nothing() {
    let mut a = fresh(128, 50);
    let mut b = fresh(128, 50);
    a.set(99, 0);
    b.set(99, 0);
    b.set(99, 0);
    assert_eq!(a.checkpoint_record(), b.checkpoint_record());
}

#[test]
fn set_order_does_not_matter() {
    let mut a = fresh(128, 50);
    let mut b = fresh(128, 50);
    a.set(1, 0);
    a.set(2, 0);
    b.set(2, 0);
    b.set(1, 0);
    assert_eq!(a.checkpoint_record(), b.checkpoint_record());
}

#[test]
fn set_clears_no_bit() {
    let mut f = fresh(64, 20);
    let mut prev = decode_checkpoint(&f.checkpoint_record()).unwrap().bitmap;
    for k in 0..40u64 {
        f.set(k, 0);
        let now = decode_checkpoint(&f.checkpoint_record()).unwrap().bitmap;
        for (x, y) in prev.iter().zip(now.iter()) {
            assert_eq!(x & y, *x);
        }
        prev = now;
    }
}

#[test]
fn recovery_restores_exact_state() {
    let mut f = fresh(256, 100);
    let record = f.checkpoint_record();
    let mut wal = Vec::new();
    for k in [5u64, 500, 50_000] {
        wal.extend(f.set(k, 10).wal_line);
    }
    let g = Filter::new(Some(Saved { checkpoint: record.clone(), wal: wal.clone() }), 1, 1, SEED, 0).unwrap();
    let h = Filter::new(Some(Saved { checkpoint: record, wal }), 9, 9, [0u8; 32], 0).unwrap();
    assert_eq!(g.checkpoint_record(), f.checkpoint_record());
    assert_eq!(h.checkpoint_record(), f.checkpoint_record());
}
