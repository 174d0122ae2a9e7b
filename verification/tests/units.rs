use rand::rngs::StdRng;
use rand::{RngCore, SeedableRng};

use raidpir::bits::BitString;
use raidpir::client::RaidPirClient;
use raidpir::server::{RaidPirServer, QUEUE_SIZE};
use raidpir::types::RaidPirData;
use raidpir::util::{rand_bitvec, xor_into_slice};

#[test]
fn test_expand_vector() {
    // The documented 5-bit prefix for seed 1234.
    let bv = rand_bitvec(1234, 5);
    assert_eq!(bv.len(), 5);
    let bits: Vec<bool> = (0..5).map(|i| bv.get(i)).collect();
    assert_eq!(bits, vec![false, true, false, false, true]);
}

#[test]
fn test_expand_reproducible() {
    let a = rand_bitvec(987654321, 77);
    let b = rand_bitvec(987654321, 77);
    for i in 0..77 {
        assert_eq!(a.get(i), b.get(i));
    }
}

#[test]
fn test_xor_into_slice() {
    let mut a: Vec<u8> = vec![0x0f, 0xf0, 0xaa, 0x55];
    let b: Vec<u8> = vec![0xff, 0xff, 0x00];
    xor_into_slice(&mut a, &b);
    assert_eq!(a, vec![0xf0, 0x0f, 0xaa, 0x55]);
}

#[test]
fn test_query_shape() {
    let client = RaidPirClient::new(12, 4, 3);
    let queries = client.query(3, &vec![0, 12, 4, 8]);
    assert_eq!(queries.len(), 4);
    // 12 blocks pad to 32, so each server covers 8 blocks.
    assert_eq!(queries[0].len(), 8);
}

#[test]
fn test_query_deterministic() {
    let client = RaidPirClient::new(256, 4, 3);
    let seeds: Vec<u64> = vec![7, 11, 13, 17];
    let q1 = client.query(42, &seeds);
    let q2 = client.query(42, &seeds);
    for c in 0..4 {
        assert_eq!(q1[c].len(), q2[c].len());
        for x in 0..q1[c].len() {
            assert_eq!(q1[c].get(x), q2[c].get(x));
        }
    }
}

#[test]
fn test_preprocess_saturates() {
    let db: Vec<u32> = (0..256).collect();
    let mut server: RaidPirServer<u32> = RaidPirServer::new(db, 0, 4, 2, false);
    server.preprocess();
    assert!(server.queue.len() >= QUEUE_SIZE);
    server.preprocess();
    assert!(server.queue.len() >= QUEUE_SIZE);
}

#[test]
fn test_seed_moves() {
    let db: Vec<u32> = (0..256).collect();
    let mut server: RaidPirServer<u32> = RaidPirServer::new(db, 0, 4, 2, false);
    let s = server.seed();
    assert!(server.queue_used.iter().any(|e| e.0 == s));
    // 256 blocks over 4 servers: 64 bits per query.
    let query = BitString::zeros(64);
    let _ = server.response(s, &query);
    assert!(!server.queue_used.iter().any(|e| e.0 == s));
}

#[test]
fn test_russians_parity() {
    let mut prng = StdRng::from_entropy();
    let mut db: Vec<u32> = Vec::with_capacity(1024);
    for _i in 0..1024 {
        db.push(prng.next_u32());
    }

    let mut with_table: RaidPirServer<u32> = RaidPirServer::new(db.clone(), 0, 2, 2, true);
    let mut without: RaidPirServer<u32> = RaidPirServer::new(db.clone(), 0, 2, 2, false);

    let s = with_table.seed();
    // The partial answer depends only on the database and the seed, so the
    // plain server can adopt the vended entry.
    let entry = *with_table
        .queue_used
        .iter()
        .find(|e| e.0 == s)
        .expect("vended seed is live");
    without.queue_used.push(entry);

    let client = RaidPirClient::new(db.len(), 2, 2);
    let queries = client.query(7, &vec![s, s]);

    let r1 = with_table.response(s, &queries[0]);
    let r2 = without.response(s, &queries[0]);
    assert_eq!(r1, r2);
}

#[test]
fn test_combine_zero_u32() {
    let client = RaidPirClient::new(256, 4, 2);
    let zeros: Vec<u32> = vec![0, 0, 0, 0];
    assert_eq!(client.combine(zeros), 0);
}

#[test]
fn test_combine_zero_bytes() {
    let client = RaidPirClient::new(256, 4, 2);
    let zeros: Vec<RaidPirData> = vec![
        RaidPirData::new(Vec::new()),
        RaidPirData::new(Vec::new()),
        RaidPirData::new(Vec::new()),
        RaidPirData::new(Vec::new()),
    ];
    let combined = client.combine(zeros);
    assert_eq!(combined.as_slice(), b"");
}

#[test]
fn test_data_widening() {
    // Folding a sized element into the empty zero element keeps the size.
    let client = RaidPirClient::new(8, 2, 2);
    let responses = vec![RaidPirData::new(Vec::new()), RaidPirData::new(b"wide".to_vec())];
    let combined = client.combine(responses);
    assert_eq!(combined.as_slice(), b"wide");
}
