use rayon::iter::{IntoParallelRefIterator, ParallelIterator};
use vector_engine::hnsw::HNSW;
use vector_engine::mmap::{MmapIndex, StorageError};

fn fx(v: &[f32]) -> Vec<i64> {
    v.iter().map(|&x| (x as f64 * 65536.0).round() as i64).collect()
}

fn small_index() -> Vec<u8> {
    let mut index = HNSW::new(4, 10, 5, 10);
    index.insert(fx(&[1.0, 1.0, 1.0])); // ID 0
    index.insert(fx(&[2.0, 2.0, 2.0])); // ID 1
    index.insert(fx(&[10.0, 10.0, 10.0])); // ID 2
    index.save().expect("non-empty index serializes")
}

// The exact rerank distance the loaded searcher uses, recomputed by hand.
fn rerank(query: &[i64], stored: &[i32]) -> u128 {
    let mut acc: u128 = 0;
    for (q, w) in query.iter().zip(stored.iter()) {
        let d = q * 16384 - (*w as i64);
        acc += (d as i128 * d as i128) as u128;
    }
    acc
}

#[test]
fn test_save_load_search() {
    let bytes = small_index();
    let mmap_index = MmapIndex::load(bytes).expect("valid image loads");

    let header = mmap_index.header();
    assert_eq!(header.num_elements, 3);
    assert_eq!(header.dimension, 3);
    assert_eq!(header.magic, *b"HNSWANN1");

    // The full-precision arena stores the normalized form of each vector.
    let vec1 = mmap_index.get_vector(1);
    let expected = vector_engine::quant::Quantizer::l2_normalize(&fx(&[2.0, 2.0, 2.0]));
    assert_eq!(vec1, expected);

    // The searcher returns the candidate with the least exact rerank
    // distance, ties to the lower id; check it against a hand computation
    // over every stored vector.
    let query = fx(&[2.1, 2.1, 2.1]);
    let results = mmap_index.search(&query, 1, 10);
    assert_eq!(results.len(), 1);
    let mut best: Option<(u128, usize)> = None;
    for id in 0..3usize {
        let d = rerank(&query, &mmap_index.get_vector(id));
        if best.is_none() || (d, id) < best.unwrap() {
            best = Some((d, id));
        }
    }
    let (bd, bid) = best.unwrap();
    assert_eq!(results[0].0, bid);
    assert_eq!(results[0].1, bd);
    println!("Mmap Search Result: ID {}, Dist {}", results[0].0, results[0].1);
}

#[test]
fn test_orthogonal_basis_two_stage() {
    let mut index = HNSW::new(4, 10, 5, 10);
    index.insert(fx(&[1.0, 0.0, 0.0])); // ID 0
    index.insert(fx(&[0.0, 1.0, 0.0])); // ID 1
    index.insert(fx(&[0.0, 0.0, 1.0])); // ID 2
    let bytes = index.save().unwrap();
    let loaded = MmapIndex::load(bytes).unwrap();
    let results = loaded.search(&fx(&[0.1, 0.9, 0.0]), 1, 10);
    assert_eq!(results.len(), 1);
    assert_eq!(results[0].0, 1);
}

#[test]
fn test_persistence_two_loads_agree() {
    let mut index = HNSW::new(8, 30, 8, 16);
    for i in 0..100 {
        let vec: Vec<i64> = (0..10)
            .map(|c| {
                let x = ((i * 31 + c * 17) % 97) as f32 / 97.0;
                (x as f64 * 65536.0).round() as i64
            })
            .collect();
        index.insert(vec);
    }
    let bytes = index.save().unwrap();
    let a = MmapIndex::load(bytes.clone()).unwrap();
    let b = MmapIndex::load(bytes).unwrap();
    let query: Vec<i64> = (0..10).map(|c| (c as i64) * 6000).collect();
    let ra = a.search(&query, 5, 40);
    let rb = b.search(&query, 5, 40);
    assert_eq!(ra.len(), 5);
    assert_eq!(ra, rb);
    for i in 0..ra.len() - 1 {
        assert!((ra[i].1, ra[i].0) < (ra[i + 1].1, ra[i + 1].0));
    }
}

#[test]
fn test_crc_corruption_single_byte() {
    let mut bytes = small_index();
    let vectors_offset = u64::from_le_bytes(bytes[56..64].try_into().unwrap()) as usize;
    let target = vectors_offset + 17;
    assert!(target < bytes.len());
    bytes[target] = bytes[target].wrapping_add(1);
    let r = MmapIndex::load(bytes);
    assert!(matches!(r, Err(StorageError::ChecksumMismatch)));
}

#[test]
fn test_crc_detects_every_payload_byte_flip() {
    let bytes = small_index();
    for pos in 256..bytes.len() {
        let mut corrupted = bytes.clone();
        corrupted[pos] = corrupted[pos].wrapping_add(1);
        let r = MmapIndex::load(corrupted);
        assert!(
            matches!(r, Err(StorageError::ChecksumMismatch)),
            "flip at {} went undetected",
            pos
        );
    }
}

#[test]
fn test_offset_validation() {
    // A header whose full-precision arena offset lies at or past the end
    // of the file must be rejected as too small.
    let mut bytes = small_index();
    let len = bytes.len() as u64;
    bytes[56..64].copy_from_slice(&len.to_le_bytes());
    let r = MmapIndex::load(bytes);
    assert!(matches!(r, Err(StorageError::FileTooSmall)));
}

#[test]
fn test_offset_inconsistent() {
    // An arena offset inside the header region is mis-ordered.
    let mut bytes = small_index();
    bytes[56..64].copy_from_slice(&16u64.to_le_bytes());
    let r = MmapIndex::load(bytes);
    assert!(matches!(r, Err(StorageError::OffsetInconsistent)));
}

#[test]
fn test_invalid_magic() {
    let mut bytes = small_index();
    bytes[0] = b'X';
    let r = MmapIndex::load(bytes);
    assert!(matches!(r, Err(StorageError::InvalidMagic)));
}

#[test]
fn test_file_too_small() {
    let r = MmapIndex::load(vec![0u8; 10]);
    assert!(matches!(r, Err(StorageError::FileTooSmall)));
}

#[test]
fn test_empty_graph_save_refused() {
    let index = HNSW::new(4, 10, 5, 10);
    assert!(index.save().is_none());
}

#[test]
fn test_health_check() {
    let bytes = small_index();
    let loaded = MmapIndex::load(bytes).unwrap();
    let status = vector_engine::diagnostics::Diagnostics::check_health(&loaded);
    assert!(matches!(status, vector_engine::diagnostics::HealthStatus::Healthy));
}

#[test]
fn test_concurrent_queries_deterministic() {
    let mut index = HNSW::new(8, 30, 8, 16);
    for i in 0..80 {
        let vec: Vec<i64> = (0..8)
            .map(|c| (((i * 53 + c * 29) % 89) as i64) * 700)
            .collect();
        index.insert(vec);
    }
    let loaded = MmapIndex::load(index.save().unwrap()).unwrap();

    let queries: Vec<Vec<i64>> = (0..8 * 100)
        .map(|q| (0..8).map(|c| (((q * 13 + c * 7) % 89) as i64) * 700).collect())
        .collect();

    let parallel: Vec<Vec<(usize, u128)>> =
        queries.par_iter().map(|q| loaded.search(q, 5, 20)).collect();
    for (q, expected) in queries.iter().zip(parallel.iter()) {
        let serial = loaded.search(q, 5, 20);
        assert_eq!(&serial, expected);
        for i in 0..serial.len().saturating_sub(1) {
            assert!((serial[i].1, serial[i].0) < (serial[i + 1].1, serial[i + 1].0));
        }
    }
}

#[test]
fn test_recall_floor() {
    // A scaled-down recall check: uniform random vectors, loaded two-stage
    // search against exact brute force under the same metric.
    let n = 300usize;
    let dim = 16usize;
    let mut index = HNSW::new(8, 60, 16, 32);
    let mut data: Vec<Vec<i64>> = Vec::new();
    for _ in 0..n {
        let v: Vec<i64> = (0..dim)
            .map(|_| (rand::random::<f32>() as f64 * 65536.0).round() as i64)
            .collect();
        data.push(v.clone());
        index.insert(v);
    }
    let loaded = MmapIndex::load(index.save().unwrap()).unwrap();

    let k = 10usize;
    let trials = 20usize;
    let mut hit = 0usize;
    for _ in 0..trials {
        let q: Vec<i64> = (0..dim)
            .map(|_| (rand::random::<f32>() as f64 * 65536.0).round() as i64)
            .collect();
        let got = loaded.search(&q, k, 100);
        assert_eq!(got.len(), k);
        let mut exact: Vec<(u128, usize)> = (0..n)
            .map(|id| {
                let mut acc: u128 = 0;
                let stored = loaded.get_vector(id);
                for c in 0..dim {
                    let d = q[c] * 16384 - stored[c] as i64;
                    acc += (d as i128 * d as i128) as u128;
                }
                (acc, id)
            })
            .collect();
        exact.sort();
        for (_, id) in exact.iter().take(k) {
            if got.iter().any(|(gid, _)| gid == id) {
                hit += 1;
            }
        }
    }
    let recall = hit as f64 / (trials * k) as f64;
    assert!(recall >= 0.9, "recall {} below floor", recall);
}
