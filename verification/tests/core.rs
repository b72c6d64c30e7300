use vector_engine::distance::{cosine_similarity, dot_product_u8_scalar, euclidean_distance};
use vector_engine::hnsw::HNSW;
use vector_engine::math::isqrt;
use vector_engine::quant::Quantizer;

fn fx(v: &[f32]) -> Vec<i64> {
    v.iter().map(|&x| (x as f64 * 65536.0).round() as i64).collect()
}

#[test]
fn test_hnsw_basic() {
    let mut index = HNSW::new(4, 10, 5, 10);

    index.insert(fx(&[1.0, 1.0, 1.0])); // ID 0
    index.insert(fx(&[2.0, 2.0, 2.0])); // ID 1
    index.insert(fx(&[10.0, 10.0, 10.0])); // ID 2

    let query = fx(&[2.1, 2.1, 2.1]);
    let results = index.search(&query, 1);

    assert_eq!(results.len(), 1);
    assert_eq!(results[0].0, 1);
    println!("Nearest neighbor: ID {}, Distance {}", results[0].0, results[0].1);
}

#[test]
fn test_hnsw_larger() {
    let mut index = HNSW::new(4, 20, 10, 20);

    for _ in 0..100 {
        let vec: Vec<i64> = (0..10).map(|_| fx(&[rand::random::<f32>()])[0]).collect();
        index.insert(vec);
    }

    let query: Vec<i64> = (0..10).map(|_| fx(&[rand::random::<f32>()])[0]).collect();
    let results = index.search(&query, 5);

    assert_eq!(results.len(), 5);
    for i in 0..results.len() - 1 {
        assert!(results[i].1 <= results[i + 1].1);
    }
}

#[test]
fn test_euclidean_distance_exact() {
    let a: Vec<i64> = vec![0, 0];
    let b: Vec<i64> = vec![3, 4];
    assert_eq!(euclidean_distance(&a, &b), 25u128);
    let c: Vec<i64> = vec![-3, 4];
    assert_eq!(euclidean_distance(&a, &c), 25u128);
}

#[test]
fn test_dot_product_u8_scalar() {
    let n = 256usize;
    let v: Vec<u8> = (0..n).map(|i| (i % 255) as u8).collect();
    let q: Vec<i8> = (0..n).map(|_| 1i8).collect();

    let expected_dot: i64 = v.iter().map(|&x| x as i64).sum();
    let res = dot_product_u8_scalar(&q, &v);
    assert_eq!(res, -expected_dot);

    let v_safe = vec![140u8; 256];
    let q_safe = vec![10i8; 256];
    let expected_safe: i64 = 256 * (10 * 140);
    assert_eq!(dot_product_u8_scalar(&q_safe, &v_safe), -expected_safe);
}

#[test]
fn test_isqrt_exact() {
    assert_eq!(isqrt(0), 0);
    assert_eq!(isqrt(1), 1);
    assert_eq!(isqrt(10), 3);
    assert_eq!(isqrt(16), 4);
    assert_eq!(isqrt(24), 4);
    assert_eq!(isqrt(25), 5);
}

#[test]
fn test_normalize_unit_axis() {
    // [1, 0, 0] is already unit; its normalized form is the full scale on
    // the first axis, and quantization maps it to the formula's endpoints.
    let v = fx(&[1.0, 0.0, 0.0]);
    let w = Quantizer::l2_normalize(&v);
    assert_eq!(w, vec![1 << 30, 0, 0]);

    let q = Quantizer::quantize_u8(&w);
    assert_eq!(q, vec![255u8, 128, 128]);

    let qq = Quantizer::quantize_query(&v);
    assert_eq!(qq, vec![127i8, 0, 0]);
}

#[test]
fn test_normalize_zero_stays_zero() {
    let v: Vec<i64> = vec![0, 0, 0, 0];
    let w = Quantizer::l2_normalize(&v);
    assert_eq!(w, vec![0, 0, 0, 0]);
}

#[test]
fn test_quantize_deterministic() {
    // Quantization has no hidden state: the same normalized vector always
    // gives the same bytes.
    let v = fx(&[0.3, -0.7, 0.648]);
    let w1 = Quantizer::l2_normalize(&v);
    let w2 = Quantizer::l2_normalize(&v);
    assert_eq!(w1, w2);
    assert_eq!(Quantizer::quantize_u8(&w1), Quantizer::quantize_u8(&w2));
    assert_eq!(Quantizer::quantize_query(&v), Quantizer::quantize_query(&v));
}

#[test]
fn test_degree_caps_after_inserts() {
    // After any insert, every node's neighbor list stays within its
    // layer's degree cap.
    let m = 4usize;
    let m0 = 8usize;
    let mut index = HNSW::new(5, 12, m, m0);
    for i in 0..60 {
        let vec: Vec<i64> = (0..4).map(|c| ((i * 37 + c * 13) % 100) as i64 * 65536).collect();
        index.insert(vec);
        for node in &index.nodes {
            for (level, conns) in node.connections.iter().enumerate() {
                let cap = if level == 0 { m0 } else { m };
                assert!(conns.len() <= cap);
                for &nb in conns {
                    assert!(nb < index.nodes.len());
                    assert!(nb != node.id);
                }
            }
        }
        // entry-point dominance
        let e = index.entry_point.unwrap();
        for node in &index.nodes {
            assert!(node.layer_max <= index.nodes[e].layer_max);
        }
    }
}

#[test]
fn test_cosine_similarity_exact() {
    // Orthogonal vectors have cosine zero; parallel ones the full scale.
    let e1: Vec<i64> = vec![65536, 0];
    let e2: Vec<i64> = vec![0, 65536];
    assert_eq!(cosine_similarity(&e1, &e2), 0);
    assert_eq!(cosine_similarity(&e1, &e1), 1 << 30);

    // cos([3,4],[4,3]) = 24/25, rounded at scale 2^30.
    let a: Vec<i64> = vec![3, 4];
    let b: Vec<i64> = vec![4, 3];
    let expected = (24i128 * (1 << 30) + 12) / 25;
    assert_eq!(cosine_similarity(&a, &b), expected);
}
