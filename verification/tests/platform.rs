use vector_engine::hardware::CpuFeatures;
use vector_engine::runtime::{parse_usize, parse_value, RuntimeConfig, Topology};

#[test]
fn test_cpu_feature_tokens() {
    let text = b"flags\t\t: fpu vme fma avx avx2 sse4_2\nbogus avx512fx\n";
    let f = CpuFeatures::detect(text);
    assert!(f.avx2);
    assert!(f.fma);
    assert!(!f.avx512f); // "avx512fx" is not the token "avx512f"
    assert!(!f.neon);

    let arm = b"Features\t: fp asimd evtstrm aes\n";
    let g = CpuFeatures::detect(arm);
    assert!(g.neon);
    assert!(!g.avx2);
}

#[test]
fn test_parse_value() {
    let v = parse_value(b"processor\t: 12").unwrap();
    assert_eq!(v, b"12".to_vec());
    let w = parse_value(b"physical id : 0 ").unwrap();
    assert_eq!(w, b"0".to_vec());
    assert!(parse_value(b"no separator here").is_none());
}

#[test]
fn test_parse_usize() {
    assert_eq!(parse_usize(b"123"), Some(123));
    assert_eq!(parse_usize(b"0"), Some(0));
    assert_eq!(parse_usize(b""), None);
    assert_eq!(parse_usize(b"12a"), None);
}

#[test]
fn test_topology_detect_and_order() {
    let text = b"processor\t: 0\nphysical id\t: 0\ncore id\t\t: 0\n\n\
processor\t: 1\nphysical id\t: 0\ncore id\t\t: 0\n\n\
processor\t: 2\nphysical id\t: 0\ncore id\t\t: 1\n\n\
processor\t: 3\nphysical id\t: 0\ncore id\t\t: 1\n";
    let t = Topology::detect(text).expect("complete blocks parse");
    assert_eq!(t.cores.len(), 4);
    assert_eq!(t.cores[2].logical_id, 2);
    assert_eq!(t.cores[2].physical_id, 0);
    assert_eq!(t.cores[2].core_id, 1);

    // Distinct physical cores first, then their siblings.
    let order = t.get_optimized_order();
    assert_eq!(order, vec![0, 2, 1, 3]);

    let ids = RuntimeConfig::get_optimized_core_list(text).unwrap();
    assert_eq!(ids, vec![0, 2, 1, 3]);
}

#[test]
fn test_topology_detect_empty() {
    assert!(Topology::detect(b"nothing useful\n").is_none());
}
