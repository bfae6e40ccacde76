use slopgraph::tsgo::{decode_base64, node_by_index, node_handle, parse_handle, parse_nodes, tightest_containing, utf16_offset, Signature, TsNode, KIND_CALL_EXPRESSION};

#[test]
fn handles_round_trip() {
    let h = node_handle(12, KIND_CALL_EXPRESSION, "/p/src/a.b.ts");
    assert_eq!(h, "12.214./p/src/a.b.ts");
    assert_eq!(parse_handle(&h), Some((12, 214, "/p/src/a.b.ts".to_string())));
    assert_eq!(parse_handle("1.2"), None);
    assert_eq!(parse_handle("x.2.p"), None);
    assert_eq!(parse_handle("+7.0.p"), Some((7, 0, "p".to_string())));
    assert_eq!(parse_handle("4294967296.0.p"), None);
}

#[test]
fn base64_decodes() {
    assert_eq!(decode_base64("aGVsbG8=").unwrap(), b"hello".to_vec());
    assert_eq!(decode_base64("aGVs bG8h").unwrap(), b"hello!".to_vec());
    assert_eq!(decode_base64("aGk").unwrap(), b"hi".to_vec());
    assert!(decode_base64("a").is_err());
    assert!(decode_base64("a$bc").is_err());
}

fn word(v: u32) -> [u8; 4] {
    v.to_le_bytes()
}

#[test]
fn node_table_parses() {
    let mut bytes = vec![0u8; 48];
    bytes[40..44].copy_from_slice(&word(48));
    // entry 0 (sentinel), entry 1, entry 2 (skipped kind), entry 3 (negative pos)
    let entries: [(u32, i32, i32); 4] = [(0, 0, 0), (214, 5, 20), (0xFFFF_FFFF, 0, 0), (7, -3, 9)];
    for (kind, pos, end) in entries {
        let mut e = vec![0u8; 28];
        e[0..4].copy_from_slice(&kind.to_le_bytes());
        e[4..8].copy_from_slice(&pos.to_le_bytes());
        e[8..12].copy_from_slice(&end.to_le_bytes());
        bytes.extend_from_slice(&e);
    }
    let nodes = parse_nodes(&bytes).unwrap();
    assert_eq!(nodes.len(), 2);
    assert_eq!((nodes[0].index, nodes[0].kind, nodes[0].pos, nodes[0].end), (1, 214, 5, 20));
    assert_eq!((nodes[1].index, nodes[1].kind, nodes[1].pos, nodes[1].end), (3, 7, 0, 9));
    assert!(parse_nodes(&[0u8; 10]).is_err());
    let mut bad = vec![0u8; 44];
    bad[40..44].copy_from_slice(&word(100));
    assert!(parse_nodes(&bad).is_err());
}

#[test]
fn locating_nodes() {
    let nodes = vec![
        TsNode { index: 1, kind: 214, pos: 0, end: 50 },
        TsNode { index: 2, kind: 214, pos: 10, end: 20 },
        TsNode { index: 3, kind: 9, pos: 12, end: 14 },
        TsNode { index: 4, kind: 214, pos: 30, end: 40 },
    ];
    assert_eq!(tightest_containing(&nodes, &[214], 12).map(|n| n.index), Some(2));
    assert_eq!(tightest_containing(&nodes, &[214], 45).map(|n| n.index), Some(1));
    assert_eq!(tightest_containing(&nodes, &[214], 50).map(|n| n.index), None);
    assert_eq!(node_by_index(&nodes, 3).map(|n| n.kind), Some(9));
    assert!(node_by_index(&nodes, 9).is_none());
}

#[test]
fn utf16_offsets() {
    let s = "aé😀b";
    assert_eq!(utf16_offset(s, 0), 0);
    assert_eq!(utf16_offset(s, 1), 1);
    assert_eq!(utf16_offset(s, 2), 1);
    assert_eq!(utf16_offset(s, 3), 2);
    assert_eq!(utf16_offset(s, 7), 4);
    assert_eq!(utf16_offset(s, 100), 5);
}

#[test]
fn signatures() {
    assert!(Signature { declaration: Some("1.2.p".to_string()) }.is_resolved());
    assert!(!Signature { declaration: Some(String::new()) }.is_resolved());
    assert!(!Signature { declaration: None }.is_resolved());
}

#[test]
fn platform_packages_by_os_and_arch() {
    assert_eq!(slopgraph::tsgo::platform_package("macos", "aarch64"), Some("typescript-darwin-arm64".to_string()));
    assert_eq!(slopgraph::tsgo::platform_package("linux", "x86_64"), Some("typescript-linux-x64".to_string()));
    assert_eq!(slopgraph::tsgo::platform_package("windows", "aarch64"), Some("typescript-win32-arm64".to_string()));
    assert_eq!(slopgraph::tsgo::platform_package("freebsd", "x86_64"), None);
    assert_eq!(slopgraph::tsgo::platform_package("linux", "riscv64"), None);
}
