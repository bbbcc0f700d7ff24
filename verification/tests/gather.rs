use lfc::{gather, parse_block, Block};

fn net(text: &str) -> Block {
    parse_block(text).unwrap()
}

#[test]
fn test_gather_overlapping_networks() {
    let nets = vec![net("10.0.0.0/16"), net("10.0.1.0/24"), net("10.0.2.0/24")];
    let result = gather(&nets);
    assert_eq!(result.len(), 1);
    assert_eq!(result[0].to_text(), "10.0.0.0/16");
}

#[test]
fn test_gather_adjacent_networks() {
    let nets = vec![net("192.168.0.0/24"), net("192.168.1.0/24")];
    let result = gather(&nets);
    assert_eq!(result.len(), 1);
    assert_eq!(result[0].to_text(), "192.168.0.0/23");
}

#[test]
fn test_gather_four_adjacent_networks() {
    let nets = vec![
        net("10.0.0.0/24"),
        net("10.0.1.0/24"),
        net("10.0.2.0/24"),
        net("10.0.3.0/24"),
    ];
    let result = gather(&nets);
    assert_eq!(result.len(), 1);
    assert_eq!(result[0].to_text(), "10.0.0.0/22");
}

#[test]
fn test_gather_non_adjacent_networks() {
    let nets = vec![net("192.168.1.0/24"), net("192.168.3.0/24"), net("10.0.0.0/8")];
    let result = gather(&nets);
    assert_eq!(result.len(), 3);
    assert!(result.contains(&net("10.0.0.0/8")));
    assert!(result.contains(&net("192.168.1.0/24")));
    assert!(result.contains(&net("192.168.3.0/24")));
}

#[test]
fn test_gather_duplicate_networks() {
    let nets = vec![net("192.168.1.0/24"), net("192.168.1.0/24"), net("192.168.1.0/24")];
    let result = gather(&nets);
    assert_eq!(result.len(), 1);
    assert_eq!(result[0].to_text(), "192.168.1.0/24");
}

#[test]
fn test_gather_ipv6_adjacent() {
    let nets = vec![net("2001:db8::/33"), net("2001:db8:8000::/33")];
    let result = gather(&nets);
    assert_eq!(result.len(), 1);
    assert_eq!(result[0].to_text(), "2001:db8::/32");
}

#[test]
fn test_gather_ipv6_non_adjacent() {
    let nets = vec![net("2001:db8::/32"), net("2001:dba::/32")];
    let result = gather(&nets);
    assert_eq!(result.len(), 2);
}

#[test]
fn test_gather_mixed_ipv4_ipv6() {
    let nets = vec![
        net("192.168.0.0/24"),
        net("192.168.1.0/24"),
        net("2001:db8::/33"),
        net("2001:db8:8000::/33"),
    ];
    let result = gather(&nets);
    assert_eq!(result.len(), 2);
    assert!(result.contains(&net("192.168.0.0/23")));
    assert!(result.contains(&net("2001:db8::/32")));
}

#[test]
fn test_gather_empty() {
    let nets = vec![];
    let result = gather(&nets);
    assert_eq!(result.len(), 0);
}

#[test]
fn test_gather_single_network() {
    let nets = vec![net("10.0.0.0/8")];
    let result = gather(&nets);
    assert_eq!(result.len(), 1);
    assert_eq!(result[0].to_text(), "10.0.0.0/8");
}

#[test]
fn test_gather_complex_aggregation() {
    let nets = vec![
        net("192.168.0.0/25"),
        net("192.168.0.128/25"),
        net("192.168.1.0/25"),
        net("192.168.1.128/25"),
    ];
    let result = gather(&nets);
    assert_eq!(result.len(), 1);
    assert_eq!(result[0].to_text(), "192.168.0.0/23");
}

#[test]
fn test_gather_alignment_issues() {
    let nets = vec![
        net("30.0.33.0/24"),
        net("30.0.34.0/24"),
        net("10.0.7.0/24"),
        net("10.0.8.0/24"),
        net("10.0.9.0/24"),
        net("20.0.14.0/23"),
        net("20.0.16.0/23"),
        net("20.0.18.0/23"),
        net("20.0.20.0/23"),
        net("30.0.32.0/20"),
    ];
    let result = gather(&nets);
    assert_eq!(result.len(), 6);
    assert!(result.contains(&net("10.0.7.0/24")));
    assert!(result.contains(&net("10.0.8.0/23")));
    assert!(result.contains(&net("20.0.14.0/23")));
    assert!(result.contains(&net("20.0.16.0/22")));
    assert!(result.contains(&net("20.0.20.0/23")));
    assert!(result.contains(&net("30.0.32.0/20")));
}
