use lfc::{parse_nets, Block, InvalidBlockError, ParseErrorKind};

fn read(input: &str) -> Vec<Block> {
    match parse_nets(input) {
        Ok(nets) => nets,
        Err(e) => panic!("Unable to parse {:?} as an IP network.", e.text),
    }
}

#[test]
fn test_parse_nets_single_network() {
    let input = "192.168.1.0/24";
    let result = read(input);
    assert_eq!(result.len(), 1);
    assert_eq!(result[0].to_text(), "192.168.1.0/24");
}

#[test]
fn test_parse_nets_multiple_networks() {
    let input = "192.168.1.0/24\n10.0.0.0/8\n172.16.0.0/12";
    let result = read(input);
    assert_eq!(result.len(), 3);
    assert_eq!(result[0].to_text(), "192.168.1.0/24");
    assert_eq!(result[1].to_text(), "10.0.0.0/8");
    assert_eq!(result[2].to_text(), "172.16.0.0/12");
}

#[test]
fn test_parse_nets_with_whitespace() {
    let input = "  192.168.1.0/24  \n  10.0.0.0/8  ";
    let result = read(input);
    assert_eq!(result.len(), 2);
    assert_eq!(result[0].to_text(), "192.168.1.0/24");
    assert_eq!(result[1].to_text(), "10.0.0.0/8");
}

#[test]
fn test_parse_nets_with_empty_lines() {
    let input = "192.168.1.0/24\n\n10.0.0.0/8\n\n\n172.16.0.0/12";
    let result = read(input);
    assert_eq!(result.len(), 3);
}

#[test]
fn test_parse_nets_ipv6() {
    let input = "2001:db8::/32\nfe80::/10";
    let result = read(input);
    assert_eq!(result.len(), 2);
    assert_eq!(result[0].to_text(), "2001:db8::/32");
    assert_eq!(result[1].to_text(), "fe80::/10");
}

#[test]
fn test_parse_nets_mixed_ipv4_ipv6() {
    let input = "192.168.1.0/24\n2001:db8::/32";
    let result = read(input);
    assert_eq!(result.len(), 2);
    assert_eq!(result[0].to_text(), "192.168.1.0/24");
    assert_eq!(result[1].to_text(), "2001:db8::/32");
}

#[test]
#[should_panic(expected = "Unable to parse")]
fn test_parse_nets_invalid_input() {
    let input = "not-an-ip-address";
    read(input);
}

#[test]
#[should_panic(expected = "Unable to parse")]
fn test_parse_nets_ip_without_cidr() {
    let input = "192.168.1.1";
    read(input);
}

#[test]
fn test_parse_nets_empty_input() {
    let input = "";
    let result = read(input);
    assert_eq!(result.len(), 0);
}

#[test]
fn parse_nets_reports_syntax_error_with_the_entry() {
    let e = parse_nets("10.0.0.0/8\n   not-an-ip-address \n").unwrap_err();
    assert_eq!(e.text, "not-an-ip-address");
    assert_eq!(e.kind, ParseErrorKind::Syntax);
}

#[test]
fn parse_nets_rejects_address_without_prefix() {
    let e = parse_nets("192.168.1.1").unwrap_err();
    assert_eq!(e.text, "192.168.1.1");
    assert_eq!(e.kind, ParseErrorKind::Syntax);
}

#[test]
fn parse_nets_rejects_host_bits() {
    let e = parse_nets("10.0.0.0/8\n192.168.1.1/24\n10.1.0.0/33").unwrap_err();
    assert_eq!(e.text, "192.168.1.1/24");
    assert_eq!(e.kind, ParseErrorKind::Invalid(InvalidBlockError::HostBitsSet));
}

#[test]
fn parse_nets_reports_the_first_failure() {
    let e = parse_nets("10.0.0.0/8\nfirst\nsecond\n").unwrap_err();
    assert_eq!(e.text, "first");
}

#[test]
fn parse_nets_gives_nothing_when_a_later_line_fails() {
    assert!(parse_nets("10.0.0.0/8\n11.0.0.0/8\n12.0.0.1/8").is_err());
}

#[test]
fn parse_nets_accepts_carriage_returns_and_final_newline() {
    let result = read("10.0.0.0/8\r\n192.168.0.0/16\r\n");
    assert_eq!(result.len(), 2);
    assert_eq!(result[0].to_text(), "10.0.0.0/8");
    assert_eq!(result[1].to_text(), "192.168.0.0/16");
}

#[test]
fn parse_nets_trims_unicode_white_space() {
    let result = read("\u{a0}\u{2003}10.0.0.0/8\u{3000}\t\n\u{85}\n\u{2028}fe80::/10\u{205f}");
    assert_eq!(result.len(), 2);
    assert_eq!(result[0].to_text(), "10.0.0.0/8");
    assert_eq!(result[1].to_text(), "fe80::/10");
}

#[test]
fn parse_nets_does_not_trim_inside_an_entry() {
    let e = parse_nets("10.0.0.0 /8").unwrap_err();
    assert_eq!(e.text, "10.0.0.0 /8");
    assert_eq!(e.kind, ParseErrorKind::Syntax);
}

#[test]
fn parse_nets_skips_lines_of_white_space_only() {
    let result = read("   \n\t\t\n \r\n");
    assert_eq!(result.len(), 0);
}

#[test]
fn parse_nets_keeps_input_order() {
    let result = read("192.168.1.0/24\n10.0.0.0/8\n10.0.0.0/8");
    assert_eq!(result.len(), 3);
    assert_eq!(result[0].to_text(), "192.168.1.0/24");
    assert_eq!(result[1], result[2]);
}
