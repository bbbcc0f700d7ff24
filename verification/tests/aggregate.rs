use lfc::{aggregate, aggregate_family, canonicalize, parse_block, parse_nets, Block, Family};

fn nets(texts: &[&str]) -> Vec<Block> {
    texts.iter().map(|t| parse_block(t).unwrap()).collect()
}

fn texts(blocks: &Vec<Block>) -> Vec<String> {
    blocks.iter().map(|b| b.to_text()).collect()
}

fn covers(blocks: &Vec<Block>, family: Family, address: u128) -> bool {
    blocks.iter().any(|b| {
        let i = b.to_interval();
        b.family() == family && i.start() <= address && address <= i.end()
    })
}

fn by_ipnet(list: &[&str]) -> Vec<String> {
    let parsed: Vec<ipnet::IpNet> = list.iter().map(|t| t.parse().unwrap()).collect();
    ipnet::IpNet::aggregate(&parsed).iter().map(|n| n.to_string()).collect()
}

const MIXED: [&str; 14] = [
    "30.0.33.0/24",
    "2001:db8:8000::/33",
    "30.0.34.0/24",
    "10.0.7.0/24",
    "10.0.8.0/24",
    "fe80::/10",
    "10.0.9.0/24",
    "20.0.14.0/23",
    "20.0.16.0/23",
    "2001:db8::/33",
    "20.0.18.0/23",
    "20.0.20.0/23",
    "30.0.32.0/20",
    "10.0.8.0/24",
];

#[test]
fn aggregate_joins_two_halves() {
    let out = aggregate(&nets(&["192.168.0.0/24", "192.168.1.0/24"]));
    assert_eq!(texts(&out), vec!["192.168.0.0/23"]);
}

#[test]
fn aggregate_absorbs_contained_block() {
    let out = aggregate(&nets(&["10.0.0.0/16", "10.0.1.0/24"]));
    assert_eq!(texts(&out), vec!["10.0.0.0/16"]);
}

#[test]
fn aggregate_collapses_duplicates() {
    let out = aggregate(&nets(&["192.168.1.0/24", "192.168.1.0/24"]));
    assert_eq!(texts(&out), vec!["192.168.1.0/24"]);
}

#[test]
fn aggregate_joins_four_quarters() {
    let out = aggregate(&nets(&["10.0.0.0/24", "10.0.1.0/24", "10.0.2.0/24", "10.0.3.0/24"]));
    assert_eq!(texts(&out), vec!["10.0.0.0/22"]);
}

#[test]
fn aggregate_sorts_what_it_cannot_join() {
    let out = aggregate(&nets(&["192.168.1.0/24", "192.168.3.0/24", "10.0.0.0/8"]));
    assert_eq!(texts(&out), vec!["10.0.0.0/8", "192.168.1.0/24", "192.168.3.0/24"]);
}

#[test]
fn aggregate_of_nothing_is_nothing() {
    assert_eq!(aggregate(&vec![]), vec![]);
}

#[test]
fn aggregate_puts_ipv4_before_ipv6() {
    let out = aggregate(&nets(&["fe80::/10", "10.0.0.0/8", "::/1", "9.0.0.0/8"]));
    assert_eq!(texts(&out), vec!["9.0.0.0/8", "10.0.0.0/8", "::/1", "fe80::/10"]);
}

#[test]
fn aggregate_never_joins_across_families() {
    // the same numbers in both families
    let input = vec![
        canonicalize(Family::V4, 0, 32).unwrap(),
        canonicalize(Family::V6, 1, 128).unwrap(),
    ];
    let out = aggregate(&input);
    assert_eq!(out, input);
}

#[test]
fn aggregate_leaves_adjacent_blocks_that_are_no_siblings() {
    let out = aggregate(&nets(&["10.0.1.0/24", "10.0.2.0/24"]));
    assert_eq!(texts(&out), vec!["10.0.1.0/24", "10.0.2.0/24"]);
}

#[test]
fn aggregate_joins_in_several_rounds() {
    let out = aggregate(&nets(&[
        "10.0.0.0/26",
        "10.0.0.64/26",
        "10.0.0.128/25",
        "10.0.1.0/24",
        "10.0.2.0/23",
    ]));
    assert_eq!(texts(&out), vec!["10.0.0.0/22"]);
}

#[test]
fn aggregate_whole_space() {
    let out = aggregate(&nets(&["0.0.0.0/1", "128.0.0.0/1", "10.0.0.0/8", "::/1", "8000::/1"]));
    assert_eq!(texts(&out), vec!["0.0.0.0/0", "::/0"]);
}

#[test]
fn aggregate_at_the_top_of_the_space() {
    let out = aggregate(&nets(&["255.255.255.255/32", "255.255.255.254/32", "255.255.255.252/31"]));
    assert_eq!(texts(&out), vec!["255.255.255.252/30"]);
    let out = aggregate(&nets(&[
        "ffff:ffff:ffff:ffff:ffff:ffff:ffff:ffff/128",
        "ffff:ffff:ffff:ffff:ffff:ffff:ffff:fffe/128",
    ]));
    assert_eq!(texts(&out), vec!["ffff:ffff:ffff:ffff:ffff:ffff:ffff:fffe/127"]);
}

#[test]
fn aggregate_mixed_list() {
    let out = aggregate(&nets(&MIXED));
    assert_eq!(
        texts(&out),
        vec![
            "10.0.7.0/24",
            "10.0.8.0/23",
            "20.0.14.0/23",
            "20.0.16.0/22",
            "20.0.20.0/23",
            "30.0.32.0/20",
            "2001:db8::/32",
            "fe80::/10",
        ]
    );
}

#[test]
fn aggregate_family_takes_one_family_only() {
    let input = nets(&MIXED);
    assert_eq!(
        texts(&aggregate_family(&input, Family::V6)),
        vec!["2001:db8::/32", "fe80::/10"]
    );
    assert_eq!(aggregate_family(&input, Family::V4).len(), 6);
    assert_eq!(aggregate_family(&nets(&["10.0.0.0/8"]), Family::V6), vec![]);
}

#[test]
fn aggregate_agrees_with_ipnet() {
    let lists: [&[&str]; 6] = [
        &MIXED,
        &["192.168.0.0/24", "192.168.1.0/24"],
        &["10.0.0.0/24", "10.0.1.0/24", "10.0.2.0/24", "fd00::/18", "fd00:4000::/18", "fd00:8000::/18"],
        &["0.0.0.0/0", "10.0.0.0/8", "::/0"],
        &["1.2.3.4/32", "1.2.3.5/32", "1.2.3.6/32", "1.2.3.7/32", "1.2.3.8/32"],
        &[],
    ];
    for list in lists {
        assert_eq!(texts(&aggregate(&nets(list))), by_ipnet(list));
    }
}

#[test]
fn aggregate_covers_the_same_addresses() {
    let input = nets(&MIXED);
    let out = aggregate(&input);
    let probes_v4: [u128; 12] = [
        0x0a00_06ff, 0x0a00_0700, 0x0a00_09ff, 0x0a00_0a00, 0x1400_0dff, 0x1400_0e00,
        0x1400_15ff, 0x1400_1600, 0x1e00_2000, 0x1e00_2fff, 0x1e00_3000, 0,
    ];
    for a in probes_v4 {
        assert_eq!(covers(&out, Family::V4, a), covers(&input, Family::V4, a));
        assert_eq!(covers(&out, Family::V6, a), covers(&input, Family::V6, a));
    }
    let base: u128 = 0x2001_0db8 << 96;
    for a in [base - 1, base, base + (1 << 95), base + (1 << 96) - 1, base + (1 << 96)] {
        assert_eq!(covers(&out, Family::V6, a), covers(&input, Family::V6, a));
        assert!(!covers(&out, Family::V4, a));
    }
}

#[test]
fn aggregate_results_are_disjoint_and_ascending() {
    let out = aggregate(&nets(&MIXED));
    for w in out.windows(2) {
        if w[0].family() == w[1].family() {
            assert!(w[0].to_interval().end() < w[1].to_interval().start());
        } else {
            assert_eq!((w[0].family(), w[1].family()), (Family::V4, Family::V6));
        }
    }
}

#[test]
fn aggregate_results_are_apart_when_every_range_is_a_block() {
    let out = aggregate(&nets(&["10.0.0.0/24", "10.0.1.0/24", "10.0.4.0/24", "10.0.2.0/24", "10.0.3.0/24"]));
    assert_eq!(texts(&out), vec!["10.0.0.0/22", "10.0.4.0/24"]);
    let out = aggregate(&nets(&["10.0.0.0/24", "10.0.1.0/24", "10.0.3.0/24"]));
    for w in out.windows(2) {
        assert!(w[0].to_interval().end() + 1 < w[1].to_interval().start());
    }
}

#[test]
fn aggregate_is_idempotent() {
    let once = aggregate(&nets(&MIXED));
    let twice = aggregate(&once);
    assert_eq!(twice, once);
}

#[test]
fn aggregate_ignores_order_and_repetition() {
    let input = nets(&MIXED);
    let mut reversed = input.clone();
    reversed.reverse();
    let mut doubled = input.clone();
    doubled.extend(input.iter().copied());
    assert_eq!(aggregate(&reversed), aggregate(&input));
    assert_eq!(aggregate(&doubled), aggregate(&input));
}

#[test]
fn aggregate_results_are_aligned() {
    for b in aggregate(&nets(&MIXED)) {
        let i = b.to_interval();
        let size_less_one = i.end() - i.start();
        assert_eq!(b.address() & size_less_one, 0);
        assert_eq!(i.start(), b.address());
    }
}

#[test]
fn aggregate_is_not_longer_than_other_covers() {
    let input = nets(&["10.0.0.0/24", "10.0.1.0/24", "10.0.2.0/24", "10.0.3.0/24", "10.0.4.0/24"]);
    let out = aggregate(&input);
    assert_eq!(out.len(), 2);
    // other lists of blocks that cover the same addresses
    let others = [
        nets(&["10.0.0.0/23", "10.0.2.0/23", "10.0.4.0/24"]),
        nets(&["10.0.0.0/22", "10.0.4.0/25", "10.0.4.128/25"]),
        input.clone(),
    ];
    for other in others {
        assert_eq!(aggregate(&other), out);
        assert!(out.len() <= other.len());
    }
}

#[test]
fn aggregate_of_parsed_text() {
    let input = parse_nets("192.168.0.0/24\n192.168.1.0/24\n10.0.0.0/16\n10.0.1.0/24\n").unwrap();
    assert_eq!(texts(&aggregate(&input)), vec!["10.0.0.0/16", "192.168.0.0/23"]);
}

#[test]
fn aggregate_many_single_addresses() {
    let mut input = Vec::new();
    for a in (0..4096u128).rev() {
        input.push(canonicalize(Family::V4, 0x0a00_0000 + a, 32).unwrap());
    }
    let out = aggregate(&input);
    assert_eq!(texts(&out), vec!["10.0.0.0/20"]);
}
