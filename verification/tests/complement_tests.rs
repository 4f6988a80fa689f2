use cidr_complement::cidr::Cidr;
use cidr_complement::complement::complement_cidr;

fn block_range(c: &Cidr) -> (u64, u64) {
    // the masked address range [start, end] that a block covers
    let base: u64 = ((c.addr[0] as u64) << 24)
        | ((c.addr[1] as u64) << 16)
        | ((c.addr[2] as u64) << 8)
        | (c.addr[3] as u64);
    let size: u64 = 1u64 << (32 - c.mask as u64);
    let start = base & !(size - 1);
    (start, start + size - 1)
}

#[test]
fn output_count_equals_prefix_length() {
    for mask in 0..=32u8 {
        let c = Cidr { addr: [10, 20, 30, 40], mask };
        assert_eq!(complement_cidr(c).len(), mask as usize);
    }
}

#[test]
fn zero_case_is_empty() {
    let c = Cidr::new("0.0.0.0/0").unwrap();
    assert_eq!(complement_cidr(c), vec![]);
}

#[test]
fn single_host_has_32_entries() {
    let c = Cidr::new("203.0.113.77/32").unwrap();
    let out = complement_cidr(c);
    assert_eq!(out.len(), 32);
    assert_eq!(out[31].mask, 32);
    // the last entry is the immediate sibling host
    assert_eq!(out[31].addr, [203, 0, 113, 76]);
}

#[test]
fn coverage_and_disjointness_sampled_block() {
    let c = Cidr::new("10.0.0.0/24").unwrap();
    let out = complement_cidr(c);
    let mut ranges: Vec<(u64, u64)> = out.iter().map(block_range).collect();
    let own = block_range(&c);
    // no output range intersects the input block
    for r in &ranges {
        assert!(r.1 < own.0 || r.0 > own.1);
    }
    // together with the block itself they partition the full space
    ranges.push(own);
    ranges.sort();
    let mut next: u64 = 0;
    for r in &ranges {
        assert_eq!(r.0, next);
        next = r.1 + 1;
    }
    assert_eq!(next, 1u64 << 32);
}

#[test]
fn concrete_example_192_168_1_0_24() {
    let c = Cidr::new("192.168.1.0/24").unwrap();
    let out = complement_cidr(c);
    assert_eq!(out.len(), 24);
    let rendered: Vec<String> = out.iter().map(|b| b.render()).collect();
    // first siblings along the path from the root
    assert_eq!(rendered[0], "0.0.0.0/1");
    assert_eq!(rendered[1], "128.0.0.0/2");
    assert_eq!(rendered[2], "224.0.0.0/3");
    // the last entry is the /24 sibling
    assert_eq!(rendered[23], "192.168.0.0/24");
    // the whole sequence follows the bit-flip algorithm
    let expected = [
        "0.0.0.0/1",
        "128.0.0.0/2",
        "224.0.0.0/3",
        "208.0.0.0/4",
        "200.0.0.0/5",
        "196.0.0.0/6",
        "194.0.0.0/7",
        "193.0.0.0/8",
        "192.0.0.0/9",
        "192.192.0.0/10",
        "192.128.0.0/11",
        "192.176.0.0/12",
        "192.160.0.0/13",
        "192.172.0.0/14",
        "192.170.0.0/15",
        "192.169.0.0/16",
        "192.168.128.0/17",
        "192.168.64.0/18",
        "192.168.32.0/19",
        "192.168.16.0/20",
        "192.168.8.0/21",
        "192.168.4.0/22",
        "192.168.2.0/23",
        "192.168.0.0/24",
    ];
    for (got, want) in rendered.iter().zip(expected.iter()) {
        assert_eq!(got, want);
    }
}

#[test]
fn host_bits_do_not_change_lower_depths() {
    // the algorithm works whether or not host bits are zero
    let masked = complement_cidr(Cidr::new("10.0.0.0/8").unwrap());
    let unmasked = complement_cidr(Cidr::new("10.9.8.7/8").unwrap());
    assert_eq!(masked, unmasked);
}
