use netdec::{addr_from_octets, IpRange};

// ===== iteration tests =====

#[test]
fn iter_cidr_short() {
    let r: IpRange = "192.0.2.0/30".parse().unwrap();
    let mut it = r.iter();
    let mut got: Vec<u32> = Vec::new();
    while let Some(ip) = it.next() {
        got.push(ip);
    }
    assert_eq!(got.len(), 4);
    assert_eq!(got.first().unwrap(), &addr_from_octets(192, 0, 2, 0));
    assert_eq!(got.last().unwrap(), &addr_from_octets(192, 0, 2, 3));
}

#[test]
fn iter_hyphen_forward_and_rev() {
    let r: IpRange = "10.0.0.9-10.0.0.12".parse().unwrap();
    let mut it = r.iter();
    let mut fwd: Vec<u32> = Vec::new();
    while let Some(ip) = it.next() {
        fwd.push(ip);
    }
    assert_eq!(
        fwd,
        vec![
            addr_from_octets(10, 0, 0, 9),
            addr_from_octets(10, 0, 0, 10),
            addr_from_octets(10, 0, 0, 11),
            addr_from_octets(10, 0, 0, 12),
        ]
    );
    let mut back = r.iter();
    let mut rev: Vec<u32> = Vec::new();
    while let Some(ip) = back.next_back() {
        rev.push(ip);
    }
    assert_eq!(
        rev,
        vec![
            addr_from_octets(10, 0, 0, 12),
            addr_from_octets(10, 0, 0, 11),
            addr_from_octets(10, 0, 0, 10),
            addr_from_octets(10, 0, 0, 9),
        ]
    );
}

#[test]
fn iter_wildcard_long() {
    // big range, only check the ends
    let r: IpRange = "203.0.113.*".parse().unwrap();
    let mut it = r.iter();
    let mut first3: Vec<u32> = Vec::new();
    for _ in 0..3 {
        first3.push(it.next().unwrap());
    }
    assert_eq!(
        first3,
        vec![
            addr_from_octets(203, 0, 113, 0),
            addr_from_octets(203, 0, 113, 1),
            addr_from_octets(203, 0, 113, 2),
        ]
    );
    let mut back = r.iter();
    let mut last2: Vec<u32> = Vec::new();
    for _ in 0..2 {
        last2.push(back.next_back().unwrap());
    }
    assert_eq!(
        last2,
        vec![addr_from_octets(203, 0, 113, 255), addr_from_octets(203, 0, 113, 254)]
    );
}
