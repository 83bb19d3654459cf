use rsky_syntax::car::{encode_header, read_car_bytes, write_varint, CidAndBytes};

fn cid(tag: u8) -> Vec<u8> {
    // A CIDv1 (dag-cbor, sha2-256) with a 32-byte digest of `tag`.
    let mut c = vec![0x01, 0x71, 0x12, 0x20];
    c.extend(std::iter::repeat(tag).take(32));
    c
}

fn varint(n: u64) -> Vec<u8> {
    let mut v = Vec::new();
    write_varint(&mut v, n);
    v
}

#[test]
fn varint_values() {
    assert_eq!(varint(0), vec![0x00]);
    assert_eq!(varint(127), vec![0x7f]);
    assert_eq!(varint(128), vec![0x80, 0x01]);
    assert_eq!(varint(300), vec![0xac, 0x02]);
    assert_eq!(varint(u64::MAX).len(), 10);
}

#[test]
fn header_bytes() {
    let root = cid(7);
    let h = encode_header(&root);
    let mut expected = vec![0xa2, 0x65, b'r', b'o', b'o', b't', b's', 0x81, 0xd8, 0x2a, 0x58, 37, 0x00];
    expected.extend(&root);
    expected.extend([0x67, b'v', b'e', b'r', b's', b'i', b'o', b'n', 0x01]);
    assert_eq!(h, expected);
    let short = encode_header(&vec![1, 2]);
    assert_eq!(&short[10..12], &[0x43, 0x00]);
}

#[test]
fn archive_with_no_blocks() {
    let root = cid(1);
    let out = read_car_bytes(&root, &vec![]);
    let header = encode_header(&root);
    let mut expected = varint(header.len() as u64);
    expected.extend(&header);
    assert_eq!(out, expected);
}

#[test]
fn archive_blocks_in_order() {
    let root = cid(1);
    let blocks = vec![
        CidAndBytes { cid: cid(2), bytes: b"first".to_vec() },
        CidAndBytes { cid: cid(3), bytes: vec![] },
        CidAndBytes { cid: cid(2), bytes: b"again".to_vec() },
    ];
    let out = read_car_bytes(&root, &blocks);
    let header = encode_header(&root);
    let mut expected = varint(header.len() as u64);
    expected.extend(&header);
    for b in &blocks {
        expected.extend(varint((b.cid.len() + b.bytes.len()) as u64));
        expected.extend(&b.cid);
        expected.extend(&b.bytes);
    }
    assert_eq!(out, expected);
    // the header record is short enough for a one-byte length
    assert_eq!(out[0] as usize, header.len());
    assert_eq!(out[1 + header.len()], 36 + 5);
}

fn read_varint(s: &[u8]) -> (u64, usize) {
    let mut v: u64 = 0;
    let mut shift = 0;
    for (i, b) in s.iter().enumerate() {
        v |= ((b & 0x7f) as u64) << shift;
        if b & 0x80 == 0 {
            return (v, i + 1);
        }
        shift += 7;
    }
    panic!("truncated varint");
}

fn read_records(mut s: &[u8]) -> Vec<Vec<u8>> {
    let mut out = Vec::new();
    while !s.is_empty() {
        let (len, k) = read_varint(s);
        out.push(s[k..k + len as usize].to_vec());
        s = &s[k + len as usize..];
    }
    out
}

#[test]
fn decoding_recovers_root_and_blocks() {
    let root = cid(9);
    let blocks = vec![
        CidAndBytes { cid: cid(4), bytes: vec![1, 2, 3] },
        CidAndBytes { cid: cid(5), bytes: vec![0; 200] },
    ];
    let out = read_car_bytes(&root, &blocks);
    let records = read_records(&out);
    assert_eq!(records.len(), 3);
    // header: root sits after the 10 lead bytes, the 2-byte head and the zero byte
    assert_eq!(&records[0][13..13 + root.len()], &root[..]);
    for (rec, b) in records[1..].iter().zip(&blocks) {
        assert_eq!(&rec[..36], &b.cid[..]);
        assert_eq!(&rec[36..], &b.bytes[..]);
    }
    assert_eq!(read_records(&read_car_bytes(&root, &vec![])).len(), 1);
}
