//! The archive container, version 1: a length-prefixed header record naming
//! the root, then one length-prefixed record per block, each the block's
//! content identifier (binary form) followed by its bytes.
use vstd::prelude::*;

verus! {

/// A block: the binary form of its content identifier, and its bytes.
pub struct CidAndBytes {
    pub cid: Vec<u8>,
    pub bytes: Vec<u8>,
}

pub open spec fn blocks_view(blocks: Seq<CidAndBytes>) -> Seq<(Seq<u8>, Seq<u8>)> {
    blocks.map_values(|b: CidAndBytes| (b.cid@, b.bytes@))
}

/// Unsigned LEB128: seven bits a byte, low bits first, the high bit set on
/// every byte but the last.
pub open spec fn varint(n: nat) -> Seq<u8>
    decreases n,
{
    if n < 128 {
        seq![n as u8]
    } else {
        seq![(n % 128 + 128) as u8] + varint(n / 128)
    }
}

/// The low `k` bytes of `n`, most significant first.
pub open spec fn be_bytes(n: nat, k: nat) -> Seq<u8>
    decreases k,
{
    if k == 0 {
        Seq::empty()
    } else {
        be_bytes(n / 256, (k - 1) as nat).push((n % 256) as u8)
    }
}

/// The CBOR head of a byte string of `len` bytes (major type 2).
pub open spec fn cbor_bytes_head(len: nat) -> Seq<u8> {
    if len < 24 {
        seq![(0x40 + len) as u8]
    } else if len < 0x100 {
        seq![0x58u8, len as u8]
    } else if len < 0x1_0000 {
        seq![0x59u8] + be_bytes(len, 2)
    } else if (len as u64) < 0x1_0000_0000u64 {
        seq![0x5au8] + be_bytes(len, 4)
    } else {
        seq![0x5bu8] + be_bytes(len, 8)
    }
}

/// `{"roots": [root], "version": 1}` in canonical DAG-CBOR: a map of two
/// entries, keys shortest first, the root as tag 42 over a byte string of a
/// zero byte and the identifier's binary form.
pub open spec fn header_payload(root: Seq<u8>) -> Seq<u8> {
    seq![0xa2u8, 0x65, 0x72, 0x6f, 0x6f, 0x74, 0x73, 0x81, 0xd8, 0x2a] + cbor_bytes_head(
        root.len() + 1,
    ) + seq![0x00u8] + root + seq![0x67u8, 0x76, 0x65, 0x72, 0x73, 0x69, 0x6f, 0x6e, 0x01]
}

/// A record: the payload's length as a varint, then the payload.
pub open spec fn frame(payload: Seq<u8>) -> Seq<u8> {
    varint(payload.len()) + payload
}

/// The block records, in the order given.
pub open spec fn block_records(blocks: Seq<(Seq<u8>, Seq<u8>)>) -> Seq<u8>
    decreases blocks.len(),
{
    if blocks.len() == 0 {
        Seq::empty()
    } else {
        block_records(blocks.drop_last()) + frame(blocks.last().0 + blocks.last().1)
    }
}

/// The whole archive: the header record, then the block records.
pub open spec fn car_bytes(root: Seq<u8>, blocks: Seq<(Seq<u8>, Seq<u8>)>) -> Seq<u8> {
    frame(header_payload(root)) + block_records(blocks)
}

/// Appends the varint of `n`.
pub fn write_varint(out: &mut Vec<u8>, n: u64)
    ensures
        final(out)@ == old(out)@ + varint(n as nat),
{
    let mut v = n;
    while v >= 128
        invariant
            out@ + varint(v as nat) == old(out)@ + varint(n as nat),
        decreases v,
    {
        let b = (v % 128 + 128) as u8;
        proof {
            assert(varint(v as nat) == seq![b] + varint((v / 128) as nat));
            assert(out@.push(b) + varint((v / 128) as nat) =~= out@ + varint(v as nat));
        }
        out.push(b);
        v = v / 128;
    }
    proof {
        assert(out@.push(v as u8) =~= out@ + varint(v as nat));
    }
    out.push(v as u8);
}

fn write_be(out: &mut Vec<u8>, n: u64, k: usize)
    ensures
        final(out)@ == old(out)@ + be_bytes(n as nat, k as nat),
    decreases k,
{
    if k > 0 {
        write_be(out, n / 256, k - 1);
        proof {
            assert(be_bytes(n as nat, k as nat) == be_bytes((n / 256) as nat, (k - 1) as nat).push(
                (n % 256) as u8,
            ));
        }
        out.push((n % 256) as u8);
        assert(out@ =~= old(out)@ + be_bytes(n as nat, k as nat));
    }
}

fn write_bytes(out: &mut Vec<u8>, src: &Vec<u8>)
    ensures
        final(out)@ == old(out)@ + src@,
{
    let mut i: usize = 0;
    while i < src.len()
        invariant
            i <= src@.len(),
            out@ == old(out)@ + src@.subrange(0, i as int),
        decreases src@.len() - i,
    {
        proof {
            assert(src@.subrange(0, i + 1) =~= src@.subrange(0, i as int).push(src@[i as int]));
        }
        out.push(src[i]);
        i = i + 1;
    }
    assert(src@.subrange(0, i as int) =~= src@);
}

fn write_lit(out: &mut Vec<u8>, lit: &[u8])
    ensures
        final(out)@ == old(out)@ + lit@,
{
    let mut i: usize = 0;
    while i < lit.len()
        invariant
            i <= lit@.len(),
            out@ == old(out)@ + lit@.subrange(0, i as int),
        decreases lit@.len() - i,
    {
        proof {
            assert(lit@.subrange(0, i + 1) =~= lit@.subrange(0, i as int).push(lit@[i as int]));
        }
        out.push(lit[i]);
        i = i + 1;
    }
    assert(lit@.subrange(0, i as int) =~= lit@);
}

/// The header payload for `root`.
pub fn encode_header(root: &Vec<u8>) -> (r: Vec<u8>)
    requires
        root@.len() < usize::MAX,
    ensures
        r@ == header_payload(root@),
{
    let mut r: Vec<u8> = Vec::new();
    let lead: [u8; 10] = [0xa2, 0x65, 0x72, 0x6f, 0x6f, 0x74, 0x73, 0x81, 0xd8, 0x2a];
    write_lit(&mut r, &lead);
    assert(lead@ == seq![0xa2u8, 0x65, 0x72, 0x6f, 0x6f, 0x74, 0x73, 0x81, 0xd8, 0x2a]);
    let len = root.len() + 1;
    let ghost before = r@;
    if len < 24 {
        r.push((0x40 + len) as u8);
    } else if len < 0x100 {
        r.push(0x58);
        r.push(len as u8);
    } else if len < 0x1_0000 {
        r.push(0x59);
        write_be(&mut r, len as u64, 2);
    } else if (len as u64) < 0x1_0000_0000u64 {
        r.push(0x5a);
        write_be(&mut r, len as u64, 4);
    } else {
        r.push(0x5b);
        write_be(&mut r, len as u64, 8);
    }
    assert(r@ =~= before + cbor_bytes_head(len as nat));
    r.push(0x00);
    write_bytes(&mut r, root);
    let tail: [u8; 9] = [0x67, 0x76, 0x65, 0x72, 0x73, 0x69, 0x6f, 0x6e, 0x01];
    write_lit(&mut r, &tail);
    assert(tail@ == seq![0x67u8, 0x76, 0x65, 0x72, 0x73, 0x69, 0x6f, 0x6e, 0x01]);
    assert(r@ =~= header_payload(root@));
    r
}

/// Encodes the archive of `blocks` under `root`: the header record, then one
/// record per block in the order given, with no sorting, deduplication or
/// check that the blocks hang from the root.
pub fn read_car_bytes(root: &Vec<u8>, blocks: &Vec<CidAndBytes>) -> (r: Vec<u8>)
    requires
        root@.len() < usize::MAX,
        forall|i: int|
            0 <= i < blocks@.len() ==> #[trigger] blocks@[i].cid@.len() + blocks@[i].bytes@.len()
                <= usize::MAX,
    ensures
        r@ == car_bytes(root@, blocks_view(blocks@)),
{
    let header = encode_header(root);
    let mut out: Vec<u8> = Vec::new();
    write_varint(&mut out, header.len() as u64);
    write_bytes(&mut out, &header);
    assert(out@ =~= frame(header_payload(root@)));
    let mut i: usize = 0;
    while i < blocks.len()
        invariant
            i <= blocks@.len(),
            forall|j: int|
                0 <= j < blocks@.len() ==> #[trigger] blocks@[j].cid@.len()
                    + blocks@[j].bytes@.len() <= usize::MAX,
            out@ == frame(header_payload(root@)) + block_records(
                blocks_view(blocks@).subrange(0, i as int),
            ),
        decreases blocks@.len() - i,
    {
        let b = &blocks[i];
        let ghost start = out@;
        write_varint(&mut out, (b.cid.len() + b.bytes.len()) as u64);
        write_bytes(&mut out, &b.cid);
        write_bytes(&mut out, &b.bytes);
        proof {
            let s = blocks_view(blocks@).subrange(0, i + 1);
            assert(s.drop_last() =~= blocks_view(blocks@).subrange(0, i as int));
            assert(s.last() == (b.cid@, b.bytes@));
            assert(out@ =~= start + frame(b.cid@ + b.bytes@));
        }
        i = i + 1;
    }
    assert(blocks_view(blocks@).subrange(0, i as int) =~= blocks_view(blocks@));
    out
}

/// Reads an unsigned LEB128 integer at the front of `s`: its value and how
/// many bytes it took.
pub open spec fn read_varint(s: Seq<u8>) -> Option<(nat, nat)>
    decreases s.len(),
{
    if s.len() == 0 {
        None
    } else if s[0] < 128 {
        Some((s[0] as nat, 1))
    } else {
        match read_varint(s.drop_first()) {
            Some((v, k)) => Some(((s[0] - 128) as nat + 128 * v, k + 1)),
            None => None,
        }
    }
}

/// Splits a byte stream into its length-prefixed records.
pub open spec fn read_frames(s: Seq<u8>) -> Option<Seq<Seq<u8>>>
    decreases s.len(),
{
    if s.len() == 0 {
        Some(Seq::empty())
    } else {
        match read_varint(s) {
            Some((len, k)) => if 0 < k && k + len <= s.len() {
                match read_frames(s.subrange((k + len) as int, s.len() as int)) {
                    Some(fs) => Some(seq![s.subrange(k as int, (k + len) as int)] + fs),
                    None => None,
                }
            } else {
                None
            },
            None => None,
        }
    }
}

/// The length of the binary content identifier at the front of `s`: a
/// version 0 identifier (a 32-byte SHA-256 multihash), or version 1: the
/// version, the codec, the hash code and the digest length as varints, then
/// the digest.
pub open spec fn cid_len(s: Seq<u8>) -> Option<nat> {
    if s.len() >= 2 && s[0] == 0x12 && s[1] == 0x20 {
        if s.len() >= 34 {
            Some(34)
        } else {
            None
        }
    } else {
        match read_varint(s) {
            Some((ver, a)) => if ver != 1 {
                None
            } else {
                match read_varint(s.subrange(a as int, s.len() as int)) {
                Some((_, b)) => match read_varint(s.subrange((a + b) as int, s.len() as int)) {
                    Some((_, c)) => match read_varint(s.subrange((a + b + c) as int, s.len() as int)) {
                        Some((d, e)) => if a + b + c + e + d <= s.len() {
                            Some(a + b + c + e + d)
                        } else {
                            None
                        },
                        None => None,
                    },
                    None => None,
                },
                None => None,
            }},
            None => None,
        }
    }
}

/// `c` is exactly one binary content identifier.
pub open spec fn is_cid(c: Seq<u8>) -> bool {
    cid_len(c) == Some(c.len())
}

/// Size of a CBOR byte-string head, from its first byte.
pub open spec fn head_size(b: u8) -> nat {
    if b < 0x58 {
        1
    } else if b == 0x58 {
        2
    } else if b == 0x59 {
        3
    } else if b == 0x5a {
        5
    } else {
        9
    }
}

/// The root named by a header payload.
pub open spec fn decode_header(p: Seq<u8>) -> Option<Seq<u8>> {
    let lead = seq![0xa2u8, 0x65, 0x72, 0x6f, 0x6f, 0x74, 0x73, 0x81, 0xd8, 0x2a];
    let tail = seq![0x67u8, 0x76, 0x65, 0x72, 0x73, 0x69, 0x6f, 0x6e, 0x01];
    if p.len() > 10 {
        let k = head_size(p[10]) as int;
        if 10 + k + 1 + 9 <= p.len() && p.subrange(0, 10) == lead && p[10 + k] == 0 && p.subrange(
            p.len() - 9,
            p.len() as int,
        ) == tail {
            Some(p.subrange(10 + k + 1, p.len() - 9))
        } else {
            None
        }
    } else {
        None
    }
}

/// Splits each block record into its content identifier and its bytes.
pub open spec fn split_blocks(fs: Seq<Seq<u8>>) -> Option<Seq<(Seq<u8>, Seq<u8>)>>
    decreases fs.len(),
{
    if fs.len() == 0 {
        Some(Seq::empty())
    } else {
        match (cid_len(fs[0]), split_blocks(fs.drop_first())) {
            (Some(k), Some(rest)) => Some(
                seq![(fs[0].subrange(0, k as int), fs[0].subrange(k as int, fs[0].len() as int))]
                    + rest,
            ),
            _ => None,
        }
    }
}

/// Reads an archive: its root and its blocks, in order.
pub open spec fn decode_car(s: Seq<u8>) -> Option<(Seq<u8>, Seq<(Seq<u8>, Seq<u8>)>)> {
    match read_frames(s) {
        Some(fs) => if fs.len() >= 1 {
            match (decode_header(fs[0]), split_blocks(fs.drop_first())) {
                (Some(root), Some(blocks)) => Some((root, blocks)),
                _ => None,
            }
        } else {
            None
        },
        None => None,
    }
}

proof fn lemma_read_varint_prefix(s: Seq<u8>, x: Seq<u8>)
    requires
        read_varint(s) is Some,
    ensures
        read_varint(s + x) == read_varint(s),
    decreases s.len(),
{
    assert((s + x)[0] == s[0]);
    if s[0] >= 128 {
        assert((s + x).drop_first() =~= s.drop_first() + x);
        lemma_read_varint_prefix(s.drop_first(), x);
    }
}

proof fn lemma_read_varint(n: nat)
    ensures
        read_varint(varint(n)) == Some((n, varint(n).len())),
        varint(n).len() > 0,
    decreases n,
{
    if n >= 128 {
        lemma_read_varint(n / 128);
        let v = varint(n);
        assert(v.drop_first() =~= varint(n / 128));
        assert(v[0] == (n % 128 + 128) as u8);
        assert((n % 128 + 128) as u8 - 128 == n % 128);
        assert(n % 128 + 128 * (n / 128) == n);
    }
}

proof fn lemma_read_frame(p: Seq<u8>, rest: Seq<u8>)
    requires
        read_frames(rest) is Some,
    ensures
        read_frames(frame(p) + rest) == Some(seq![p] + read_frames(rest)->Some_0),
{
    let v = varint(p.len());
    let s = frame(p) + rest;
    lemma_read_varint(p.len());
    assert(s =~= v + (p + rest));
    lemma_read_varint_prefix(v, p + rest);
    assert(s.subrange((v.len() + p.len()) as int, s.len() as int) =~= rest);
    assert(s.subrange(v.len() as int, (v.len() + p.len()) as int) =~= p);
}

/// The payload of each block record.
pub open spec fn payloads(blocks: Seq<(Seq<u8>, Seq<u8>)>) -> Seq<Seq<u8>> {
    blocks.map_values(|b: (Seq<u8>, Seq<u8>)| b.0 + b.1)
}

proof fn lemma_block_records_front(blocks: Seq<(Seq<u8>, Seq<u8>)>)
    requires
        blocks.len() > 0,
    ensures
        block_records(blocks) == frame(blocks[0].0 + blocks[0].1) + block_records(
            blocks.drop_first(),
        ),
    decreases blocks.len(),
{
    if blocks.len() > 1 {
        lemma_block_records_front(blocks.drop_last());
        assert(blocks.drop_last().drop_first() =~= blocks.drop_first().drop_last());
        assert(blocks.drop_first().last() == blocks.last());
        assert(block_records(blocks) =~= frame(blocks[0].0 + blocks[0].1) + block_records(
            blocks.drop_first(),
        ));
    } else {
        assert(blocks.drop_last() =~= Seq::<(Seq<u8>, Seq<u8>)>::empty());
        assert(blocks.drop_first() =~= Seq::<(Seq<u8>, Seq<u8>)>::empty());
        assert(block_records(Seq::<(Seq<u8>, Seq<u8>)>::empty()) == Seq::<u8>::empty());
        assert(blocks.last() == blocks[0]);
        assert(block_records(blocks) =~= frame(blocks[0].0 + blocks[0].1) + Seq::<u8>::empty());
    }
}

proof fn lemma_read_block_records(blocks: Seq<(Seq<u8>, Seq<u8>)>)
    ensures
        read_frames(block_records(blocks)) == Some(payloads(blocks)),
    decreases blocks.len(),
{
    if blocks.len() == 0 {
        assert(payloads(blocks) =~= Seq::<Seq<u8>>::empty());
    } else {
        lemma_block_records_front(blocks);
        lemma_read_block_records(blocks.drop_first());
        lemma_read_frame(blocks[0].0 + blocks[0].1, block_records(blocks.drop_first()));
        assert(payloads(blocks) =~= seq![blocks[0].0 + blocks[0].1] + payloads(
            blocks.drop_first(),
        ));
    }
}

proof fn lemma_cid_prefix(c: Seq<u8>, x: Seq<u8>)
    requires
        is_cid(c),
    ensures
        cid_len(c + x) == Some(c.len()),
{
    let s = c + x;
    assert(c.len() >= 1);
    assert(s[0] == c[0]);
    if c.len() >= 2 && c[0] == 0x12 && c[1] == 0x20 {
        assert(s[1] == c[1]);
    } else {
        if s.len() >= 2 && s[0] == 0x12 && s[1] == 0x20 {
            assert(c.len() == 1);
            assert(read_varint(c) == Some((0x12nat, 1nat)));
        }
        lemma_read_varint_prefix(c, x);
        let a = read_varint(c)->Some_0.1;
        assert(s.subrange(a as int, s.len() as int) =~= c.subrange(a as int, c.len() as int) + x);
        lemma_read_varint_prefix(c.subrange(a as int, c.len() as int), x);
        let b = read_varint(c.subrange(a as int, c.len() as int))->Some_0.1;
        assert(s.subrange((a + b) as int, s.len() as int) =~= c.subrange((a + b) as int, c.len() as int) + x);
        lemma_read_varint_prefix(c.subrange((a + b) as int, c.len() as int), x);
        let cc = read_varint(c.subrange((a + b) as int, c.len() as int))->Some_0.1;
        assert(s.subrange((a + b + cc) as int, s.len() as int) =~= c.subrange((a + b + cc) as int, c.len() as int)
            + x);
        lemma_read_varint_prefix(c.subrange((a + b + cc) as int, c.len() as int), x);
    }
}

proof fn lemma_split_blocks(blocks: Seq<(Seq<u8>, Seq<u8>)>)
    requires
        forall|i: int| 0 <= i < blocks.len() ==> is_cid(#[trigger] blocks[i].0),
    ensures
        split_blocks(payloads(blocks)) == Some(blocks),
    decreases blocks.len(),
{
    if blocks.len() > 0 {
        let fs = payloads(blocks);
        assert(fs.drop_first() =~= payloads(blocks.drop_first()));
        assert forall|i: int| 0 <= i < blocks.drop_first().len() implies is_cid(
            #[trigger] blocks.drop_first()[i].0,
        ) by {
            assert(blocks.drop_first()[i] == blocks[i + 1]);
        }
        lemma_split_blocks(blocks.drop_first());
        assert(is_cid(blocks[0].0));
        lemma_cid_prefix(blocks[0].0, blocks[0].1);
        let k = blocks[0].0.len();
        assert(fs[0].subrange(0, k as int) =~= blocks[0].0);
        assert(fs[0].subrange(k as int, fs[0].len() as int) =~= blocks[0].1);
        assert(split_blocks(fs) == Some(blocks)) by {
            assert(seq![(blocks[0].0, blocks[0].1)] + blocks.drop_first() =~= blocks);
        }
    } else {
        assert(payloads(blocks) =~= Seq::<Seq<u8>>::empty());
        assert(blocks =~= Seq::<(Seq<u8>, Seq<u8>)>::empty());
    }
}

proof fn lemma_be_len(n: nat, k: nat)
    ensures
        be_bytes(n, k).len() == k,
    decreases k,
{
    if k > 0 {
        lemma_be_len(n / 256, (k - 1) as nat);
    }
}

proof fn lemma_decode_header(root: Seq<u8>)
    ensures
        decode_header(header_payload(root)) == Some(root),
{
    let len = root.len() + 1;
    let h = cbor_bytes_head(len);
    lemma_be_len(len, 2);
    lemma_be_len(len, 4);
    lemma_be_len(len, 8);
    assert(h.len() == head_size(h[0]));
    let lead = seq![0xa2u8, 0x65, 0x72, 0x6f, 0x6f, 0x74, 0x73, 0x81, 0xd8, 0x2a];
    let tail = seq![0x67u8, 0x76, 0x65, 0x72, 0x73, 0x69, 0x6f, 0x6e, 0x01];
    let p = header_payload(root);
    assert(p =~= lead + h + seq![0x00u8] + root + tail);
    let k = h.len() as int;
    assert(p[10] == h[0]);
    assert(p.subrange(0, 10) =~= lead);
    assert(p[10 + k] == 0);
    assert(p.subrange(p.len() - 9, p.len() as int) =~= tail);
    assert(p.subrange(10 + k + 1, p.len() - 9) =~= root);
}

/// Reading back an archive gives exactly the root and the blocks it was
/// encoded from, in the order given, for any number of blocks, where each
/// block's identifier is one binary content identifier.
pub proof fn lemma_decode_encode(root: Seq<u8>, blocks: Seq<(Seq<u8>, Seq<u8>)>)
    requires
        forall|i: int| 0 <= i < blocks.len() ==> is_cid(#[trigger] blocks[i].0),
    ensures
        decode_car(car_bytes(root, blocks)) == Some((root, blocks)),
{
    lemma_read_block_records(blocks);
    lemma_read_frame(header_payload(root), block_records(blocks));
    let fs = seq![header_payload(root)] + payloads(blocks);
    assert(fs[0] == header_payload(root));
    assert(fs.drop_first() =~= payloads(blocks));
    lemma_decode_header(root);
    lemma_split_blocks(blocks);
}

} // verus!
