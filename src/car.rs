use vstd::arithmetic::power2::{lemma_pow2_adds, pow2};
use vstd::prelude::*;

use crate::cid_link::{cid_prefix, read_cid};
use crate::decode::{decode_item, fail, lemma_item_advances, parse_item, DEFAULT_MAX_DEPTH};
use crate::error::{Error, ErrorKind};
use crate::value::{Data, Value};

verus! {

/// The multicodec code of DAG-CBOR, the only block codec accepted.
pub const DAG_CBOR_CODEC: u64 = 0x71;

/// The unsigned LEB128 number whose byte number `i` (counting from 0) stands at
/// `pos + i`, weighted from that byte on; and the position after its last byte.
/// A number takes at most ten bytes, and a tenth byte must be 0 or 1.
pub open spec fn uleb_from(b: Seq<u8>, pos: int, i: nat) -> Option<(nat, int)>
    decreases 10 - i,
{
    if i >= 10 || pos < 0 || pos + i >= b.len() {
        None
    } else {
        let byte = b[pos + i];
        if i == 9 && byte != 0 && byte != 1 {
            None
        } else if byte < 128 {
            Some((byte as nat, pos + i + 1))
        } else {
            match uleb_from(b, pos, i + 1) {
                None => None,
                Some((v, e)) => Some((((byte - 128) + 128 * v) as nat, e)),
            }
        }
    }
}

/// The unsigned LEB128 number at `pos`, and the position after it.
pub open spec fn uleb(b: Seq<u8>, pos: int) -> Option<(nat, int)> {
    uleb_from(b, pos, 0)
}

/// The value stored under `key` in `es` (the first such entry).
pub open spec fn lookup(es: Seq<(Seq<u8>, Data)>, key: Seq<u8>) -> Option<Data>
    decreases es.len(),
{
    if es.len() == 0 {
        None
    } else if es[0].0 == key {
        Some(es[0].1)
    } else {
        lookup(es.drop_first(), key)
    }
}

/// The key `version`.
pub open spec fn version_key() -> Seq<u8> {
    seq![0x76u8, 0x65, 0x72, 0x73, 0x69, 0x6f, 0x6e]
}

/// The key `roots`.
pub open spec fn roots_key() -> Seq<u8> {
    seq![0x72u8, 0x6f, 0x6f, 0x74, 0x73]
}

/// A CAR v1 header: a map whose `version` is 1 and whose `roots` is a non-empty list.
pub open spec fn header_ok(h: Data) -> bool {
    &&& h matches Data::Dict(es)
    &&& lookup(es, version_key()) == Some(Data::Integer(1))
    &&& lookup(es, roots_key()) matches Some(Data::List(roots))
    &&& roots.len() > 0
}

/// The block records from `pos` on, each as its raw CID bytes and decoded block.
///
/// The records end only at the end of input. Each record is its length, then that
/// many bytes: a CID of codec DAG-CBOR and one DAG-CBOR item that fills the rest.
pub open spec fn car_blocks(b: Seq<u8>, pos: int) -> Result<Seq<(Seq<u8>, Data)>, ErrorKind>
    decreases (b.len() - pos) as nat,
    via car_blocks_decreases
{
    if pos >= b.len() {
        Ok(Seq::empty())
    } else {
        match uleb(b, pos) {
            None => Err(ErrorKind::CarFramingError),
            Some((len, p)) => {
                if p + len > b.len() {
                    Err(ErrorKind::CarFramingError)
                } else {
                    match cid_prefix(b.subrange(p, p + len)) {
                        None => Err(ErrorKind::InvalidCid),
                        Some((n, _, codec, _, _, _)) => {
                            if codec != DAG_CBOR_CODEC {
                                Err(ErrorKind::CarFramingError)
                            } else {
                                match parse_item(b, p + n, 0, DEFAULT_MAX_DEPTH as nat) {
                                    Err(e) => Err(e),
                                    Ok((v, q)) => {
                                        if q != p + len {
                                            Err(ErrorKind::CarFramingError)
                                        } else {
                                            match car_blocks(b, q) {
                                                Err(e) => Err(e),
                                                Ok(rest) => Ok(seq![(b.subrange(p, p + n), v)] + rest),
                                            }
                                        }
                                    },
                                }
                            }
                        },
                    }
                }
            },
        }
    }
}

pub proof fn lemma_uleb_advances(b: Seq<u8>, pos: int, i: nat)
    ensures
        uleb_from(b, pos, i) matches Some((_, e)) ==> pos + i < e <= b.len(),
    decreases 10 - i,
{
    if i < 10 && 0 <= pos && pos + i < b.len() {
        lemma_uleb_advances(b, pos, i + 1);
    }
}

#[via_fn]
proof fn car_blocks_decreases(b: Seq<u8>, pos: int) {
    lemma_uleb_advances(b, pos, 0);
}

/// The header and blocks of the CAR v1 archive `b`.
pub open spec fn car_spec(b: Seq<u8>) -> Result<(Data, Seq<(Seq<u8>, Data)>), ErrorKind> {
    match uleb(b, 0) {
        None => Err(ErrorKind::CarFramingError),
        Some((_, p)) => match parse_item(b, p, 0, DEFAULT_MAX_DEPTH as nat) {
            Err(_) => Err(ErrorKind::CarFramingError),
            Ok((h, q)) => {
                if !header_ok(h) {
                    Err(ErrorKind::CarFramingError)
                } else {
                    match car_blocks(b, q) {
                        Err(e) => Err(e),
                        Ok(blocks) => Ok((h, blocks)),
                    }
                }
            },
        },
    }
}

/// The record bodies from `pos` on, delimited by their length prefixes alone, up to
/// the first length that cannot be read or that runs past the end of input.
pub open spec fn record_bodies(b: Seq<u8>, pos: int) -> Seq<Seq<u8>>
    decreases (b.len() - pos) as nat,
    via record_bodies_decreases
{
    if pos >= b.len() {
        Seq::empty()
    } else {
        match uleb(b, pos) {
            None => Seq::empty(),
            Some((len, p)) => {
                if p + len > b.len() {
                    Seq::empty()
                } else {
                    seq![b.subrange(p, p + len)] + record_bodies(b, p + len)
                }
            },
        }
    }
}

#[via_fn]
proof fn record_bodies_decreases(b: Seq<u8>, pos: int) {
    lemma_uleb_advances(b, pos, 0);
}

/// A CAR body with k records yields exactly k blocks, in file order, each keyed by the
/// CID that starts its record.
pub proof fn law_car_blocks_follow_records(b: Seq<u8>, pos: int)
    requires
        0 <= pos,
        car_blocks(b, pos) is Ok,
    ensures
        ({
            let bs = car_blocks(b, pos)->Ok_0;
            let rs = record_bodies(b, pos);
            &&& bs.len() == rs.len()
            &&& forall|i: int|
                0 <= i < bs.len() ==> (cid_prefix(#[trigger] rs[i]) matches Some((n, _, _, _, _, _))
                    && n == bs[i].0.len() && bs[i].0 == rs[i].subrange(0, n as int))
        }),
    decreases (b.len() - pos) as nat,
{
    if pos < b.len() {
        lemma_uleb_advances(b, pos, 0);
        let (len, p) = uleb(b, pos)->Some_0;
        let q = p + len;
        law_car_blocks_follow_records(b, q);
        let bs = car_blocks(b, pos)->Ok_0;
        let rs = record_bodies(b, pos);
        let rest = car_blocks(b, q)->Ok_0;
        let rrest = record_bodies(b, q);
        let body = b.subrange(p, q);
        let (n, _, _, _, _, _) = cid_prefix(body)->Some_0;
        lemma_item_advances(b, p + n, 0, DEFAULT_MAX_DEPTH as nat);
        assert(bs == seq![(b.subrange(p, p + n), bs[0].1)] + rest);
        assert(rs == seq![body] + rrest);
        assert forall|i: int|
            0 <= i < bs.len() implies (cid_prefix(#[trigger] rs[i]) matches Some((m, _, _, _, _, _))
                && m == bs[i].0.len() && bs[i].0 == rs[i].subrange(0, m as int)) by {
            if i == 0 {
                assert(body.subrange(0, n as int) =~= b.subrange(p, p + n));
            } else {
                assert(rs[i] == rrest[i - 1]);
                assert(bs[i] == rest[i - 1]);
            }
        }
    }
}

pub proof fn lemma_uleb_bound(b: Seq<u8>, pos: int, i: nat)
    requires
        i <= 9,
    ensures
        uleb_from(b, pos, i) matches Some((v, _)) ==> v < pow2((64 - 7 * i) as nat),
    decreases 10 - i,
{
    if 0 <= pos && pos + i < b.len() {
        let byte = b[pos + i];
        vstd::arithmetic::power2::lemma2_to64();
        if byte < 128 {
            if i < 9 {
                vstd::arithmetic::power2::lemma_pow2_strictly_increases(7, (64 - 7 * i) as nat);
            }
        } else if i < 9 {
            lemma_uleb_bound(b, pos, i + 1);
            lemma_pow2_adds(7, (57 - 7 * i) as nat);
            if let Some((v, _)) = uleb_from(b, pos, i + 1) {
                let p = pow2((57 - 7 * i) as nat);
                assert((byte - 128) + 128 * v < 128 * p) by (nonlinear_arith)
                    requires
                        v < p,
                        0 <= byte - 128 < 128,
                ;
            }
        }
    }
}

fn read_uleb_from(b: &[u8], pos: usize, i: usize) -> (r: Option<(u64, usize)>)
    requires
        i <= 9,
    ensures
        match r {
            Some((v, e)) => uleb_from(b@, pos as int, i as nat) == Some((v as nat, e as int)),
            None => uleb_from(b@, pos as int, i as nat) is None,
        },
    decreases 10 - i,
{
    if pos >= b.len() || i >= b.len() - pos {
        return None;
    }
    let byte = b[pos + i];
    if i == 9 && byte != 0 && byte != 1 {
        None
    } else if byte < 128 {
        Some((byte as u64, pos + i + 1))
    } else {
        match read_uleb_from(b, pos, i + 1) {
            None => None,
            Some((v, e)) => {
                proof {
                    lemma_uleb_bound(b@, pos as int, (i + 1) as nat);
                    vstd::arithmetic::power2::lemma2_to64();
                    vstd::arithmetic::power2::lemma2_to64_rest();
                    if i > 0 {
                        vstd::arithmetic::power2::lemma_pow2_strictly_increases(
                            (57 - 7 * i) as nat,
                            57,
                        );
                    }
                    assert(128 * v + 127 < 0x1_0000_0000_0000_0000) by (nonlinear_arith)
                        requires
                            v < 0x200000000000000,
                    ;
                }
                Some(((byte - 128) as u64 + 128 * v, e))
            },
        }
    }
}

/// The position just past the first byte at or after `j` whose continuation bit is
/// clear, or `None` when the input ends first.
pub open spec fn skip_continuation(b: Seq<u8>, j: int) -> Option<int>
    decreases b.len() - j,
{
    if j < 0 || j >= b.len() {
        None
    } else if b[j] < 128 {
        Some(j + 1)
    } else {
        skip_continuation(b, j + 1)
    }
}

/// The LEB128 number at `pos` does not fit 64 bits: nine bytes with the continuation
/// bit are followed by a tenth byte that is neither 0 nor 1.
pub open spec fn uleb_overflows(b: Seq<u8>, pos: int) -> bool {
    &&& 0 <= pos
    &&& pos + 10 <= b.len()
    &&& forall|i: int| 0 <= i < 9 ==> #[trigger] b[pos + i] >= 128
    &&& b[pos + 9] != 0
    &&& b[pos + 9] != 1
}

/// Reads the unsigned LEB128 number at `pos`; returns it and the position after it.
///
/// On failure the error holds, for a number that overflows 64 bits, the position just
/// past its remaining continuation bytes (so that a reader can stay aligned); it holds
/// `None` when the input ends inside the number.
pub fn read_u64_leb128(b: &[u8], pos: usize) -> (r: Result<(u64, usize), Option<usize>>)
    ensures
        match r {
            Ok((v, e)) => uleb(b@, pos as int) == Some((v as nat, e as int)),
            Err(Some(e)) => uleb(b@, pos as int) is None && uleb_overflows(b@, pos as int)
                && skip_continuation(b@, pos + 9) == Some(e as int),
            Err(None) => uleb(b@, pos as int) is None && (!uleb_overflows(b@, pos as int)
                || skip_continuation(b@, pos + 9) is None),
        },
{
    if let Some(x) = read_uleb_from(b, pos, 0) {
        return Ok(x);
    }
    let n = b.len();
    if pos >= n || n - pos < 10 {
        return Err(None);
    }
    let mut i: usize = 0;
    while i < 9
        invariant
            n == b@.len(),
            uleb(b@, pos as int) is None,
            pos + 10 <= b@.len(),
            i <= 9,
            forall|k: int| 0 <= k < i ==> #[trigger] b@[pos + k] >= 128,
        decreases 9 - i,
    {
        if b[pos + i] < 128 {
            return Err(None);
        }
        i = i + 1;
    }
    let last = b[pos + 9];
    if last == 0 || last == 1 {
        return Err(None);
    }
    let mut j: usize = pos + 9;
    loop
        invariant
            n == b@.len(),
            pos + 9 <= j <= b@.len(),
            uleb(b@, pos as int) is None,
            uleb_overflows(b@, pos as int),
            skip_continuation(b@, pos + 9) == skip_continuation(b@, j as int),
        decreases b@.len() - j,
    {
        if j >= b.len() {
            return Err(None);
        }
        if b[j] < 128 {
            return Err(Some(j + 1));
        }
        j = j + 1;
    }
}

/// The models of decoded blocks: raw CID bytes and block value.
pub open spec fn block_models(bs: Seq<(Vec<u8>, Value)>) -> Seq<(Seq<u8>, Data)> {
    Seq::new(bs.len(), |i: int| (bs[i].0@, bs[i].1@))
}

/// `r` with `acc` put in front of the blocks it yields.
pub open spec fn then_blocks(
    acc: Seq<(Seq<u8>, Data)>,
    r: Result<Seq<(Seq<u8>, Data)>, ErrorKind>,
) -> Result<Seq<(Seq<u8>, Data)>, ErrorKind> {
    match r {
        Ok(s) => Ok(acc + s),
        Err(e) => Err(e),
    }
}

/// The index of the first entry of `es` whose key is `key`.
fn find_key(es: &Vec<(String, Value)>, key: &[u8]) -> (r: Option<usize>)
    ensures
        match r {
            Some(i) => i < es@.len() && lookup(crate::value::entry_models(es@), key@) == Some(
                es@[i as int].1@,
            ),
            None => lookup(crate::value::entry_models(es@), key@) is None,
        },
{
    let ghost ems = crate::value::entry_models(es@);
    let n = es.len();
    let mut i: usize = 0;
    proof {
        assert(ems.subrange(0, n as int) =~= ems);
    }
    while i < n
        invariant
            n == es@.len() == ems.len(),
            i <= n,
            ems == crate::value::entry_models(es@),
            lookup(ems, key@) == lookup(ems.subrange(i as int, n as int), key@),
        decreases n - i,
    {
        let kb = es[i].0.as_str().as_bytes();
        proof {
            let t = ems.subrange(i as int, n as int);
            assert(t[0] == ems[i as int]);
            assert(t.drop_first() =~= ems.subrange(i + 1, n as int));
        }
        if crate::encode::bytes_eq(kb, key) {
            return Some(i);
        }
        i = i + 1;
    }
    None
}

/// Whether `h` is a valid CAR v1 header.
fn check_header(h: &Value) -> (r: bool)
    ensures
        r == header_ok(h@),
{
    match h {
        Value::Dict(es) => {
            proof {
                crate::value::lemma_dict_model(*es);
            }
            let version: [u8; 7] = [0x76, 0x65, 0x72, 0x73, 0x69, 0x6f, 0x6e];
            let roots: [u8; 5] = [0x72, 0x6f, 0x6f, 0x74, 0x73];
            proof {
                assert(version@ =~= version_key());
                assert(roots@ =~= roots_key());
            }
            match find_key(es, version.as_slice()) {
                None => return false,
                Some(i) => match &es[i].1 {
                    Value::Integer(x) => {
                        if *x != 1 {
                            return false;
                        }
                    },
                    _ => return false,
                },
            }
            match find_key(es, roots.as_slice()) {
                None => false,
                Some(i) => match &es[i].1 {
                    Value::List(rs) => {
                        proof {
                            crate::value::lemma_list_model(*rs);
                        }
                        rs.len() > 0
                    },
                    _ => false,
                },
            }
        },
        _ => false,
    }
}

/// Reads the block record at `p`: `None` at the end of input.
fn decode_block(data: &[u8], p: usize) -> (r: Result<Option<((Vec<u8>, Value), usize)>, Error>)
    requires
        p <= data@.len(),
    ensures
        match r {
            Ok(None) => p == data@.len(),
            Ok(Some((entry, next))) => p < next <= data@.len() && car_blocks(data@, p as int)
                == then_blocks(seq![(entry.0@, entry.1@)], car_blocks(data@, next as int)),
            Err(e) => car_blocks(data@, p as int) == Err::<Seq<(Seq<u8>, Data)>, ErrorKind>(e.kind),
        },
{
    if p == data.len() {
        return Ok(None);
    }
    let (len, r) = match read_u64_leb128(data, p) {
        Err(_) => return fail(ErrorKind::CarFramingError, "failed to read CAR block: invalid record length"),
        Ok(x) => x,
    };
    proof {
        lemma_uleb_advances(data@, p as int, 0);
    }
    if len > (data.len() - r) as u64 {
        return fail(ErrorKind::CarFramingError, "failed to read CAR block: truncated record");
    }
    let end = r + len as usize;
    let record = &data[r..end];
    let (n, _, codec, _, _, _) = match read_cid(record) {
        None => return fail(ErrorKind::InvalidCid, "failed to read CID of block"),
        Some(x) => x,
    };
    if codec != DAG_CBOR_CODEC {
        return fail(
            ErrorKind::CarFramingError,
            "unsupported codec: only DAG-CBOR (0x71) blocks are supported",
        );
    }
    let cid_raw = vstd::slice::slice_to_vec(&data[r..r + n]);
    match decode_item(data, r + n, 0, DEFAULT_MAX_DEPTH) {
        Err(e) => Err(e),
        Ok((v, next)) => {
            if next != end {
                return fail(
                    ErrorKind::CarFramingError,
                    "failed to read CAR block: the block does not fill its record",
                );
            }
            Ok(Some(((cid_raw, v), next)))
        },
    }
}

/// Decodes a CAR v1 archive into its header and its blocks.
///
/// The header must be a DAG-CBOR map with `version` 1 and a non-empty `roots` list;
/// every block must carry a DAG-CBOR CID (codec 0x71) followed by a DAG-CBOR value.
/// The blocks come back in file order, each keyed by the raw bytes of its CID.
pub fn decode_car(data: &[u8]) -> (r: Result<(Value, Vec<(Vec<u8>, Value)>), Error>)
    ensures
        match r {
            Ok((h, bs)) => car_spec(data@) == Ok::<(Data, Seq<(Seq<u8>, Data)>), ErrorKind>(
                (h@, block_models(bs@)),
            ),
            Err(e) => car_spec(data@) == Err::<(Data, Seq<(Seq<u8>, Data)>), ErrorKind>(e.kind),
        },
{
    let header_start = match read_u64_leb128(data, 0) {
        Err(_) => return fail(ErrorKind::CarFramingError, "failed to read CAR header: invalid uvarint"),
        Ok((_, p)) => p,
    };
    proof {
        lemma_uleb_advances(data@, 0, 0);
    }
    let (header, q) = match decode_item(data, header_start, 0, DEFAULT_MAX_DEPTH) {
        Err(_) => return fail(ErrorKind::CarFramingError, "failed to read CAR header: invalid DAG-CBOR"),
        Ok(x) => x,
    };
    if !check_header(&header) {
        return fail(
            ErrorKind::CarFramingError,
            "failed to read CAR header: version must be 1 and roots must not be empty",
        );
    }
    let mut blocks: Vec<(Vec<u8>, Value)> = Vec::new();
    let mut p: usize = q;
    proof {
        lemma_item_advances(data@, header_start as int, 0, DEFAULT_MAX_DEPTH as nat);
        if let Ok(all) = car_blocks(data@, q as int) {
            assert(block_models(blocks@) + all =~= all);
        }
    }
    loop
        invariant
            p <= data@.len(),
            car_blocks(data@, q as int) == then_blocks(block_models(blocks@), car_blocks(data@, p as int)),
            car_spec(data@) == match car_blocks(data@, q as int) {
                Err(e) => Err(e),
                Ok(bs) => Ok::<(Data, Seq<(Seq<u8>, Data)>), ErrorKind>((header@, bs)),
            },
        ensures
            car_spec(data@) == Ok::<(Data, Seq<(Seq<u8>, Data)>), ErrorKind>(
                (header@, block_models(blocks@)),
            ),
        decreases data@.len() - p,
    {
        match decode_block(data, p) {
            Err(e) => return Err(e),
            Ok(None) => {
                proof {
                    assert(car_blocks(data@, p as int) == Ok::<Seq<(Seq<u8>, Data)>, ErrorKind>(Seq::empty()));
                    assert(block_models(blocks@) + Seq::<(Seq<u8>, Data)>::empty() =~= block_models(blocks@));
                }
                break;
            },
            Ok(Some((entry, next))) => {
                proof {
                    let em = (entry.0@, entry.1@);
                    assert(block_models(blocks@.push(entry)) =~= block_models(blocks@).push(em));
                    if let Ok(tail) = car_blocks(data@, next as int) {
                        assert(block_models(blocks@) + (seq![em] + tail) =~= block_models(blocks@).push(em) + tail);
                    }
                }
                blocks.push(entry);
                p = next;
            },
        }
    }
    Ok((header, blocks))
}

} // verus!
