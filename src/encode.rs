use vstd::prelude::*;
use vstd::utf8::encode_utf8;

use crate::cbor::{be_bytes, enc_head, f64_finite, key_less, key_lt, push_be, write_head};
use crate::cid_link::{cid_prefix, read_cid};
use crate::error::{Error, ErrorKind};
use crate::value::{Data, Value};
use crate::writer::BufWriter;

verus! {

broadcast use vstd::std_specs::vec::group_vec_axioms;

/// The largest magnitude that a CBOR integer argument can carry.
pub const U64_MAX: u64 = 0xffff_ffff_ffff_ffff;

/// The keys of a sequence of map entries.
pub open spec fn keys_of(es: Seq<(Seq<u8>, Data)>) -> Seq<Seq<u8>> {
    Seq::new(es.len(), |i: int| es[i].0)
}

/// No key occurs twice.
pub open spec fn keys_unique(ks: Seq<Seq<u8>>) -> bool {
    forall|i: int, j: int| 0 <= i < j < ks.len() ==> ks[i] != ks[j]
}

/// `ord` with the index `j` put just before the first index whose key comes after `ks[j]`.
pub open spec fn insert_index(ord: Seq<int>, ks: Seq<Seq<u8>>, j: int) -> Seq<int>
    decreases ord.len(),
{
    if ord.len() == 0 {
        seq![j]
    } else if key_less(ks[j], ks[ord[0]]) {
        seq![j] + ord
    } else {
        seq![ord[0]] + insert_index(ord.drop_first(), ks, j)
    }
}

/// The indices `0..n` of `ks`, in length-first key order (insertion sort).
pub open spec fn sort_order(ks: Seq<Seq<u8>>, n: nat) -> Seq<int>
    decreases n,
{
    if n == 0 {
        Seq::empty()
    } else {
        insert_index(sort_order(ks, (n - 1) as nat), ks, n - 1)
    }
}

/// The canonical DAG-CBOR encoding of `d`.
///
/// With `bytes_as_links`, a byte string that starts with a CID is written as a link.
pub open spec fn enc(d: Data, bytes_as_links: bool) -> Result<Seq<u8>, ErrorKind>
    decreases d, 0nat,
{
    match d {
        Data::Null => Ok(seq![0xf6u8]),
        Data::Bool(x) => Ok(
            seq![
                if x {
                    0xf5u8
                } else {
                    0xf4u8
                },
            ],
        ),
        Data::Integer(i) => {
            if 0 <= i <= U64_MAX {
                Ok(enc_head(0, i as nat))
            } else if -(U64_MAX + 1) <= i < 0 {
                Ok(enc_head(1, (-1 - i) as nat))
            } else {
                Err(ErrorKind::NumberOutOfRange)
            }
        },
        Data::Float(bits) => {
            if f64_finite(bits) {
                Ok(seq![0xfbu8] + be_bytes(bits as nat, 8))
            } else {
                Err(ErrorKind::NumberOutOfRange)
            }
        },
        Data::Text(t) => Ok(enc_head(3, t.len()) + t),
        Data::Bytes(x) => {
            if bytes_as_links && cid_prefix(x) is Some {
                link_or_too_long(x)
            } else {
                Ok(enc_head(2, x.len()) + x)
            }
        },
        Data::Link(c) => {
            if c.len() == 0 || cid_prefix(c) is None {
                Err(ErrorKind::InvalidCid)
            } else {
                link_or_too_long(c)
            }
        },
        Data::List(items) => match enc_list(items, 0, bytes_as_links) {
            Err(e) => Err(e),
            Ok(body) => Ok(enc_head(4, items.len()) + body),
        },
        Data::Dict(es) => {
            if !keys_unique(keys_of(es)) {
                Err(ErrorKind::NonCanonical)
            } else {
                match enc_entries(es, sort_order(keys_of(es), es.len()), 0, bytes_as_links) {
                    Err(e) => Err(e),
                    Ok(body) => Ok(enc_head(5, es.len()) + body),
                }
            }
        },
    }
}

/// The link encoding of `c`, unless its framed length does not fit a CBOR argument.
pub open spec fn link_or_too_long(c: Seq<u8>) -> Result<Seq<u8>, ErrorKind> {
    if c.len() >= U64_MAX {
        Err(ErrorKind::EncodeUnsupportedType)
    } else {
        Ok(enc_link(c))
    }
}

/// Tag 42 over a byte string made of the `0x00` multibase prefix and the CID `c`.
pub open spec fn enc_link(c: Seq<u8>) -> Seq<u8> {
    seq![0xd8u8, 0x2au8] + enc_head(2, c.len() + 1) + seq![0u8] + c
}

/// The encodings of `items[k..]`, one after the other.
pub open spec fn enc_list(items: Seq<Data>, k: nat, bytes_as_links: bool) -> Result<Seq<u8>, ErrorKind>
    decreases items, (items.len() - k) as nat,
{
    if k >= items.len() {
        Ok(Seq::empty())
    } else {
        match enc(items[k as int], bytes_as_links) {
            Err(e) => Err(e),
            Ok(x) => match enc_list(items, k + 1, bytes_as_links) {
                Err(e) => Err(e),
                Ok(rest) => Ok(x + rest),
            },
        }
    }
}

/// The key/value encodings of the entries `es[ord[k]]`, `es[ord[k + 1]]`, ...
pub open spec fn enc_entries(
    es: Seq<(Seq<u8>, Data)>,
    ord: Seq<int>,
    k: nat,
    bytes_as_links: bool,
) -> Result<Seq<u8>, ErrorKind>
    decreases es, (ord.len() - k) as nat,
{
    if k >= ord.len() {
        Ok(Seq::empty())
    } else if !(0 <= ord[k as int] < es.len()) {
        Err(ErrorKind::NonCanonical)
    } else {
        let e = es[ord[k as int]];
        match enc(e.1, bytes_as_links) {
            Err(err) => Err(err),
            Ok(x) => match enc_entries(es, ord, k + 1, bytes_as_links) {
                Err(err) => Err(err),
                Ok(rest) => Ok(enc_head(3, e.0.len()) + e.0 + x + rest),
            },
        }
    }
}

/// `r` with `acc` written in front of the bytes it yields.
pub open spec fn after(acc: Seq<u8>, r: Result<Seq<u8>, ErrorKind>) -> Result<Seq<u8>, ErrorKind> {
    match r {
        Ok(x) => Ok(acc + x),
        Err(e) => Err(e),
    }
}

/// The byte sequences that a sequence of slices holds.
pub open spec fn views(ks: Seq<&[u8]>) -> Seq<Seq<u8>> {
    Seq::new(ks.len(), |i: int| ks[i]@)
}

/// A sequence of indices as mathematical integers.
pub open spec fn as_ints(s: Seq<usize>) -> Seq<int> {
    Seq::new(s.len(), |i: int| s[i] as int)
}

pub proof fn lemma_insert_index(ord: Seq<int>, ks: Seq<Seq<u8>>, j: int, pos: int)
    requires
        0 <= pos <= ord.len(),
        forall|i: int| 0 <= i < pos ==> !key_less(ks[j], ks[ord[i]]),
        pos < ord.len() ==> key_less(ks[j], ks[ord[pos]]),
    ensures
        insert_index(ord, ks, j) == ord.insert(pos, j),
    decreases ord.len(),
{
    if ord.len() == 0 {
        assert(ord.insert(pos, j) =~= seq![j]);
    } else if pos == 0 {
        assert(ord.insert(pos, j) =~= seq![j] + ord);
    } else {
        let t = ord.drop_first();
        assert forall|i: int| 0 <= i < pos - 1 implies !key_less(ks[j], ks[t[i]]) by {
            assert(t[i] == ord[i + 1]);
        }
        lemma_insert_index(t, ks, j, pos - 1);
        assert(ord.insert(pos, j) =~= seq![ord[0]] + t.insert(pos - 1, j));
    }
}

/// Whether two byte strings are equal.
pub(crate) fn bytes_eq(a: &[u8], b: &[u8]) -> (r: bool)
    ensures
        r == (a@ == b@),
{
    if a.len() != b.len() {
        return false;
    }
    let mut i: usize = 0;
    while i < a.len()
        invariant
            a@.len() == b@.len(),
            i <= a@.len(),
            a@.subrange(0, i as int) == b@.subrange(0, i as int),
        decreases a@.len() - i,
    {
        if a[i] != b[i] {
            return false;
        }
        proof {
            assert(a@.subrange(0, i + 1) =~= a@.subrange(0, i as int).push(a@[i as int]));
            assert(b@.subrange(0, i + 1) =~= b@.subrange(0, i as int).push(b@[i as int]));
        }
        i = i + 1;
    }
    proof {
        assert(a@.subrange(0, i as int) =~= a@);
        assert(b@.subrange(0, i as int) =~= b@);
    }
    true
}

/// Whether some key occurs twice.
fn has_duplicate_keys(ks: &Vec<&[u8]>) -> (r: bool)
    ensures
        r == !keys_unique(views(ks@)),
{
    let n = ks.len();
    let mut i: usize = 0;
    while i < n
        invariant
            n == ks@.len(),
            i <= n,
            forall|a: int, b: int| 0 <= a < i && a < b < n ==> views(ks@)[a] != views(ks@)[b],
        decreases n - i,
    {
        let mut j: usize = i + 1;
        while j < n
            invariant
                n == ks@.len(),
                i < n,
                i + 1 <= j <= n,
                forall|a: int, b: int| 0 <= a < i && a < b < n ==> views(ks@)[a] != views(ks@)[b],
                forall|b: int| i < b < j ==> views(ks@)[i as int] != views(ks@)[b],
            decreases n - j,
        {
            if bytes_eq(ks[i], ks[j]) {
                proof {
                    assert(views(ks@)[i as int] == views(ks@)[j as int]);
                }
                return true;
            }
            j = j + 1;
        }
        i = i + 1;
    }
    false
}

/// The indices of `ks` in length-first key order.
fn sort_keys(ks: &Vec<&[u8]>) -> (ord: Vec<usize>)
    ensures
        ord@.len() == ks@.len(),
        forall|i: int| 0 <= i < ord@.len() ==> ord@[i] < ks@.len(),
        as_ints(ord@) == sort_order(views(ks@), ks@.len() as nat),
{
    let n = ks.len();
    let mut ord: Vec<usize> = Vec::new();
    let mut j: usize = 0;
    proof {
        assert(as_ints(ord@) =~= sort_order(views(ks@), 0));
    }
    while j < n
        invariant
            n == ks@.len(),
            j <= n,
            ord@.len() == j,
            forall|i: int| 0 <= i < ord@.len() ==> ord@[i] < j,
            as_ints(ord@) == sort_order(views(ks@), j as nat),
        decreases n - j,
    {
        let mut pos: usize = 0;
        loop
            invariant
                n == ks@.len(),
                j < n,
                pos <= ord@.len(),
                forall|i: int| 0 <= i < ord@.len() ==> ord@[i] < j,
                forall|i: int|
                    0 <= i < pos ==> !key_less(views(ks@)[j as int], views(ks@)[ord@[i] as int]),
            ensures
                pos <= ord@.len(),
                forall|i: int|
                    0 <= i < pos ==> !key_less(views(ks@)[j as int], views(ks@)[ord@[i] as int]),
                pos < ord@.len() ==> key_less(views(ks@)[j as int], views(ks@)[ord@[pos as int] as int]),
            decreases ord@.len() - pos,
        {
            if pos == ord.len() {
                break;
            }
            if key_lt(ks[j], ks[ord[pos]]) {
                proof {
                    assert(views(ks@)[j as int] == ks@[j as int]@);
                    assert(views(ks@)[ord@[pos as int] as int] == ks@[ord@[pos as int] as int]@);
                }
                break;
            }
            proof {
                assert(views(ks@)[j as int] == ks@[j as int]@);
                assert(views(ks@)[ord@[pos as int] as int] == ks@[ord@[pos as int] as int]@);
            }
            pos = pos + 1;
        }
        proof {
            let oi = as_ints(ord@);
            if pos < ord@.len() {
                assert(oi[pos as int] == ord@[pos as int] as int);
            }
            assert forall|i: int| 0 <= i < pos implies !key_less(views(ks@)[j as int], views(ks@)[oi[i]]) by {
                assert(oi[i] == ord@[i] as int);
            }
            lemma_insert_index(oi, views(ks@), j as int, pos as int);
            assert(as_ints(ord@.insert(pos as int, j)) =~= oi.insert(pos as int, j as int));
        }
        ord.insert(pos, j);
        j = j + 1;
    }
    ord
}

/// Appends the canonical encoding of `v`.
fn encode_into(v: &Value, out: &mut BufWriter, bytes_as_links: bool) -> (r: Result<(), Error>)
    ensures
        match r {
            Ok(_) => enc(v@, bytes_as_links) matches Ok(x) && final(out)@ == old(out)@ + x,
            Err(e) => enc(v@, bytes_as_links) == Err::<Seq<u8>, ErrorKind>(e.kind),
        },
    decreases v,
{
    match v {
        Value::Null => {
            out.push_byte(0xf6);
            Ok(())
        },
        Value::Bool(x) => {
            out.push_byte(if *x { 0xf5 } else { 0xf4 });
            Ok(())
        },
        Value::Integer(i) => {
            let i = *i;
            if i >= 0 {
                if i > U64_MAX as i128 {
                    return Err(Error::new(ErrorKind::NumberOutOfRange, "number out of range"));
                }
                write_head(out, 0, i as u64);
            } else {
                let m = -1 - i;
                if m > U64_MAX as i128 {
                    return Err(Error::new(ErrorKind::NumberOutOfRange, "number out of range"));
                }
                write_head(out, 1, m as u64);
            }
            Ok(())
        },
        Value::Float(bits) => {
            let bits = *bits;
            if (bits >> 52u64) & 0x7ffu64 == 0x7ffu64 {
                return Err(Error::new(ErrorKind::NumberOutOfRange, "number out of range"));
            }
            out.push_byte(0xfb);
            push_be(out, bits, 8);
            Ok(())
        },
        Value::String(s) => {
            let b = s.as_str().as_bytes();
            write_head(out, 3, b.len() as u64);
            out.push(b);
            Ok(())
        },
        Value::Bytes(x) => {
            if bytes_as_links && read_cid(x.as_slice()).is_some() {
                let r = write_link(out, x.as_slice());
                proof {
                    if r is Ok {
                        assert(out@ =~= old(out)@ + out@.subrange(old(out)@.len() as int, out@.len() as int));
                    }
                }
                return r;
            } else {
                write_head(out, 2, x.len() as u64);
                out.push(x.as_slice());
            }
            Ok(())
        },
        Value::Link(c) => {
            if read_cid(c.as_slice()).is_none() {
                return Err(Error::new(ErrorKind::InvalidCid, "a link must hold a CID"));
            }
            let r = write_link(out, c.as_slice());
            proof {
                if r is Ok {
                    assert(out@ =~= old(out)@ + out@.subrange(old(out)@.len() as int, out@.len() as int));
                }
            }
            r
        },
        Value::List(items) => {
            proof {
                crate::value::lemma_list_model(*items);
            }
            encode_list(items, out, bytes_as_links)
        },
        Value::Dict(es) => {
            proof {
                crate::value::lemma_dict_model(*es);
            }
            encode_dict(es, out, bytes_as_links)
        },
    }
}

/// Appends the encoding of the list `items`.
fn encode_list(items: &Vec<Value>, out: &mut BufWriter, bytes_as_links: bool) -> (r: Result<(), Error>)
    ensures
        match r {
            Ok(_) => enc(Data::List(crate::value::models(items@)), bytes_as_links) matches Ok(x)
                && final(out)@ == old(out)@ + x,
            Err(e) => enc(Data::List(crate::value::models(items@)), bytes_as_links) == Err::<
                Seq<u8>,
                ErrorKind,
            >(e.kind),
        },
    decreases items,
{
    let ghost ms = crate::value::models(items@);
    write_head(out, 4, items.len() as u64);
    let ghost start = out@;
    let mut k: usize = 0;
    while k < items.len()
        invariant
            k <= items@.len(),
            ms == crate::value::models(items@),
            out@.len() >= start.len(),
            out@.subrange(0, start.len() as int) == start,
            enc_list(ms, 0, bytes_as_links) == after(
                out@.subrange(start.len() as int, out@.len() as int),
                enc_list(ms, k as nat, bytes_as_links),
            ),
        decreases items@.len() - k,
    {
        let ghost before = out@;
        proof {
            assert(decreases_to!(*items => items@[k as int]));
        }
        match encode_into(&items[k], out, bytes_as_links) {
            Err(e) => return Err(e),
            Ok(_) => {},
        }
        proof {
            let x = enc(items@[k as int]@, bytes_as_links)->Ok_0;
            assert(out@ == before + x);
            assert(out@.subrange(0, start.len() as int) =~= start);
            let body = before.subrange(start.len() as int, before.len() as int);
            assert(out@.subrange(start.len() as int, out@.len() as int) =~= body + x);
            if let Ok(rest) = enc_list(ms, (k + 1) as nat, bytes_as_links) {
                assert(body + (x + rest) =~= (body + x) + rest);
            }
        }
        k = k + 1;
    }
    proof {
        let body = out@.subrange(start.len() as int, out@.len() as int);
        assert(body + Seq::<u8>::empty() =~= body);
        assert(out@ =~= start + body);
    }
    Ok(())
}

/// Appends the encoding of the map `es`, its entries in length-first key order.
fn encode_dict(es: &Vec<(String, Value)>, out: &mut BufWriter, bytes_as_links: bool) -> (r: Result<
    (),
    Error,
>)
    ensures
        match r {
            Ok(_) => enc(Data::Dict(crate::value::entry_models(es@)), bytes_as_links) matches Ok(x)
                && final(out)@ == old(out)@ + x,
            Err(e) => enc(Data::Dict(crate::value::entry_models(es@)), bytes_as_links) == Err::<
                Seq<u8>,
                ErrorKind,
            >(e.kind),
        },
    decreases es,
{
    let ghost ems = crate::value::entry_models(es@);
    let n = es.len();
    let mut kbs: Vec<&[u8]> = Vec::new();
    let mut i: usize = 0;
    while i < n
        invariant
            n == es@.len(),
            i <= n,
            ems == crate::value::entry_models(es@),
            views(kbs@) =~= keys_of(ems).subrange(0, i as int),
        decreases n - i,
    {
        let kb = es[i].0.as_str().as_bytes();
        proof {
            assert(kb@ == encode_utf8(es@[i as int].0@));
            assert(keys_of(ems)[i as int] == ems[i as int].0);
            assert(views(kbs@.push(kb)) =~= views(kbs@).push(kb@));
            assert(keys_of(ems).subrange(0, i + 1) =~= keys_of(ems).subrange(0, i as int).push(keys_of(ems)[i as int]));
        }
        kbs.push(kb);
        i = i + 1;
    }
    proof {
        assert(views(kbs@) =~= keys_of(ems));
    }
    if has_duplicate_keys(&kbs) {
        return Err(Error::new(ErrorKind::NonCanonical, "map keys must be unique"));
    }
    let ord = sort_keys(&kbs);
    let ghost oi = as_ints(ord@);
    write_head(out, 5, n as u64);
    let ghost start = out@;
    let mut k: usize = 0;
    while k < n
        invariant
            n == es@.len() == kbs@.len() == ord@.len(),
            k <= n,
            ems == crate::value::entry_models(es@),
            views(kbs@) == keys_of(ems),
            oi == as_ints(ord@),
            oi == sort_order(keys_of(ems), ems.len()),
            keys_unique(keys_of(ems)),
            forall|t: int| 0 <= t < ord@.len() ==> ord@[t] < n,
            out@.len() >= start.len(),
            out@.subrange(0, start.len() as int) == start,
            enc_entries(ems, oi, 0, bytes_as_links) == after(
                out@.subrange(start.len() as int, out@.len() as int),
                enc_entries(ems, oi, k as nat, bytes_as_links),
            ),
        decreases n - k,
    {
        let ghost before = out@;
        let j = ord[k];
        let kb = kbs[j];
        write_head(out, 3, kb.len() as u64);
        out.push(kb);
        proof {
            assert(decreases_to!(*es => es@[j as int]));
            assert(oi[k as int] == j as int);
            assert(ems[j as int].1 == es@[j as int].1@);
        }
        match encode_into(&es[j].1, out, bytes_as_links) {
            Err(e) => {
                proof {
                    assert(enc_entries(ems, oi, k as nat, bytes_as_links) == Err::<Seq<u8>, ErrorKind>(e.kind));
                    assert(keys_unique(keys_of(ems)));
                    assert(oi == sort_order(keys_of(ems), ems.len()));
                }
                return Err(e);
            },
            Ok(_) => {},
        }
        proof {
            assert(oi[k as int] == j as int);
            let e = ems[j as int];
            assert(views(kbs@)[j as int] == kbs@[j as int]@);
            assert(keys_of(ems)[j as int] == ems[j as int].0);
            assert(e.0 == kb@);
            assert(e.1 == es@[j as int].1@);
            let x = enc(e.1, bytes_as_links)->Ok_0;
            let item = enc_head(3, e.0.len()) + e.0 + x;
            assert(out@ =~= before + item);
            assert(out@.subrange(0, start.len() as int) =~= start);
            let body = before.subrange(start.len() as int, before.len() as int);
            assert(out@.subrange(start.len() as int, out@.len() as int) =~= body + item);
            if let Ok(rest) = enc_entries(ems, oi, (k + 1) as nat, bytes_as_links) {
                assert(body + (enc_head(3, e.0.len()) + e.0 + x + rest) =~= (body + item) + rest);
            }
        }
        k = k + 1;
    }
    proof {
        let body = out@.subrange(start.len() as int, out@.len() as int);
        assert(body + Seq::<u8>::empty() =~= body);
        assert(out@ =~= start + body);
    }
    Ok(())
}

/// Appends tag 42 over the `0x00` multibase prefix and the CID `c`.
fn write_link(out: &mut BufWriter, c: &[u8]) -> (r: Result<(), Error>)
    ensures
        r matches Err(e) ==> link_or_too_long(c@) == Err::<Seq<u8>, ErrorKind>(e.kind),
        r is Ok ==> link_or_too_long(c@) == Ok::<Seq<u8>, ErrorKind>(final(out)@.subrange(old(out)@.len() as int, final(out)@.len() as int)) && final(out)@.len() >= old(out)@.len() && final(out)@.subrange(0, old(out)@.len() as int) == old(out)@,

{
    if c.len() as u64 >= U64_MAX {
        return Err(Error::new(ErrorKind::EncodeUnsupportedType, "link too long"));
    }
    out.push_byte(0xd8);
    out.push_byte(0x2a);
    write_head(out, 2, c.len() as u64 + 1);
    out.push_byte(0);
    out.push(c);
    proof {
        assert(out@ =~= old(out)@ + enc_link(c@));
        assert(out@.subrange(old(out)@.len() as int, out@.len() as int) =~= enc_link(c@));
        assert(out@.subrange(0, old(out)@.len() as int) =~= old(out)@);
    }
    Ok(())
}

/// Encodes `v` as canonical DAG-CBOR.
///
/// Fails on an integer outside ±(2^64 - 1) (the negative end being -2^64), on a
/// non-finite float, on a link that is not a CID, and on a map with a repeated key.
pub fn encode_dag_cbor(v: &Value) -> (r: Result<Vec<u8>, Error>)
    ensures
        match r {
            Ok(b) => enc(v@, false) == Ok::<Seq<u8>, ErrorKind>(b@),
            Err(e) => enc(v@, false) == Err::<Seq<u8>, ErrorKind>(e.kind),
        },
{
    let mut out = BufWriter::new();
    match encode_into(v, &mut out, false) {
        Err(e) => Err(e),
        Ok(_) => {
            proof {
                assert(out@ =~= Seq::<u8>::empty() + out@);
            }
            Ok(out.into_inner())
        },
    }
}

/// Encodes `v` as canonical DAG-CBOR, writing every byte string that starts with a
/// CID as a link, for callers whose values carry links as plain bytes.
pub fn encode_dag_cbor_bytes_as_links(v: &Value) -> (r: Result<Vec<u8>, Error>)
    ensures
        match r {
            Ok(b) => enc(v@, true) == Ok::<Seq<u8>, ErrorKind>(b@),
            Err(e) => enc(v@, true) == Err::<Seq<u8>, ErrorKind>(e.kind),
        },
{
    let mut out = BufWriter::new();
    match encode_into(v, &mut out, true) {
        Err(e) => Err(e),
        Ok(_) => {
            proof {
                assert(out@ =~= Seq::<u8>::empty() + out@);
            }
            Ok(out.into_inner())
        },
    }
}

} // verus!
