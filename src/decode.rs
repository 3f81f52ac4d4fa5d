use vstd::prelude::*;
use vstd::utf8::{encode_utf8, valid_utf8};

use crate::cbor::{
    arg_width, be_value, f32_finite, f64_finite, info_of, key_less, key_lt, lemma_be_value_bound,
    lemma_pow256_facts, major_of, read_arg, read_be, widen_f32, widen_f32_bits,
};
use crate::cid_link::{cid_prefix, read_cid};
use crate::error::{Error, ErrorKind};
use crate::value::{Data, Value, entry_models, models};

verus! {

/// The nesting limit used when the caller names none.
pub const DEFAULT_MAX_DEPTH: usize = 1000;

/// The payload of `len` bytes at `p`, and the position after it.
pub open spec fn take_payload(b: Seq<u8>, p: int, len: nat) -> Result<(Seq<u8>, int), ErrorKind> {
    if p + len > b.len() {
        Err(ErrorKind::InvalidCbor)
    } else {
        Ok((b.subrange(p, p + len), p + len))
    }
}

/// A major-7 item at `pos`: `false`, `true`, `null`, or a finite binary32 or binary64 float.
pub open spec fn parse_simple(b: Seq<u8>, pos: int) -> Result<(Data, int), ErrorKind> {
    let info = info_of(b[pos]);
    if info == 20 {
        Ok((Data::Bool(false), pos + 1))
    } else if info == 21 {
        Ok((Data::Bool(true), pos + 1))
    } else if info == 22 {
        Ok((Data::Null, pos + 1))
    } else if info == 26 {
        if pos + 5 > b.len() {
            Err(ErrorKind::InvalidCbor)
        } else {
            let bits = be_value(b.subrange(pos + 1, pos + 5)) as u32;
            if !f32_finite(bits) {
                Err(ErrorKind::NumberOutOfRange)
            } else {
                Ok((Data::Float(widen_f32(bits)), pos + 5))
            }
        }
    } else if info == 27 {
        if pos + 9 > b.len() {
            Err(ErrorKind::InvalidCbor)
        } else {
            let bits = be_value(b.subrange(pos + 1, pos + 9)) as u64;
            if !f64_finite(bits) {
                Err(ErrorKind::NumberOutOfRange)
            } else {
                Ok((Data::Float(bits), pos + 9))
            }
        }
    } else {
        Err(ErrorKind::UnsupportedFeature)
    }
}

/// The payload of the tag-42 item whose byte string starts at `p`: a `0x00` prefix
/// followed by a binary CID.
pub open spec fn parse_link(b: Seq<u8>, p: int) -> Result<(Data, int), ErrorKind> {
    if p < 0 || p >= b.len() {
        Err(ErrorKind::InvalidCbor)
    } else if major_of(b[p]) != 2 || info_of(b[p]) == 31 {
        Err(ErrorKind::InvalidCid)
    } else {
        match read_arg(b, p) {
            Err(e) => Err(e),
            Ok((len, q)) => match take_payload(b, q, len) {
                Err(e) => Err(e),
                Ok((payload, r)) => {
                    if payload.len() <= 1 || payload[0] != 0 {
                        Err(ErrorKind::InvalidCid)
                    } else if cid_prefix(payload.drop_first()) is None {
                        Err(ErrorKind::InvalidCid)
                    } else {
                        Ok((Data::Link(payload.drop_first()), r))
                    }
                },
            },
        }
    }
}

/// The raw bytes of the text-string map key at `pos`, and the position after it.
pub open spec fn parse_key(b: Seq<u8>, pos: int) -> Result<(Seq<u8>, int), ErrorKind> {
    if pos < 0 || pos >= b.len() {
        Err(ErrorKind::InvalidCbor)
    } else if major_of(b[pos]) != 3 || info_of(b[pos]) == 31 {
        Err(ErrorKind::UnsupportedFeature)
    } else {
        match read_arg(b, pos) {
            Err(e) => Err(e),
            Ok((len, q)) => take_payload(b, q, len),
        }
    }
}

/// The DAG-CBOR item at `pos`, nested `depth` levels deep, with at most `limit` levels
/// allowed; and the position just after it.
pub open spec fn parse_item(b: Seq<u8>, pos: int, depth: nat, limit: nat) -> Result<
    (Data, int),
    ErrorKind,
>
    decreases (limit + 1 - depth) as nat, 0nat,
{
    if depth > limit {
        Err(ErrorKind::RecursionLimit)
    } else if pos < 0 || pos >= b.len() {
        Err(ErrorKind::InvalidCbor)
    } else {
        let major = major_of(b[pos]);
        let info = info_of(b[pos]);
        if major == 7 {
            parse_simple(b, pos)
        } else {
            match read_arg(b, pos) {
                Err(e) => Err(e),
                Ok((arg, p)) => {
                    if major == 0 {
                        if info == 31 {
                            Err(ErrorKind::InvalidCbor)
                        } else {
                            Ok((Data::Integer(arg as int), p))
                        }
                    } else if major == 1 {
                        if info == 31 {
                            Err(ErrorKind::InvalidCbor)
                        } else {
                            Ok((Data::Integer(-1 - arg), p))
                        }
                    } else if major == 2 || major == 3 {
                        if info == 31 {
                            Err(ErrorKind::UnsupportedFeature)
                        } else {
                            match take_payload(b, p, arg) {
                                Err(e) => Err(e),
                                Ok((s, q)) => {
                                    if major == 2 {
                                        Ok((Data::Bytes(s), q))
                                    } else if valid_utf8(s) {
                                        Ok((Data::Text(s), q))
                                    } else {
                                        Err(ErrorKind::InvalidCbor)
                                    }
                                },
                            }
                        }
                    } else if major == 4 {
                        if info == 31 {
                            Err(ErrorKind::UnsupportedFeature)
                        } else {
                            match parse_list(b, p, arg, depth, limit) {
                                Err(e) => Err(e),
                                Ok((items, q)) => Ok((Data::List(items), q)),
                            }
                        }
                    } else if major == 5 {
                        if info == 31 {
                            Err(ErrorKind::UnsupportedFeature)
                        } else {
                            match parse_entries(b, p, arg, None, depth, limit) {
                                Err(e) => Err(e),
                                Ok((entries, q)) => Ok((Data::Dict(entries), q)),
                            }
                        }
                    } else {
                        if info == 31 {
                            Err(ErrorKind::InvalidCbor)
                        } else if arg != 42 {
                            Err(ErrorKind::UnsupportedFeature)
                        } else {
                            parse_link(b, p)
                        }
                    }
                },
            }
        }
    }
}

/// `n` consecutive items at `pos`, children of an array at nesting `depth`.
pub open spec fn parse_list(b: Seq<u8>, pos: int, n: nat, depth: nat, limit: nat) -> Result<
    (Seq<Data>, int),
    ErrorKind,
>
    decreases (limit - depth) as nat, n + 1,
{
    if n == 0 {
        Ok((Seq::empty(), pos))
    } else {
        match parse_item(b, pos, depth + 1, limit) {
            Err(e) => Err(e),
            Ok((d, p)) => match parse_list(b, p, (n - 1) as nat, depth, limit) {
                Err(e) => Err(e),
                Ok((ds, q)) => Ok((seq![d] + ds, q)),
            },
        }
    }
}

/// `n` consecutive key/value pairs at `pos`, entries of a map at nesting `depth`;
/// each key must come strictly after `prev` in length-first order.
pub open spec fn parse_entries(
    b: Seq<u8>,
    pos: int,
    n: nat,
    prev: Option<Seq<u8>>,
    depth: nat,
    limit: nat,
) -> Result<(Seq<(Seq<u8>, Data)>, int), ErrorKind>
    decreases (limit - depth) as nat, n + 1,
{
    if n == 0 {
        Ok((Seq::empty(), pos))
    } else {
        match parse_key(b, pos) {
            Err(e) => Err(e),
            Ok((k, p)) => {
                if prev matches Some(pk) && !key_less(pk, k) {
                    Err(ErrorKind::NonCanonical)
                } else if !valid_utf8(k) {
                    Err(ErrorKind::InvalidCbor)
                } else {
                    match parse_item(b, p, depth + 1, limit) {
                        Err(e) => Err(e),
                        Ok((v, q)) => match parse_entries(
                            b,
                            q,
                            (n - 1) as nat,
                            Some(k),
                            depth,
                            limit,
                        ) {
                            Err(e) => Err(e),
                            Ok((es, r)) => Ok((seq![(k, v)] + es, r)),
                        },
                    }
                }
            },
        }
    }
}

/// The single DAG-CBOR value that makes up all of `b`.
pub open spec fn decode_spec(b: Seq<u8>, limit: nat) -> Result<Data, ErrorKind> {
    match parse_item(b, 0, 0, limit) {
        Err(e) => Err(e),
        Ok((d, p)) => if p == b.len() {
            Ok(d)
        } else {
            Err(ErrorKind::TrailingData)
        },
    }
}

/// How an exec result of the item decoder stands to the spec result.
pub open spec fn agrees<T: View>(r: Result<(T, usize), Error>, s: Result<(T::V, int), ErrorKind>) -> bool {
    match r {
        Ok((v, p)) => s == Ok::<(T::V, int), ErrorKind>((v@, p as int)),
        Err(e) => s == Err::<(T::V, int), ErrorKind>(e.kind),
    }
}

/// The result `r` with `acc` put in front of the sequence it yields.
pub open spec fn prepend<A>(acc: Seq<A>, r: Result<(Seq<A>, int), ErrorKind>) -> Result<
    (Seq<A>, int),
    ErrorKind,
> {
    match r {
        Ok((s, q)) => Ok((acc + s, q)),
        Err(e) => Err(e),
    }
}

pub proof fn lemma_item_advances(b: Seq<u8>, pos: int, depth: nat, limit: nat)
    ensures
        parse_item(b, pos, depth, limit) matches Ok((_, p)) ==> pos < p <= b.len(),
    decreases (limit + 1 - depth) as nat, 0nat,
{
    if depth <= limit && 0 <= pos < b.len() {
        let major = major_of(b[pos]);
        if major != 7 {
            if let Ok((arg, p)) = read_arg(b, pos) {
                if major == 4 {
                    lemma_list_advances(b, p, arg, depth, limit);
                } else if major == 5 {
                    lemma_entries_advances(b, p, arg, None, depth, limit);
                }
            }
        }
    }
}

pub proof fn lemma_list_advances(b: Seq<u8>, pos: int, n: nat, depth: nat, limit: nat)
    requires
        0 <= pos <= b.len(),
    ensures
        parse_list(b, pos, n, depth, limit) matches Ok((_, q)) ==> pos <= q <= b.len(),
    decreases (limit - depth) as nat, n + 1,
{
    if n > 0 {
        lemma_item_advances(b, pos, depth + 1, limit);
        if let Ok((_, p)) = parse_item(b, pos, depth + 1, limit) {
            lemma_list_advances(b, p, (n - 1) as nat, depth, limit);
        }
    }
}

pub proof fn lemma_entries_advances(
    b: Seq<u8>,
    pos: int,
    n: nat,
    prev: Option<Seq<u8>>,
    depth: nat,
    limit: nat,
)
    requires
        0 <= pos <= b.len(),
    ensures
        parse_entries(b, pos, n, prev, depth, limit) matches Ok((_, q)) ==> pos <= q <= b.len(),
    decreases (limit - depth) as nat, n + 1,
{
    if n > 0 {
        if let Ok((k, p)) = parse_key(b, pos) {
            lemma_item_advances(b, p, depth + 1, limit);
            if let Ok((_, q)) = parse_item(b, p, depth + 1, limit) {
                lemma_entries_advances(b, q, (n - 1) as nat, Some(k), depth, limit);
            }
        }
    }
}

/// Relies on `String::from_utf8`: it accepts exactly the byte strings that are valid
/// UTF-8, and the string it returns is made of those bytes.
#[verifier::external_body]
pub(crate) fn string_from_utf8(b: &[u8]) -> (r: Option<String>)
    ensures
        r is Some <==> valid_utf8(b@),
        r matches Some(s) ==> encode_utf8(s@) == b@,
{
    String::from_utf8(b.to_vec()).ok()
}

pub(crate) fn fail<T>(kind: ErrorKind, message: &'static str) -> (r: Result<T, Error>)
    ensures
        r matches Err(e) && e.kind == kind,
{
    Err(Error::new(kind, message))
}

/// Reads the argument of the item header at `pos`.
fn read_arg_at(b: &[u8], pos: usize) -> (r: Result<(u64, usize), Error>)
    requires
        pos < b@.len(),
    ensures
        match r {
            Ok((a, p)) => read_arg(b@, pos as int) == Ok::<(nat, int), ErrorKind>((a as nat, p as int)),
            Err(e) => read_arg(b@, pos as int) == Err::<(nat, int), ErrorKind>(e.kind),
        },
{
    let info = b[pos] % 32;
    if info < 24 {
        Ok((info as u64, pos + 1))
    } else if info < 28 {
        let w: usize = if info == 24 {
            1
        } else if info == 25 {
            2
        } else if info == 26 {
            4
        } else {
            8
        };
        assert(w == arg_width(info));
        if w > b.len() - pos - 1 {
            fail(ErrorKind::InvalidCbor, "unexpected end of input in an item header")
        } else {
            let a = read_be(b, pos + 1, w);
            Ok((a, pos + 1 + w))
        }
    } else if info == 31 {
        Ok((0, pos + 1))
    } else {
        fail(ErrorKind::InvalidCbor, "reserved additional information")
    }
}

fn decode_simple(b: &[u8], pos: usize) -> (r: Result<(Value, usize), Error>)
    requires
        pos < b@.len(),
        major_of(b@[pos as int]) == 7,
    ensures
        agrees(r, parse_simple(b@, pos as int)),
{
    let info = b[pos] % 32;
    if info == 20 {
        Ok((Value::Bool(false), pos + 1))
    } else if info == 21 {
        Ok((Value::Bool(true), pos + 1))
    } else if info == 22 {
        Ok((Value::Null, pos + 1))
    } else if info == 26 {
        if b.len() - pos < 5 {
            fail(ErrorKind::InvalidCbor, "unexpected end of input in a float")
        } else {
            let raw = read_be(b, pos + 1, 4);
            proof {
                lemma_be_value_bound(b@.subrange(pos + 1, pos + 5));
                lemma_pow256_facts();
            }
            let bits = raw as u32;
            if (bits >> 23u32) & 0xffu32 == 0xffu32 {
                fail(ErrorKind::NumberOutOfRange, "number out of range for f32 (NaNs are forbidden)")
            } else {
                Ok((Value::Float(widen_f32_bits(bits)), pos + 5))
            }
        }
    } else if info == 27 {
        if b.len() - pos < 9 {
            fail(ErrorKind::InvalidCbor, "unexpected end of input in a float")
        } else {
            let bits = read_be(b, pos + 1, 8);
            if (bits >> 52u64) & 0x7ffu64 == 0x7ffu64 {
                fail(ErrorKind::NumberOutOfRange, "number out of range for f64 (NaNs are forbidden)")
            } else {
                Ok((Value::Float(bits), pos + 9))
            }
        }
    } else {
        fail(ErrorKind::UnsupportedFeature, "unsupported simple value")
    }
}

fn decode_link(b: &[u8], p: usize) -> (r: Result<(Value, usize), Error>)
    requires
        p <= b@.len(),
    ensures
        agrees(r, parse_link(b@, p as int)),
{
    if p >= b.len() {
        return fail(ErrorKind::InvalidCbor, "unexpected end of input in a link");
    }
    let ib = b[p];
    if ib / 32 != 2 || ib % 32 == 31 {
        return fail(ErrorKind::InvalidCid, "a link must hold a byte string");
    }
    let (len, q) = match read_arg_at(b, p) {
        Ok(x) => x,
        Err(e) => return Err(e),
    };
    if len > (b.len() - q) as u64 {
        return fail(ErrorKind::InvalidCbor, "unexpected end of input in a link");
    }
    let end = q + len as usize;
    if len <= 1 || b[q] != 0 {
        return fail(ErrorKind::InvalidCid, "a link must start with the 0x00 multibase prefix");
    }
    let cid = &b[q + 1..end];
    proof {
        assert(b@.subrange(q as int, end as int).drop_first() =~= cid@);
    }
    if read_cid(cid).is_none() {
        return fail(ErrorKind::InvalidCid, "invalid CID");
    }
    Ok((Value::Link(vstd::slice::slice_to_vec(cid)), end))
}

/// Reads the text-string map key at `pos`; returns where its bytes start and end.
fn decode_key(b: &[u8], pos: usize) -> (r: Result<(usize, usize), Error>)
    requires
        pos <= b@.len(),
    ensures
        match r {
            Ok((s, e)) => s <= e <= b@.len() && parse_key(b@, pos as int) == Ok::<
                (Seq<u8>, int),
                ErrorKind,
            >((b@.subrange(s as int, e as int), e as int)),
            Err(e) => parse_key(b@, pos as int) == Err::<(Seq<u8>, int), ErrorKind>(e.kind),
        },
{
    if pos >= b.len() {
        return fail(ErrorKind::InvalidCbor, "unexpected end of input in a map key");
    }
    let ib = b[pos];
    if ib / 32 != 3 || ib % 32 == 31 {
        return fail(ErrorKind::UnsupportedFeature, "map keys must be strings");
    }
    let (len, q) = match read_arg_at(b, pos) {
        Ok(x) => x,
        Err(e) => return Err(e),
    };
    if len > (b.len() - q) as u64 {
        return fail(ErrorKind::InvalidCbor, "unexpected end of input in a map key");
    }
    Ok((q, q + len as usize))
}

/// Decodes the item at `pos`, nested `depth` levels deep with at most `limit` allowed.
pub(crate) fn decode_item(b: &[u8], pos: usize, depth: usize, limit: usize) -> (r: Result<(Value, usize), Error>)
    requires
        pos <= b@.len(),
    ensures
        agrees(r, parse_item(b@, pos as int, depth as nat, limit as nat)),
    decreases limit + 1 - depth, 0nat,
{
    if depth > limit {
        return fail(ErrorKind::RecursionLimit, "maximum nesting depth exceeded");
    }
    if pos >= b.len() {
        return fail(ErrorKind::InvalidCbor, "unexpected end of input");
    }
    let ib = b[pos];
    let major = ib / 32;
    let info = ib % 32;
    if major == 7 {
        return decode_simple(b, pos);
    }
    let (arg, p) = match read_arg_at(b, pos) {
        Ok(x) => x,
        Err(e) => return Err(e),
    };
    if major == 0 {
        if info == 31 {
            fail(ErrorKind::InvalidCbor, "an integer cannot have indefinite length")
        } else {
            Ok((Value::Integer(arg as i128), p))
        }
    } else if major == 1 {
        if info == 31 {
            fail(ErrorKind::InvalidCbor, "an integer cannot have indefinite length")
        } else {
            Ok((Value::Integer(-1 - arg as i128), p))
        }
    } else if major == 2 || major == 3 {
        if info == 31 {
            fail(ErrorKind::UnsupportedFeature, "indefinite-length strings are not supported")
        } else if arg > (b.len() - p) as u64 {
            fail(ErrorKind::InvalidCbor, "unexpected end of input in a string")
        } else {
            let q = p + arg as usize;
            let s = &b[p..q];
            if major == 2 {
                Ok((Value::Bytes(vstd::slice::slice_to_vec(s)), q))
            } else {
                match string_from_utf8(s) {
                    Some(t) => Ok((Value::String(t), q)),
                    None => fail(ErrorKind::InvalidCbor, "invalid UTF-8 in a text string"),
                }
            }
        }
    } else if major == 4 {
        if info == 31 {
            fail(ErrorKind::UnsupportedFeature, "an array must carry its length")
        } else {
            match decode_list(b, p, arg, depth, limit) {
                Ok((items, q)) => {
                    proof {
                        crate::value::lemma_list_model(items);
                    }
                    Ok((Value::List(items), q))
                },
                Err(e) => Err(e),
            }
        }
    } else if major == 5 {
        if info == 31 {
            fail(ErrorKind::UnsupportedFeature, "a map must carry its length")
        } else {
            match decode_entries(b, p, arg, depth, limit) {
                Ok((entries, q)) => {
                    proof {
                        crate::value::lemma_dict_model(entries);
                    }
                    Ok((Value::Dict(entries), q))
                },
                Err(e) => Err(e),
            }
        }
    } else {
        if info == 31 {
            fail(ErrorKind::InvalidCbor, "a tag cannot have indefinite length")
        } else if arg != 42 {
            fail(ErrorKind::UnsupportedFeature, "only tag 42 is supported")
        } else {
            decode_link(b, p)
        }
    }
}

fn decode_list(b: &[u8], pos: usize, n: u64, depth: usize, limit: usize) -> (r: Result<
    (Vec<Value>, usize),
    Error,
>)
    requires
        pos <= b@.len(),
        depth <= limit,
    ensures
        match r {
            Ok((items, q)) => parse_list(b@, pos as int, n as nat, depth as nat, limit as nat)
                == Ok::<(Seq<Data>, int), ErrorKind>((models(items@), q as int)),
            Err(e) => parse_list(b@, pos as int, n as nat, depth as nat, limit as nat) == Err::<
                (Seq<Data>, int),
                ErrorKind,
            >(e.kind),
        },
    decreases limit - depth, 2nat,
{
    let mut items: Vec<Value> = Vec::new();
    let mut p: usize = pos;
    let mut i: u64 = 0;
    while i < n
        invariant
            pos <= p <= b@.len(),
            i <= n,
            depth <= limit,
            parse_list(b@, pos as int, n as nat, depth as nat, limit as nat) == prepend(
                models(items@),
                parse_list(b@, p as int, (n - i) as nat, depth as nat, limit as nat),
            ),
        decreases n - i,
    {
        if depth == limit {
            return fail(ErrorKind::RecursionLimit, "maximum nesting depth exceeded");
        }
        match decode_item(b, p, depth + 1, limit) {
            Err(e) => return Err(e),
            Ok((v, q)) => {
                proof {
                    lemma_item_advances(b@, p as int, (depth + 1) as nat, limit as nat);
                    let rest = parse_list(b@, q as int, (n - i - 1) as nat, depth as nat, limit as nat);
                    assert(models(items@.push(v)) =~= models(items@).push(v@));
                    if let Ok((ds, r)) = rest {
                        assert(models(items@) + (seq![v@] + ds) =~= models(items@).push(v@) + ds);
                    }
                }
                items.push(v);
                p = q;
                i = i + 1;
            },
        }
    }
    proof {
        assert(models(items@) + Seq::<Data>::empty() =~= models(items@));
    }
    Ok((items, p))
}

fn decode_entries(b: &[u8], pos: usize, n: u64, depth: usize, limit: usize) -> (r: Result<
    (Vec<(String, Value)>, usize),
    Error,
>)
    requires
        pos <= b@.len(),
        depth <= limit,
    ensures
        match r {
            Ok((es, q)) => parse_entries(b@, pos as int, n as nat, None, depth as nat, limit as nat)
                == Ok::<(Seq<(Seq<u8>, Data)>, int), ErrorKind>((entry_models(es@), q as int)),
            Err(e) => parse_entries(b@, pos as int, n as nat, None, depth as nat, limit as nat)
                == Err::<(Seq<(Seq<u8>, Data)>, int), ErrorKind>(e.kind),
        },
    decreases limit - depth, 2nat,
{
    let mut es: Vec<(String, Value)> = Vec::new();
    let mut p: usize = pos;
    let mut i: u64 = 0;
    let mut prev_start: usize = 0;
    let mut prev_end: usize = 0;
    while i < n
        invariant
            pos <= p <= b@.len(),
            prev_start <= prev_end <= b@.len(),
            i <= n,
            depth <= limit,
            parse_entries(b@, pos as int, n as nat, None, depth as nat, limit as nat) == prepend(
                entry_models(es@),
                parse_entries(
                    b@,
                    p as int,
                    (n - i) as nat,
                    if i == 0 {
                        None
                    } else {
                        Some(b@.subrange(prev_start as int, prev_end as int))
                    },
                    depth as nat,
                    limit as nat,
                ),
            ),
        decreases n - i,
    {
        let (ks, ke) = match decode_key(b, p) {
            Ok(x) => x,
            Err(e) => return Err(e),
        };
        if i > 0 && !key_lt(&b[prev_start..prev_end], &b[ks..ke]) {
            return fail(ErrorKind::NonCanonical, "map keys must be sorted and unique");
        }
        let key = match string_from_utf8(&b[ks..ke]) {
            Some(k) => k,
            None => return fail(ErrorKind::InvalidCbor, "invalid UTF-8 in a map key"),
        };
        if depth == limit {
            return fail(ErrorKind::RecursionLimit, "maximum nesting depth exceeded");
        }
        match decode_item(b, ke, depth + 1, limit) {
            Err(e) => return Err(e),
            Ok((v, q)) => {
                proof {
                    lemma_item_advances(b@, ke as int, (depth + 1) as nat, limit as nat);
                    let k = b@.subrange(ks as int, ke as int);
                    let rest = parse_entries(b@, q as int, (n - i - 1) as nat, Some(k), depth as nat, limit as nat);
                    assert(entry_models(es@.push((key, v))) =~= entry_models(es@).push((k, v@)));
                    if let Ok((ds, r)) = rest {
                        assert(entry_models(es@) + (seq![(k, v@)] + ds) =~= entry_models(es@).push((k, v@)) + ds);
                    }
                }
                es.push((key, v));
                prev_start = ks;
                prev_end = ke;
                p = q;
                i = i + 1;
            },
        }
    }
    proof {
        assert(entry_models(es@) + Seq::<(Seq<u8>, Data)>::empty() =~= entry_models(es@));
    }
    Ok((es, p))
}

/// The values of the CBOR sequence that starts at `pos`, read until the first item
/// that fails to decode (or the end of input).
pub open spec fn parse_seq(b: Seq<u8>, pos: int, limit: nat) -> Seq<Data>
    decreases (b.len() - pos) as nat,
    via parse_seq_decreases
{
    match parse_item(b, pos, 0, limit) {
        Err(_) => Seq::empty(),
        Ok((d, p)) => seq![d] + parse_seq(b, p, limit),
    }
}

#[via_fn]
proof fn parse_seq_decreases(b: Seq<u8>, pos: int, limit: nat) {
    lemma_item_advances(b, pos, 0, limit);
}

/// Decodes `data` as exactly one DAG-CBOR value, allowing at most `max_depth` levels
/// of nesting below the top.
pub fn decode_dag_cbor_with_limit(data: &[u8], max_depth: usize) -> (r: Result<Value, Error>)
    ensures
        match r {
            Ok(v) => decode_spec(data@, max_depth as nat) == Ok::<Data, ErrorKind>(v@),
            Err(e) => decode_spec(data@, max_depth as nat) == Err::<Data, ErrorKind>(e.kind),
        },
{
    match decode_item(data, 0, 0, max_depth) {
        Err(e) => Err(e),
        Ok((v, p)) => {
            if p == data.len() {
                Ok(v)
            } else {
                fail(ErrorKind::TrailingData, "contains multiple objects (CBOR sequence)")
            }
        },
    }
}

/// Decodes `data` as exactly one DAG-CBOR value.
///
/// Fails on malformed or truncated input, on anything outside the DAG-CBOR profile,
/// on map keys out of order, on non-finite floats, on links that are not CIDs, on
/// nesting deeper than `DEFAULT_MAX_DEPTH`, and on bytes left after the value.
pub fn decode_dag_cbor(data: &[u8]) -> (r: Result<Value, Error>)
    ensures
        match r {
            Ok(v) => decode_spec(data@, DEFAULT_MAX_DEPTH as nat) == Ok::<Data, ErrorKind>(v@),
            Err(e) => decode_spec(data@, DEFAULT_MAX_DEPTH as nat) == Err::<Data, ErrorKind>(e.kind),
        },
{
    decode_dag_cbor_with_limit(data, DEFAULT_MAX_DEPTH)
}

/// Decodes `data` as a sequence of DAG-CBOR values, stopping without complaint at the
/// end of input or at the first item that does not decode.
pub fn decode_dag_cbor_multi(data: &[u8]) -> (r: Vec<Value>)
    ensures
        models(r@) == parse_seq(data@, 0, DEFAULT_MAX_DEPTH as nat),
{
    let mut out: Vec<Value> = Vec::new();
    let mut p: usize = 0;
    proof {
        assert(models(out@) + parse_seq(data@, 0, DEFAULT_MAX_DEPTH as nat) =~= parse_seq(
            data@,
            0,
            DEFAULT_MAX_DEPTH as nat,
        ));
    }
    loop
        invariant
            p <= data@.len(),
            parse_seq(data@, 0, DEFAULT_MAX_DEPTH as nat) == models(out@) + parse_seq(
                data@,
                p as int,
                DEFAULT_MAX_DEPTH as nat,
            ),
        decreases data@.len() - p,
    {
        match decode_item(data, p, 0, DEFAULT_MAX_DEPTH) {
            Err(_) => {
                proof {
                    assert(models(out@) + Seq::<Data>::empty() =~= models(out@));
                }
                return out;
            },
            Ok((v, q)) => {
                proof {
                    lemma_item_advances(data@, p as int, 0, DEFAULT_MAX_DEPTH as nat);
                    let rest = parse_seq(data@, q as int, DEFAULT_MAX_DEPTH as nat);
                    assert(models(out@.push(v)) =~= models(out@).push(v@));
                    assert(models(out@) + (seq![v@] + rest) =~= models(out@).push(v@) + rest);
                }
                out.push(v);
                p = q;
            },
        }
    }
}

} // verus!
