use vstd::prelude::*;
use vstd::utf8::valid_utf8;

use crate::cbor::{
    arg_width, be_bytes, be_value, enc_head, f64_finite, info_of, key_less, lemma_be_round_trip,
    lemma_be_value_bound, lemma_pow256_facts, lemma_pow256_mono, lemma_widen_finite, major_of,
    read_arg,
};
use crate::cid_link::cid_prefix;
use crate::decode::{
    decode_spec, parse_entries, parse_item, parse_key, parse_link, parse_list, parse_simple,
    take_payload,
};
use crate::encode::{
    enc, enc_entries, enc_list, keys_of, keys_unique, lemma_insert_index,
    sort_order, U64_MAX,
};
use crate::error::ErrorKind;
use crate::order::lemma_key_order;
use crate::value::Data;

verus! {

/// A value that the decoder can produce when `room` further levels of nesting are
/// allowed: integers within ±(2^64 - 1) (down to -2^64), finite floats, UTF-8 text,
/// links that start with a CID, lengths that fit a CBOR argument, and maps whose UTF-8
/// keys are strictly increasing in length-first order.
pub open spec fn canonical_value(d: Data, room: nat) -> bool
    decreases d,
{
    match d {
        Data::Integer(i) => -(U64_MAX + 1) <= i <= U64_MAX,
        Data::Float(bits) => f64_finite(bits),
        Data::Text(t) => valid_utf8(t) && t.len() <= U64_MAX,
        Data::Bytes(x) => x.len() <= U64_MAX,
        Data::Link(c) => 0 < c.len() < U64_MAX && cid_prefix(c) is Some,
        Data::List(items) => items.len() <= U64_MAX && forall|i: int|
            #![trigger items[i]]
            0 <= i < items.len() ==> room > 0 && canonical_value(items[i], (room - 1) as nat),
        Data::Dict(es) => es.len() <= U64_MAX && forall|i: int|
            #![trigger es[i]]
            0 <= i < es.len() ==> {
                &&& room > 0
                &&& valid_utf8(es[i].0)
                &&& es[i].0.len() <= U64_MAX
                &&& canonical_value(es[i].1, (room - 1) as nat)
                &&& (i > 0 ==> key_less(es[i - 1].0, es[i].0))
            },
        _ => true,
    }
}

/// The indices `0..n` in order.
pub open spec fn identity(n: nat) -> Seq<int> {
    Seq::new(n, |i: int| i)
}

proof fn lemma_sorted_pairwise(ks: Seq<Seq<u8>>)
    requires
        forall|i: int| 0 < i < ks.len() ==> key_less(ks[i - 1], #[trigger] ks[i]),
    ensures
        forall|i: int, j: int| 0 <= i < j < ks.len() ==> key_less(ks[i], ks[j]),
    decreases ks.len(),
{
    if ks.len() > 0 {
        let t = ks.drop_last();
        lemma_sorted_pairwise(t);
        assert forall|i: int, j: int| 0 <= i < j < ks.len() implies key_less(ks[i], ks[j]) by {
            if j < ks.len() - 1 {
                assert(key_less(t[i], t[j]));
            } else if i < j - 1 {
                assert(key_less(t[i], t[j - 1]));
                lemma_key_order(ks[i], ks[j - 1], ks[j]);
            }
        }
    }
}

pub proof fn lemma_sort_sorted(ks: Seq<Seq<u8>>, n: nat)
    requires
        n <= ks.len(),
        forall|i: int, j: int| 0 <= i < j < ks.len() ==> key_less(ks[i], ks[j]),
    ensures
        sort_order(ks, n) == identity(n),
    decreases n,
{
    if n > 0 {
        lemma_sort_sorted(ks, (n - 1) as nat);
        let o = identity((n - 1) as nat);
        assert forall|i: int| 0 <= i < n - 1 implies !key_less(ks[n - 1], ks[o[i]]) by {
            lemma_key_order(ks[i], ks[n - 1], ks[i]);
        }
        lemma_insert_index(o, ks, n - 1, n - 1);
        assert(o.insert(n - 1, n - 1) =~= identity(n));
    }
}

proof fn lemma_dict_sorted(es: Seq<(Seq<u8>, Data)>, room: nat)
    requires
        canonical_value(Data::Dict(es), room),
    ensures
        keys_unique(keys_of(es)),
        sort_order(keys_of(es), es.len()) == identity(es.len()),
{
    let ks = keys_of(es);
    assert forall|i: int| 0 < i < ks.len() implies key_less(ks[i - 1], #[trigger] ks[i]) by {
        assert(key_less(es[i - 1].0, es[i].0));
    }
    lemma_sorted_pairwise(ks);
    assert forall|i: int, j: int| 0 <= i < j < ks.len() implies ks[i] != ks[j] by {
        lemma_key_order(ks[i], ks[j], ks[i]);
    }
    lemma_sort_sorted(ks, es.len());
}

/// Every canonical value encodes.
pub proof fn lemma_enc_ok(d: Data, room: nat)
    requires
        canonical_value(d, room),
    ensures
        enc(d, false) is Ok,
    decreases d, 0nat,
{
    match d {
        Data::List(items) => lemma_enc_list_ok(items, 0, room),
        Data::Dict(es) => {
            lemma_dict_sorted(es, room);
            lemma_enc_entries_ok(es, 0, room);
        },
        _ => {},
    }
}

proof fn lemma_enc_list_ok(items: Seq<Data>, k: nat, room: nat)
    requires
        canonical_value(Data::List(items), room),
    ensures
        enc_list(items, k, false) is Ok,
    decreases items, (items.len() - k) as nat,
{
    if k < items.len() {
        lemma_enc_ok(items[k as int], (room - 1) as nat);
        lemma_enc_list_ok(items, k + 1, room);
    }
}

proof fn lemma_enc_entries_ok(es: Seq<(Seq<u8>, Data)>, k: nat, room: nat)
    requires
        canonical_value(Data::Dict(es), room),
    ensures
        enc_entries(es, identity(es.len()), k, false) is Ok,
    decreases es, (es.len() - k) as nat,
{
    if k < es.len() {
        assert(identity(es.len())[k as int] == k);
        lemma_enc_ok(es[k as int].1, (room - 1) as nat);
        lemma_enc_entries_ok(es, k + 1, room);
    }
}

/// `x` stands in `b` at `pos`.
pub open spec fn at(b: Seq<u8>, pos: int, x: Seq<u8>) -> bool {
    0 <= pos && pos + x.len() <= b.len() && b.subrange(pos, pos + x.len()) == x
}

proof fn lemma_at_split(b: Seq<u8>, pos: int, x: Seq<u8>, y: Seq<u8>)
    requires
        at(b, pos, x + y),
    ensures
        at(b, pos, x),
        at(b, pos + x.len(), y),
{
    let s = b.subrange(pos, pos + (x + y).len());
    assert forall|k: int| 0 <= k < x.len() implies b.subrange(pos, pos + x.len())[k] == x[k] by {
        assert(s[k] == (x + y)[k]);
    }
    assert(b.subrange(pos, pos + x.len()) =~= x);
    assert forall|k: int| 0 <= k < y.len() implies b.subrange(
        pos + x.len(),
        pos + x.len() + y.len(),
    )[k] == y[k] by {
        assert(s[x.len() + k] == (x + y)[x.len() + k]);
    }
    assert(b.subrange(pos + x.len(), pos + x.len() + y.len()) =~= y);
}

proof fn lemma_read_head(b: Seq<u8>, pos: int, major: u8, arg: nat)
    requires
        major < 8,
        arg <= U64_MAX,
        at(b, pos, enc_head(major, arg)),
    ensures
        major_of(b[pos]) == major,
        info_of(b[pos]) < 28,
        read_arg(b, pos) == Ok::<(nat, int), ErrorKind>((arg, pos + enc_head(major, arg).len())),
{
    let h = enc_head(major, arg);
    let m = major as nat * 32;
    assert(b[pos] == h[0]);
    lemma_pow256_facts();
    let w: nat = if arg < 24 {
        0
    } else if arg < 0x100 {
        1
    } else if arg < 0x10000 {
        2
    } else if arg < 0x1_0000_0000 {
        4
    } else {
        8
    };
    let info: nat = if arg < 24 {
        arg
    } else if arg < 0x100 {
        24
    } else if arg < 0x10000 {
        25
    } else if arg < 0x1_0000_0000 {
        26
    } else {
        27
    };
    assert(h[0] == (m + info) as u8);
    assert((m + info) / 32 == major as nat && (m + info) % 32 == info) by (nonlinear_arith)
        requires
            m == major as nat * 32,
            info < 32,
    ;
    if w > 0 {
        lemma_be_round_trip(arg, w);
        assert(h =~= seq![h[0]] + be_bytes(arg, w));
        lemma_at_split(b, pos, seq![h[0]], be_bytes(arg, w));
    }
}

#[verifier::spinoff_prover]
#[verifier::rlimit(100)]
proof fn lemma_parse_enc(d: Data, b: Seq<u8>, pos: int, depth: nat, limit: nat)
    requires
        depth <= limit,
        canonical_value(d, (limit - depth) as nat),
        enc(d, false) is Ok,
        at(b, pos, enc(d, false)->Ok_0),
    ensures
        parse_item(b, pos, depth, limit) == Ok::<(Data, int), ErrorKind>(
            (d, pos + enc(d, false)->Ok_0.len()),
        ),
    decreases d, 0nat,
{
    let x = enc(d, false)->Ok_0;
    let room = (limit - depth) as nat;
    match d {
        Data::Null => {
            assert(b[pos] == x[0]);
        },
        Data::Bool(v) => {
            assert(b[pos] == x[0]);
        },
        Data::Integer(i) => {
            if i >= 0 {
                lemma_read_head(b, pos, 0, i as nat);
            } else {
                lemma_read_head(b, pos, 1, (-1 - i) as nat);
            }
        },
        Data::Float(bits) => {
            lemma_pow256_facts();
            lemma_be_round_trip(bits as nat, 8);
            lemma_at_split(b, pos, seq![0xfbu8], be_bytes(bits as nat, 8));
            assert(b[pos] == x[0]);
        },
        Data::Text(t) => {
            lemma_at_split(b, pos, enc_head(3, t.len()), t);
            lemma_read_head(b, pos, 3, t.len());
        },
        Data::Bytes(v) => {
            lemma_at_split(b, pos, enc_head(2, v.len()), v);
            lemma_read_head(b, pos, 2, v.len());
        },
        Data::Link(c) => {
            let h = enc_head(2, c.len() + 1);
            let tail = seq![0u8] + c;
            assert(x =~= seq![0xd8u8, 0x2au8] + (h + tail));
            lemma_at_split(b, pos, seq![0xd8u8, 0x2au8], h + tail);
            lemma_at_split(b, pos + 2, h, tail);
            lemma_read_head(b, pos + 2, 2, c.len() + 1);
            assert(b[pos] == 0xd8u8);
            assert(b.subrange(pos + 1, pos + 2) =~= seq![0x2au8]);
            reveal_with_fuel(be_value, 2);
            assert(be_value(seq![0x2au8]) == 42);
            assert(tail.drop_first() =~= c);
        },
        Data::List(items) => {
            let body = enc_list(items, 0, false)->Ok_0;
            lemma_at_split(b, pos, enc_head(4, items.len()), body);
            lemma_read_head(b, pos, 4, items.len());
            lemma_parse_list_enc(items, 0, b, pos + enc_head(4, items.len()).len(), depth, limit);
            assert(items.subrange(0, items.len() as int) =~= items);
        },
        Data::Dict(es) => {
            lemma_dict_sorted(es, room);
            let body = enc_entries(es, identity(es.len()), 0, false)->Ok_0;
            lemma_at_split(b, pos, enc_head(5, es.len()), body);
            lemma_read_head(b, pos, 5, es.len());
            lemma_parse_entries_enc(es, 0, b, pos + enc_head(5, es.len()).len(), depth, limit);
            assert(es.subrange(0, es.len() as int) =~= es);
        },
    }
}

proof fn lemma_parse_list_enc(items: Seq<Data>, k: nat, b: Seq<u8>, pos: int, depth: nat, limit: nat)
    requires
        depth <= limit,
        canonical_value(Data::List(items), (limit - depth) as nat),
        k <= items.len(),
        enc_list(items, k, false) is Ok,
        at(b, pos, enc_list(items, k, false)->Ok_0),
    ensures
        parse_list(b, pos, (items.len() - k) as nat, depth, limit) == Ok::<(Seq<Data>, int), ErrorKind>(
            (items.subrange(k as int, items.len() as int), pos + enc_list(items, k, false)->Ok_0.len()),
        ),
    decreases items, (items.len() - k) as nat,
{
    if k < items.len() {
        let d = items[k as int];
        let x = enc(d, false)->Ok_0;
        let rest = enc_list(items, k + 1, false)->Ok_0;
        lemma_at_split(b, pos, x, rest);
        lemma_parse_enc(d, b, pos, depth + 1, limit);
        lemma_parse_list_enc(items, k + 1, b, pos + x.len(), depth, limit);
        assert(items.subrange(k as int, items.len() as int) =~= seq![d] + items.subrange(
            k + 1 as int,
            items.len() as int,
        ));
    } else {
        assert(items.subrange(k as int, items.len() as int) =~= Seq::<Data>::empty());
    }
}

proof fn lemma_parse_entries_enc(
    es: Seq<(Seq<u8>, Data)>,
    k: nat,
    b: Seq<u8>,
    pos: int,
    depth: nat,
    limit: nat,
)
    requires
        depth <= limit,
        canonical_value(Data::Dict(es), (limit - depth) as nat),
        k <= es.len(),
        enc_entries(es, identity(es.len()), k, false) is Ok,
        at(b, pos, enc_entries(es, identity(es.len()), k, false)->Ok_0),
    ensures
        parse_entries(
            b,
            pos,
            (es.len() - k) as nat,
            if k == 0 {
                None
            } else {
                Some(es[k - 1].0)
            },
            depth,
            limit,
        ) == Ok::<(Seq<(Seq<u8>, Data)>, int), ErrorKind>(
            (
                es.subrange(k as int, es.len() as int),
                pos + enc_entries(es, identity(es.len()), k, false)->Ok_0.len(),
            ),
        ),
    decreases es, (es.len() - k) as nat,
{
    if k < es.len() {
        assert(identity(es.len())[k as int] == k);
        let key = es[k as int].0;
        let d = es[k as int].1;
        let x = enc(d, false)->Ok_0;
        let rest = enc_entries(es, identity(es.len()), k + 1, false)->Ok_0;
        let h = enc_head(3, key.len());
        let whole = enc_entries(es, identity(es.len()), k, false)->Ok_0;
        assert(whole =~= h + (key + (x + rest)));
        lemma_at_split(b, pos, h, key + (x + rest));
        lemma_at_split(b, pos + h.len(), key, x + rest);
        lemma_at_split(b, pos + h.len() + key.len(), x, rest);
        lemma_read_head(b, pos, 3, key.len());
        lemma_parse_enc(d, b, pos + h.len() + key.len(), depth + 1, limit);
        lemma_parse_entries_enc(es, k + 1, b, pos + h.len() + key.len() + x.len(), depth, limit);
        assert(es.subrange(k as int, es.len() as int) =~= seq![(key, d)] + es.subrange(
            k + 1 as int,
            es.len() as int,
        ));
    } else {
        assert(es.subrange(k as int, es.len() as int) =~= Seq::<(Seq<u8>, Data)>::empty());
    }
}

/// Decoding the encoding of a value gives the value back.
///
/// This holds of every value that the decoder itself could produce (see
/// `canonical_value`), with `limit` levels of nesting allowed.
pub proof fn law_decode_encode(d: Data, limit: nat)
    requires
        canonical_value(d, limit),
    ensures
        enc(d, false) is Ok,
        decode_spec(enc(d, false)->Ok_0, limit) == Ok::<Data, ErrorKind>(d),
{
    lemma_enc_ok(d, limit);
    let x = enc(d, false)->Ok_0;
    assert(x.subrange(0, x.len() as int) =~= x);
    lemma_parse_enc(d, x, 0, 0, limit);
}

/// The canonical DAG-CBOR byte strings: the encodings of canonical values.
pub open spec fn is_canonical_cbor(b: Seq<u8>, limit: nat) -> bool {
    exists|d: Data| canonical_value(d, limit) && enc(d, false) == Ok::<Seq<u8>, ErrorKind>(b)
}

/// Encoding what a canonical byte string decodes to gives the same bytes back.
pub proof fn law_encode_decode(b: Seq<u8>, limit: nat)
    requires
        is_canonical_cbor(b, limit),
    ensures
        decode_spec(b, limit) matches Ok(d) && enc(d, false) == Ok::<Seq<u8>, ErrorKind>(b),
{
    let d = choose|d: Data| canonical_value(d, limit) && enc(d, false) == Ok::<Seq<u8>, ErrorKind>(b);
    law_decode_encode(d, limit);
}

proof fn lemma_read_arg_bound(b: Seq<u8>, pos: int)
    ensures
        read_arg(b, pos) matches Ok((a, _)) ==> a <= U64_MAX,
{
    if 0 <= pos < b.len() {
        let info = info_of(b[pos]);
        if 24 <= info < 28 {
            let w = arg_width(info);
            if pos + 1 + w <= b.len() {
                let s = b.subrange(pos + 1, pos + 1 + w);
                lemma_be_value_bound(s);
                lemma_pow256_mono(w, 8);
                lemma_pow256_facts();
            }
        }
    }
}

proof fn lemma_item_canonical(b: Seq<u8>, pos: int, depth: nat, limit: nat)
    ensures
        parse_item(b, pos, depth, limit) matches Ok((d, _)) ==> depth <= limit && canonical_value(
            d,
            (limit - depth) as nat,
        ),
    decreases (limit + 1 - depth) as nat, 0nat,
{
    if depth <= limit && 0 <= pos < b.len() {
        let major = major_of(b[pos]);
        if major == 7 {
            let info = info_of(b[pos]);
            if info == 26 && pos + 5 <= b.len() {
                let bits = be_value(b.subrange(pos + 1, pos + 5)) as u32;
                if crate::cbor::f32_finite(bits) {
                    lemma_widen_finite(bits);
                }
            }
            assert(parse_item(b, pos, depth, limit) == parse_simple(b, pos));
        } else {
            lemma_read_arg_bound(b, pos);
            if let Ok((arg, p)) = read_arg(b, pos) {
                if major == 4 {
                    lemma_list_canonical(b, p, arg, depth, limit);
                    if let Ok((items, _)) = parse_list(b, p, arg, depth, limit) {
                        if items.len() > 0 {
                            assert(canonical_value(items[0], (limit - depth - 1) as nat));
                            assert((limit - depth) as nat > 0);
                        }
                    }
                } else if major == 5 {
                    lemma_entries_canonical(b, p, arg, None, depth, limit);
                    if let Ok((es, _)) = parse_entries(b, p, arg, None, depth, limit) {
                        let room = (limit - depth) as nat;
                        if es.len() > 0 {
                            assert(valid_utf8(es[0].0));
                            assert(room > 0);
                        }
                        assert forall|i: int| 0 <= i < es.len() implies {
                            &&& room > 0
                            &&& valid_utf8(#[trigger] es[i].0)
                            &&& es[i].0.len() <= U64_MAX
                            &&& canonical_value(es[i].1, (room - 1) as nat)
                            &&& (i > 0 ==> key_less(es[i - 1].0, es[i].0))
                        } by {
                            assert(valid_utf8(es[i].0));
                        }
                        assert(canonical_value(Data::Dict(es), room));
                    }
                } else if major == 6 && 0 <= p < b.len() {
                    lemma_read_arg_bound(b, p);
                }
            }
        }
    }
}

proof fn lemma_list_canonical(b: Seq<u8>, pos: int, n: nat, depth: nat, limit: nat)
    ensures
        parse_list(b, pos, n, depth, limit) matches Ok((items, _)) ==> items.len() == n && forall|i: int|
            0 <= i < items.len() ==> depth < limit && canonical_value(
                #[trigger] items[i],
                (limit - depth - 1) as nat,
            ),
    decreases (limit - depth) as nat, n + 1,
{
    if n > 0 {
        lemma_item_canonical(b, pos, depth + 1, limit);
        if let Ok((d, p)) = parse_item(b, pos, depth + 1, limit) {
            lemma_list_canonical(b, p, (n - 1) as nat, depth, limit);
            if let Ok((ds, q)) = parse_list(b, p, (n - 1) as nat, depth, limit) {
                let items = seq![d] + ds;
                assert forall|i: int| 0 <= i < items.len() implies depth < limit && canonical_value(
                    #[trigger] items[i],
                    (limit - depth - 1) as nat,
                ) by {
                    if i > 0 {
                        assert(items[i] == ds[i - 1]);
                    }
                }
            }
        }
    }
}

proof fn lemma_entries_canonical(
    b: Seq<u8>,
    pos: int,
    n: nat,
    prev: Option<Seq<u8>>,
    depth: nat,
    limit: nat,
)
    ensures
        parse_entries(b, pos, n, prev, depth, limit) matches Ok((es, _)) ==> {
            &&& es.len() == n
            &&& forall|i: int|
                0 <= i < es.len() ==> {
                    &&& depth < limit
                    &&& valid_utf8(#[trigger] es[i].0)
                    &&& es[i].0.len() <= U64_MAX
                    &&& canonical_value(es[i].1, (limit - depth - 1) as nat)
                    &&& (i > 0 ==> key_less(es[i - 1].0, es[i].0))
                }
            &&& (n > 0 && prev is Some) ==> key_less(prev->Some_0, es[0].0)
        },
    decreases (limit - depth) as nat, n + 1,
{
    if n > 0 {
        if pos >= 0 && pos < b.len() {
            lemma_read_arg_bound(b, pos);
        }
        if let Ok((k, p)) = parse_key(b, pos) {
            lemma_item_canonical(b, p, depth + 1, limit);
            if let Ok((v, q)) = parse_item(b, p, depth + 1, limit) {
                lemma_entries_canonical(b, q, (n - 1) as nat, Some(k), depth, limit);
                if let Ok((rest, r)) = parse_entries(b, q, (n - 1) as nat, Some(k), depth, limit) {
                    let es = seq![(k, v)] + rest;
                    if parse_entries(b, pos, n, prev, depth, limit) is Ok {
                        assert(valid_utf8(k));
                        assert(es[0].0 == k);
                        assert forall|i: int| 0 <= i < es.len() implies {
                            &&& depth < limit
                            &&& valid_utf8(#[trigger] es[i].0)
                            &&& es[i].0.len() <= U64_MAX
                            &&& canonical_value(es[i].1, (limit - depth - 1) as nat)
                            &&& (i > 0 ==> key_less(es[i - 1].0, es[i].0))
                        } by {
                            if i > 0 {
                                assert(es[i] == rest[i - 1]);
                                assert(es[i].0 == rest[i - 1].0);
                                if i > 1 {
                                    assert(es[i - 1] == rest[i - 2]);
                                    assert(es[i - 1].0 == rest[i - 2].0);
                                }
                            }
                        }
                    }
                }
            }
        }
    }
}

/// Whatever the decoder accepts obeys every rule of the format: integers in range,
/// finite floats, UTF-8 text, links that are CIDs, map keys that are UTF-8 text in
/// strictly increasing length-first order (so unique), and nesting within `limit`.
/// Together with `decode_spec` failing on indefinite lengths, other tags and other
/// simple values, input that breaks a rule is never accepted.
pub proof fn law_decoded_is_canonical(b: Seq<u8>, limit: nat)
    ensures
        decode_spec(b, limit) matches Ok(d) ==> canonical_value(d, limit),
{
    lemma_item_canonical(b, 0, 0, limit);
}

} // verus!
