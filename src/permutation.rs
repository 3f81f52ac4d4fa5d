use vstd::prelude::*;

use crate::cbor::{f64_finite, key_less};
use crate::cid_link::cid_prefix;
use crate::decode::decode_spec;
use crate::encode::{enc, enc_entries, enc_list, insert_index, keys_of, keys_unique, sort_order, U64_MAX};
use crate::error::ErrorKind;
use crate::laws::{canonical_value, identity, law_decode_encode, lemma_sort_sorted};
use crate::order::lemma_key_order;
use crate::value::Data;
use vstd::utf8::valid_utf8;

verus! {

/// The keys of `ks` taken in the order `ord` are strictly increasing.
pub open spec fn sorted_along(ord: Seq<int>, ks: Seq<Seq<u8>>) -> bool {
    forall|a: int, b: int| 0 <= a < b < ord.len() ==> key_less(ks[ord[a]], ks[ord[b]])
}

/// A strictly increasing sequence of keys.
pub open spec fn strictly_sorted(s: Seq<Seq<u8>>) -> bool {
    forall|a: int, b: int| 0 <= a < b < s.len() ==> key_less(s[a], s[b])
}

proof fn lemma_insert_props(ord: Seq<int>, ks: Seq<Seq<u8>>, j: int)
    requires
        sorted_along(ord, ks),
        forall|a: int| 0 <= a < ord.len() ==> ks[ord[a]] != ks[j],
    ensures
        insert_index(ord, ks, j).len() == ord.len() + 1,
        forall|x: int| #[trigger] insert_index(ord, ks, j).contains(x) <==> (ord.contains(x) || x == j),
        sorted_along(insert_index(ord, ks, j), ks),
    decreases ord.len(),
{
    let r = insert_index(ord, ks, j);
    if ord.len() == 0 {
        assert(r =~= seq![j]);
        assert forall|x: int| r.contains(x) <==> (ord.contains(x) || x == j) by {
            if x == j {
                assert(r[0] == j);
            }
        }
    } else if key_less(ks[j], ks[ord[0]]) {
        assert(r =~= seq![j] + ord);
        assert forall|x: int| r.contains(x) <==> (ord.contains(x) || x == j) by {
            if r.contains(x) {
                let c = choose|c: int| 0 <= c < r.len() && r[c] == x;
                if c > 0 {
                    assert(ord[c - 1] == x);
                }
            }
            if ord.contains(x) {
                let c = choose|c: int| 0 <= c < ord.len() && ord[c] == x;
                assert(r[c + 1] == x);
            }
            if x == j {
                assert(r[0] == j);
            }
        }
        assert forall|a: int, b: int| 0 <= a < b < r.len() implies key_less(ks[r[a]], ks[r[b]]) by {
            if a == 0 {
                if b > 1 {
                    lemma_key_order(ks[j], ks[ord[0]], ks[ord[b - 1]]);
                }
            } else {
                assert(r[a] == ord[a - 1] && r[b] == ord[b - 1]);
            }
        }
    } else {
        let t = ord.drop_first();
        assert forall|a: int, b: int| 0 <= a < b < t.len() implies key_less(ks[t[a]], ks[t[b]]) by {
            assert(t[a] == ord[a + 1] && t[b] == ord[b + 1]);
        }
        assert forall|a: int| 0 <= a < t.len() implies ks[t[a]] != ks[j] by {
            assert(t[a] == ord[a + 1]);
        }
        lemma_insert_props(t, ks, j);
        let rec = insert_index(t, ks, j);
        assert(r =~= seq![ord[0]] + rec);
        lemma_key_order(ks[j], ks[ord[0]], ks[j]);
        assert(key_less(ks[ord[0]], ks[j]));
        assert forall|x: int| r.contains(x) <==> (ord.contains(x) || x == j) by {
            if r.contains(x) {
                let c = choose|c: int| 0 <= c < r.len() && r[c] == x;
                if c == 0 {
                    assert(ord[0] == x);
                } else {
                    assert(rec[c - 1] == x);
                    assert(rec.contains(x));
                    if t.contains(x) {
                        let e = choose|e: int| 0 <= e < t.len() && t[e] == x;
                        assert(ord[e + 1] == x);
                    }
                }
            }
            if ord.contains(x) {
                let c = choose|c: int| 0 <= c < ord.len() && ord[c] == x;
                if c == 0 {
                    assert(r[0] == x);
                } else {
                    assert(t[c - 1] == x);
                    assert(t.contains(x));
                    assert(rec.contains(x));
                    let e = choose|e: int| 0 <= e < rec.len() && rec[e] == x;
                    assert(r[e + 1] == x);
                }
            }
            if x == j {
                assert(rec.contains(j));
                let e = choose|e: int| 0 <= e < rec.len() && rec[e] == j;
                assert(r[e + 1] == j);
            }
        }
        assert forall|a: int, b: int| 0 <= a < b < r.len() implies key_less(ks[r[a]], ks[r[b]]) by {
            if a == 0 {
                let y = rec[b - 1];
                assert(rec.contains(y));
                if y != j {
                    let e = choose|e: int| 0 <= e < t.len() && t[e] == y;
                    assert(ord[e + 1] == y);
                }
            } else {
                assert(r[a] == rec[a - 1] && r[b] == rec[b - 1]);
            }
        }
    }
}

pub proof fn lemma_sort_props(ks: Seq<Seq<u8>>, n: nat)
    requires
        n <= ks.len(),
        keys_unique(ks),
    ensures
        sort_order(ks, n).len() == n,
        forall|x: int| #[trigger] sort_order(ks, n).contains(x) <==> 0 <= x < n,
        sorted_along(sort_order(ks, n), ks),
    decreases n,
{
    if n == 0 {
        assert forall|x: int| sort_order(ks, n).contains(x) <==> 0 <= x < n by {
            assert(sort_order(ks, n).len() == 0);
        }
    } else {
        let o = sort_order(ks, (n - 1) as nat);
        lemma_sort_props(ks, (n - 1) as nat);
        assert forall|a: int| 0 <= a < o.len() implies ks[o[a]] != ks[n - 1] by {
            assert(o.contains(o[a]));
        }
        lemma_insert_props(o, ks, n - 1);
        assert forall|x: int| #[trigger] sort_order(ks, n).contains(x) <==> 0 <= x < n by {
            assert(o.contains(x) <==> 0 <= x < n - 1);
        }
    }
}

proof fn lemma_sorted_same_set(s: Seq<Seq<u8>>, t: Seq<Seq<u8>>)
    requires
        strictly_sorted(s),
        strictly_sorted(t),
        forall|x: Seq<u8>| s.contains(x) <==> t.contains(x),
    ensures
        s == t,
    decreases s.len(),
{
    if s.len() == 0 {
        if t.len() > 0 {
            assert(t.contains(t[0]));
        }
        assert(s =~= t);
    } else {
        assert(s.contains(s[0]));
        let j = choose|j: int| 0 <= j < t.len() && t[j] == s[0];
        assert(t.contains(t[0]));
        let i = choose|i: int| 0 <= i < s.len() && s[i] == t[0];
        if j > 0 {
            lemma_key_order(s[0], s[i], s[0]);
            assert(key_less(t[0], t[j]));
        }
        assert(s[0] == t[0]);
        let s1 = s.drop_first();
        let t1 = t.drop_first();
        assert forall|x: Seq<u8>| s1.contains(x) <==> t1.contains(x) by {
            if s1.contains(x) {
                let c = choose|c: int| 0 <= c < s1.len() && s1[c] == x;
                assert(s[c + 1] == x);
                assert(key_less(s[0], s[c + 1]));
                lemma_key_order(x, x, x);
                assert(t.contains(x));
                let e = choose|e: int| 0 <= e < t.len() && t[e] == x;
                assert(e != 0);
                assert(t1[e - 1] == x);
            }
            if t1.contains(x) {
                let c = choose|c: int| 0 <= c < t1.len() && t1[c] == x;
                assert(t[c + 1] == x);
                assert(key_less(t[0], t[c + 1]));
                lemma_key_order(x, x, x);
                assert(s.contains(x));
                let e = choose|e: int| 0 <= e < s.len() && s[e] == x;
                assert(e != 0);
                assert(s1[e - 1] == x);
            }
        }
        lemma_sorted_same_set(s1, t1);
        assert(s =~= seq![s[0]] + s1);
        assert(t =~= seq![t[0]] + t1);
    }
}

proof fn lemma_enc_entries_same(
    es: Seq<(Seq<u8>, Data)>,
    o1: Seq<int>,
    es2: Seq<(Seq<u8>, Data)>,
    o2: Seq<int>,
    k: nat,
    bytes_as_links: bool,
)
    requires
        o1.len() == o2.len(),
        forall|r: int|
            0 <= r < o1.len() ==> 0 <= o1[r] < es.len() && 0 <= o2[r] < es2.len() && es[o1[r]]
                == es2[o2[r]],
    ensures
        enc_entries(es, o1, k, bytes_as_links) == enc_entries(es2, o2, k, bytes_as_links),
    decreases o1.len() - k,
{
    if k < o1.len() {
        lemma_enc_entries_same(es, o1, es2, o2, k + 1, bytes_as_links);
    }
}

/// Reordering the entries of a map does not change its encoding.
///
/// `es2` is `es` permuted by `p`, whose inverse is `q`.
pub proof fn law_encode_permutation(
    es: Seq<(Seq<u8>, Data)>,
    es2: Seq<(Seq<u8>, Data)>,
    p: Seq<int>,
    q: Seq<int>,
    bytes_as_links: bool,
)
    requires
        es2.len() == es.len(),
        p.len() == es.len(),
        q.len() == es.len(),
        forall|i: int| 0 <= i < es.len() ==> 0 <= #[trigger] p[i] < es.len() && q[p[i]] == i && es2[i] == es[p[i]],
        forall|j: int| 0 <= j < es.len() ==> 0 <= #[trigger] q[j] < es.len() && p[q[j]] == j,
    ensures
        enc(Data::Dict(es), bytes_as_links) == enc(Data::Dict(es2), bytes_as_links),
{
    let n = es.len();
    let ks = keys_of(es);
    let ks2 = keys_of(es2);
    assert forall|i: int| 0 <= i < n implies ks2[i] == ks[p[i]] by {}
    assert forall|j: int| 0 <= j < n implies ks[j] == ks2[q[j]] by {
        assert(es2[q[j]] == es[p[q[j]]]);
    }
    if keys_unique(ks) {
        assert forall|i: int, j: int| 0 <= i < j < n implies ks2[i] != ks2[j] by {
            if p[i] < p[j] {
                assert(ks[p[i]] != ks[p[j]]);
            } else if p[j] < p[i] {
                assert(ks[p[j]] != ks[p[i]]);
            } else {
                assert(q[p[i]] == q[p[j]]);
            }
        }
    }
    if keys_unique(ks2) {
        assert forall|i: int, j: int| 0 <= i < j < n implies ks[i] != ks[j] by {
            if q[i] < q[j] {
                assert(ks2[q[i]] != ks2[q[j]]);
            } else if q[j] < q[i] {
                assert(ks2[q[j]] != ks2[q[i]]);
            } else {
                assert(p[q[i]] == p[q[j]]);
            }
        }
    }
    if keys_unique(ks) {
        let o1 = sort_order(ks, n);
        let o2 = sort_order(ks2, n);
        lemma_sort_props(ks, n);
        lemma_sort_props(ks2, n);
        let s1 = Seq::new(n, |r: int| ks[o1[r]]);
        let s2 = Seq::new(n, |r: int| ks2[o2[r]]);
        assert forall|r: int| 0 <= r < n implies 0 <= #[trigger] o1[r] < n by {
            assert(o1.contains(o1[r]));
        }
        assert forall|r: int| 0 <= r < n implies 0 <= #[trigger] o2[r] < n by {
            assert(o2.contains(o2[r]));
        }
        assert forall|x: Seq<u8>| s1.contains(x) <==> s2.contains(x) by {
            if s1.contains(x) {
                let r = choose|r: int| 0 <= r < s1.len() && s1[r] == x;
                let i = o1[r];
                let i2 = q[i];
                assert(ks2[i2] == x);
                assert(o2.contains(i2));
                let r2 = choose|r2: int| 0 <= r2 < o2.len() && o2[r2] == i2;
                assert(s2[r2] == x);
            }
            if s2.contains(x) {
                let r = choose|r: int| 0 <= r < s2.len() && s2[r] == x;
                let i2 = o2[r];
                let i = p[i2];
                assert(ks[i] == x);
                assert(o1.contains(i));
                let r1 = choose|r1: int| 0 <= r1 < o1.len() && o1[r1] == i;
                assert(s1[r1] == x);
            }
        }
        lemma_sorted_same_set(s1, s2);
        assert forall|r: int| 0 <= r < n implies es[o1[r]] == es2[o2[r]] by {
            assert(s1[r] == s2[r]);
            let i = p[o2[r]];
            assert(ks[i] == ks[o1[r]]);
            if i != o1[r] {
                if i < o1[r] {
                    assert(ks[i] != ks[o1[r]]);
                } else {
                    assert(ks[o1[r]] != ks[i]);
                }
            }
        }
        lemma_enc_entries_same(es, o1, es2, o2, 0, bytes_as_links);
    }
}

/// `d` with the entries of every map put in length-first key order, at every depth.
/// A map with a repeated key, which cannot be encoded, is left as it is.
pub open spec fn canon(d: Data) -> Data
    decreases d,
{
    match d {
        Data::List(items) => Data::List(
            Seq::new(
                items.len(),
                |i: int|
                    if 0 <= i < items.len() {
                        canon(items[i])
                    } else {
                        Data::Null
                    },
            ),
        ),
        Data::Dict(es) => {
            if !keys_unique(keys_of(es)) {
                d
            } else {
                let o = sort_order(keys_of(es), es.len());
                Data::Dict(
                    Seq::new(
                        es.len(),
                        |r: int|
                            if 0 <= r < o.len() && 0 <= o[r] < es.len() {
                                (es[o[r]].0, canon(es[o[r]].1))
                            } else {
                                (Seq::empty(), Data::Null)
                            },
                    ),
                )
            }
        },
        _ => d,
    }
}

/// A valid value when `room` further levels of nesting are allowed: integers within
/// ±(2^64 - 1) (down to -2^64), finite floats, UTF-8 text, links that start with a
/// CID, lengths that fit a CBOR argument, and maps with unique UTF-8 keys, in any order.
pub open spec fn valid_value(d: Data, room: nat) -> bool
    decreases d,
{
    match d {
        Data::Integer(i) => -(U64_MAX + 1) <= i <= U64_MAX,
        Data::Float(bits) => f64_finite(bits),
        Data::Text(t) => valid_utf8(t) && t.len() <= U64_MAX,
        Data::Bytes(x) => x.len() <= U64_MAX,
        Data::Link(c) => 0 < c.len() < U64_MAX && cid_prefix(c) is Some,
        Data::List(items) => items.len() <= U64_MAX && forall|i: int|
            #![trigger items[i]]
            0 <= i < items.len() ==> room > 0 && valid_value(items[i], (room - 1) as nat),
        Data::Dict(es) => es.len() <= U64_MAX && keys_unique(keys_of(es)) && forall|i: int|
            #![trigger es[i]]
            0 <= i < es.len() ==> {
                &&& room > 0
                &&& valid_utf8(es[i].0)
                &&& es[i].0.len() <= U64_MAX
                &&& valid_value(es[i].1, (room - 1) as nat)
            },
        _ => true,
    }
}

proof fn lemma_canon_dict_facts(es: Seq<(Seq<u8>, Data)>)
    requires
        keys_unique(keys_of(es)),
    ensures
        ({
            let o = sort_order(keys_of(es), es.len());
            &&& o.len() == es.len()
            &&& forall|r: int| 0 <= r < o.len() ==> 0 <= #[trigger] o[r] < es.len()
            &&& canon(Data::Dict(es)) matches Data::Dict(es2) && es2.len() == es.len() && (forall|r: int|
                0 <= r < es.len() ==> #[trigger] es2[r] == (es[o[r]].0, canon(es[o[r]].1)))
            &&& forall|a: int, b: int| 0 <= a < b < o.len() ==> key_less(es[o[a]].0, es[o[b]].0)
        }),
{
    let ks = keys_of(es);
    let o = sort_order(ks, es.len());
    lemma_sort_props(ks, es.len());
    assert forall|r: int| 0 <= r < o.len() implies 0 <= #[trigger] o[r] < es.len() by {
        assert(o.contains(o[r]));
    }
    assert forall|a: int, b: int| 0 <= a < b < o.len() implies key_less(es[o[a]].0, es[o[b]].0) by {
        assert(key_less(ks[o[a]], ks[o[b]]));
    }
}

/// Encoding does not see the order of map entries.
pub proof fn lemma_enc_canon(d: Data, bytes_as_links: bool)
    ensures
        enc(d, bytes_as_links) == enc(canon(d), bytes_as_links),
    decreases d, 0nat,
{
    match d {
        Data::List(items) => {
            let ci = canon(d)->List_0;
            lemma_enc_list_canon(items, ci, 0, bytes_as_links);
        },
        Data::Dict(es) => {
            if keys_unique(keys_of(es)) {
                lemma_canon_dict_facts(es);
                let o = sort_order(keys_of(es), es.len());
                let es2 = canon(d)->Dict_0;
                let ks2 = keys_of(es2);
                assert forall|a: int, b: int| 0 <= a < b < ks2.len() implies key_less(ks2[a], ks2[b]) by {
                    assert(es2[a] == (es[o[a]].0, canon(es[o[a]].1)));
                    assert(es2[b] == (es[o[b]].0, canon(es[o[b]].1)));
                }
                assert forall|a: int, b: int| 0 <= a < b < ks2.len() implies ks2[a] != ks2[b] by {
                    lemma_key_order(ks2[a], ks2[b], ks2[a]);
                }
                lemma_sort_sorted(ks2, es2.len());
                lemma_enc_entries_canon(es, o, es2, 0, bytes_as_links);
            }
        },
        _ => {},
    }
}

proof fn lemma_enc_list_canon(items: Seq<Data>, ci: Seq<Data>, k: nat, bytes_as_links: bool)
    requires
        ci.len() == items.len(),
        forall|i: int| 0 <= i < items.len() ==> #[trigger] ci[i] == canon(items[i]),
    ensures
        enc_list(items, k, bytes_as_links) == enc_list(ci, k, bytes_as_links),
    decreases items, (items.len() - k) as nat,
{
    if k < items.len() {
        assert(ci[k as int] == canon(items[k as int]));
        lemma_enc_canon(items[k as int], bytes_as_links);
        lemma_enc_list_canon(items, ci, k + 1, bytes_as_links);
    }
}

proof fn lemma_enc_entries_canon(
    es: Seq<(Seq<u8>, Data)>,
    o: Seq<int>,
    es2: Seq<(Seq<u8>, Data)>,
    k: nat,
    bytes_as_links: bool,
)
    requires
        o.len() == es.len() == es2.len(),
        forall|r: int| 0 <= r < o.len() ==> 0 <= #[trigger] o[r] < es.len(),
        forall|r: int| 0 <= r < es.len() ==> #[trigger] es2[r] == (es[o[r]].0, canon(es[o[r]].1)),
    ensures
        enc_entries(es, o, k, bytes_as_links) == enc_entries(es2, identity(es2.len()), k, bytes_as_links),
    decreases es, (es.len() - k) as nat,
{
    if k < es.len() {
        let j = o[k as int];
        assert(0 <= j < es.len());
        assert(identity(es2.len())[k as int] == k);
        assert(es2[k as int] == (es[j].0, canon(es[j].1)));
        lemma_enc_canon(es[j].1, bytes_as_links);
        lemma_enc_entries_canon(es, o, es2, k + 1, bytes_as_links);
    }
}

/// Putting the maps of a valid value in key order gives a canonical value.
pub proof fn lemma_canon_canonical(d: Data, room: nat)
    requires
        valid_value(d, room),
    ensures
        canonical_value(canon(d), room),
    decreases d,
{
    match d {
        Data::List(items) => {
            let ci = canon(d)->List_0;
            assert(ci.len() == items.len());
            if items.len() > 0 {
                assert(valid_value(items[0], (room - 1) as nat));
                assert(room > 0);
            }
            assert forall|i: int| 0 <= i < ci.len() implies room > 0 && canonical_value(
                #[trigger] ci[i],
                (room - 1) as nat,
            ) by {
                assert(ci[i] == canon(items[i]));
                assert(valid_value(items[i], (room - 1) as nat));
                lemma_canon_canonical(items[i], (room - 1) as nat);
            }
            assert(canon(d) == Data::List(ci));

        },
        Data::Dict(es) => {
            lemma_canon_dict_facts(es);
            let o = sort_order(keys_of(es), es.len());
            let es2 = canon(d)->Dict_0;
            assert forall|r: int| 0 <= r < es2.len() implies {
                &&& room > 0
                &&& valid_utf8(#[trigger] es2[r].0)
                &&& es2[r].0.len() <= U64_MAX
                &&& canonical_value(es2[r].1, (room - 1) as nat)
                &&& (r > 0 ==> key_less(es2[r - 1].0, es2[r].0))
            } by {
                let j = o[r];
                assert(es2[r] == (es[j].0, canon(es[j].1)));
                lemma_canon_canonical(es[j].1, (room - 1) as nat);
                if r > 0 {
                    assert(es2[r - 1] == (es[o[r - 1]].0, canon(es[o[r - 1]].1)));
                }
            }
        },
        _ => {},
    }
}

/// Decoding the encoding of any valid value gives the value back, its maps in
/// length-first key order; a value whose maps are already in that order comes back
/// unchanged (see `law_decode_encode`).
pub proof fn law_decode_encode_any_order(d: Data, limit: nat)
    requires
        valid_value(d, limit),
    ensures
        enc(d, false) is Ok,
        decode_spec(enc(d, false)->Ok_0, limit) == Ok::<Data, ErrorKind>(canon(d)),
{
    lemma_canon_canonical(d, limit);
    law_decode_encode(canon(d), limit);
    lemma_enc_canon(d, false);
}

/// Two values that differ only in the order of the entries of their maps, at any
/// depth, have the same encoding (or fail to encode alike).
pub proof fn law_encode_any_order(d: Data, d2: Data, bytes_as_links: bool)
    requires
        canon(d) == canon(d2),
    ensures
        enc(d, bytes_as_links) == enc(d2, bytes_as_links),
{
    lemma_enc_canon(d, bytes_as_links);
    lemma_enc_canon(d2, bytes_as_links);
}

} // verus!
