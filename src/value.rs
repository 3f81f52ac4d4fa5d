use vstd::prelude::*;

verus! {

/// The mathematical model of an IPLD value.
///
/// Text is held as its UTF-8 bytes, floats as their binary64 bit pattern,
/// and links as the binary CID (without the multibase prefix).
pub ghost enum Data {
    Null,
    Bool(bool),
    Integer(int),
    Float(u64),
    Text(Seq<u8>),
    Bytes(Seq<u8>),
    Link(Seq<u8>),
    List(Seq<Data>),
    Dict(Seq<(Seq<u8>, Data)>),
}

/// An owned IPLD value.
///
/// `Float` holds the bit pattern of an IEEE-754 binary64 number.
/// `Link` holds a binary CID, without the multibase prefix used on the wire.
/// `Dict` holds its entries in the order given; the encoder sorts them.
#[derive(Debug)]
pub enum Value {
    Null,
    Bool(bool),
    Integer(i128),
    Float(u64),
    String(String),
    Bytes(Vec<u8>),
    Link(Vec<u8>),
    List(Vec<Value>),
    Dict(Vec<(String, Value)>),
}

impl View for Value {
    type V = Data;

    open spec fn view(&self) -> Data {
        self.model()
    }
}

impl Value {
    /// The model of this value.
    pub open spec fn model(self) -> Data
        decreases self,
    {
        match self {
            Value::Null => Data::Null,
            Value::Bool(b) => Data::Bool(b),
            Value::Integer(i) => Data::Integer(i as int),
            Value::Float(f) => Data::Float(f),
            Value::String(s) => Data::Text(vstd::utf8::encode_utf8(s@)),
            Value::Bytes(b) => Data::Bytes(b@),
            Value::Link(b) => Data::Link(b@),
            Value::List(l) => Data::List(
                Seq::new(l.len() as nat, |i: int| if 0 <= i < l.len() { l[i].model() } else { Data::Null }),
            ),
            Value::Dict(m) => Data::Dict(
                Seq::new(
                    m.len() as nat,
                    |i: int|
                        if 0 <= i < m.len() {
                            (vstd::utf8::encode_utf8(m[i].0@), m[i].1.model())
                        } else {
                            (Seq::empty(), Data::Null)
                        },
                ),
            ),
        }
    }
}

/// The models of a sequence of values.
pub open spec fn models(vs: Seq<Value>) -> Seq<Data> {
    Seq::new(vs.len(), |i: int| vs[i].model())
}

/// The models of a sequence of map entries: UTF-8 key bytes and value model.
pub open spec fn entry_models(es: Seq<(String, Value)>) -> Seq<(Seq<u8>, Data)> {
    Seq::new(es.len(), |i: int| (vstd::utf8::encode_utf8(es[i].0@), es[i].1.model()))
}

pub proof fn lemma_list_model(l: Vec<Value>)
    ensures
        Value::List(l).model() == Data::List(models(l@)),
{
    let t = Value::List(l).model()->List_0;
    assert(t =~= models(l@));
}

pub proof fn lemma_dict_model(m: Vec<(String, Value)>)
    ensures
        Value::Dict(m).model() == Data::Dict(entry_models(m@)),
{
    let t = Value::Dict(m).model()->Dict_0;
    assert(t =~= entry_models(m@));
}

} // verus!
