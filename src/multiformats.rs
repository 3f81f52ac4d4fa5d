use vstd::prelude::*;

use crate::cid_link::{cid_prefix, read_cid};
use crate::decode::string_from_utf8;
use crate::error::{Error, ErrorKind};

verus! {

/// The parts of a CID: `version`, `codec`, and the multihash `hash_code`,
/// `hash_size` and `digest`.
#[derive(Debug)]
pub struct CidInfo {
    pub version: u64,
    pub codec: u64,
    pub hash_code: u64,
    pub hash_size: u8,
    pub digest: Vec<u8>,
}

/// `r` holds the parts of the CID at the front of `b`, or `InvalidCid` where none starts.
pub open spec fn cid_info_of(r: Result<CidInfo, Error>, b: Seq<u8>) -> bool {
    match cid_prefix(b) {
        None => r matches Err(e) && e.kind == ErrorKind::InvalidCid,
        Some((_, v, c, h, s, d)) => r matches Ok(info) && info.version == v && info.codec == c
            && info.hash_code == h && info.hash_size == s && info.digest@ == d,
    }
}

/// The binary form of the CID that `TryFrom<&str> for cid::Cid` reads from `s`.
pub uninterp spec fn cid_text_bytes(s: Seq<char>) -> Option<Seq<u8>>;

/// The text form that `cid::Cid`'s `Display` gives the CID at the front of `b`.
pub uninterp spec fn cid_text(b: Seq<u8>) -> Seq<char>;

/// What `multibase::decode` makes of `s`: the base's code character and the bytes.
pub uninterp spec fn multibase_decoded(s: Seq<char>) -> Option<(char, Seq<u8>)>;

/// The code characters of the bases that `multibase::Base::from_code` knows.
pub open spec fn multibase_known(code: char) -> bool {
    ||| code == '\0' || code == '0' || code == '7' || code == '9'
    ||| code == 'f' || code == 'F' || code == 'b' || code == 'B' || code == 'c' || code == 'C'
    ||| code == 'v' || code == 'V' || code == 't' || code == 'T' || code == 'h'
    ||| code == 'k' || code == 'K' || code == 'R' || code == 'Z' || code == 'z'
    ||| code == 'm' || code == 'M' || code == 'u' || code == 'U' || code == '\u{1F680}'
}

/// What `multibase::encode` makes of `b` in the base named `code`.
pub uninterp spec fn multibase_encoded(code: char, b: Seq<u8>) -> Seq<char>;

/// Relies on `TryFrom<&str> for cid::Cid` (drops a leading `/ipfs/` path, reads a
/// base58btc v0 CID or a multibase v1 CID) and on `Cid::to_bytes`, which writes the
/// CID in binary.
#[verifier::external_body]
fn cid_bytes_from_text(s: &str) -> (r: Option<Vec<u8>>)
    ensures
        r is None <==> cid_text_bytes(s@) is None,
        r matches Some(b) ==> cid_text_bytes(s@) == Some(b@),
{
    cid::Cid::try_from(s).ok().map(|c| c.to_bytes())
}

/// Relies on `TryFrom<&[u8]> for cid::Cid`, which is `Cid::read_bytes` on the slice,
/// and on `Cid`'s `Display`: base58btc for a v0 CID, base32 multibase for a v1 CID.
#[verifier::external_body]
fn cid_to_text(b: &[u8]) -> (r: Option<String>)
    ensures
        r is None <==> cid_prefix(b@) is None,
        r matches Some(s) ==> s@ == cid_text(b@),
{
    cid::Cid::try_from(b).ok().map(|c| c.to_string())
}

/// Relies on `multibase::decode`, whose first character names the base that the rest
/// is decoded in, and on `Base::code` for that character.
#[verifier::external_body]
fn multibase_decode(s: &str) -> (r: Option<(char, Vec<u8>)>)
    ensures
        r is None <==> multibase_decoded(s@) is None,
        r matches Some((c, b)) ==> multibase_decoded(s@) == Some((c, b@)),
{
    cid::multibase::decode(s).ok().map(|(base, bytes)| (base.code(), bytes))
}

/// Relies on `cid::multibase::Base::from_code`, which accepts exactly the codes of the
/// bases that multibase 0.9 defines and fails on any other.
#[verifier::external_body]
fn multibase_base_known(code: char) -> (r: bool)
    ensures
        r == multibase_known(code),
{
    cid::multibase::Base::from_code(code).is_ok()
}

/// Relies on `multibase::encode`, which puts the base's code in front of the encoded
/// bytes. Its identity base (code `'\0'`) panics on bytes that are not UTF-8.
#[verifier::external_body]
fn multibase_encode(code: char, b: &[u8]) -> (r: String)
    requires
        multibase_known(code),
        code == '\0' ==> vstd::utf8::valid_utf8(b@),
    ensures
        r@ == multibase_encoded(code, b@),
        r@.len() > 0 && r@[0] == code,
{
    match cid::multibase::Base::from_code(code) {
        Ok(base) => cid::multibase::encode(base, b),
        Err(_) => String::new(),
    }
}

/// The parts of the binary CID at the front of `data`.
pub fn decode_cid(data: &[u8]) -> (r: Result<CidInfo, Error>)
    ensures
        cid_info_of(r, data@),
{
    match read_cid(data) {
        None => Err(Error::new(ErrorKind::InvalidCid, "failed to decode CID")),
        Some((_, version, codec, hash_code, hash_size, digest)) => Ok(
            CidInfo { version, codec, hash_code, hash_size, digest },
        ),
    }
}

/// The parts of the CID written as text in `text`.
pub fn decode_cid_text(text: &str) -> (r: Result<CidInfo, Error>)
    ensures
        match cid_text_bytes(text@) {
            None => r matches Err(e) && e.kind == ErrorKind::InvalidCid,
            Some(b) => cid_info_of(r, b),
        },
{
    match cid_bytes_from_text(text) {
        None => Err(Error::new(ErrorKind::InvalidCid, "failed to decode CID")),
        Some(b) => decode_cid(b.as_slice()),
    }
}

/// The canonical text form of the binary CID at the front of `data`.
pub fn encode_cid(data: &[u8]) -> (r: Result<String, Error>)
    ensures
        match r {
            Ok(s) => cid_prefix(data@) is Some && s@ == cid_text(data@),
            Err(e) => cid_prefix(data@) is None && e.kind == ErrorKind::InvalidCid,
        },
{
    match cid_to_text(data) {
        None => Err(Error::new(ErrorKind::InvalidCid, "failed to decode CID")),
        Some(s) => Ok(s),
    }
}

/// The canonical text form of the CID written as text in `text`.
pub fn encode_cid_text(text: &str) -> (r: Result<String, Error>)
    ensures
        match cid_text_bytes(text@) {
            None => r matches Err(e) && e.kind == ErrorKind::InvalidCid,
            Some(b) => match r {
                Ok(s) => cid_prefix(b) is Some && s@ == cid_text(b),
                Err(e) => cid_prefix(b) is None && e.kind == ErrorKind::InvalidCid,
            },
        },
{
    match cid_bytes_from_text(text) {
        None => Err(Error::new(ErrorKind::InvalidCid, "failed to decode CID")),
        Some(b) => encode_cid(b.as_slice()),
    }
}

/// The base code and the bytes of the multibase string `text`.
pub fn decode_multibase(text: &str) -> (r: Result<(char, Vec<u8>), Error>)
    ensures
        match multibase_decoded(text@) {
            None => r matches Err(e) && e.kind == ErrorKind::UnsupportedFeature,
            Some((c, b)) => r matches Ok((c2, b2)) && c2 == c && b2@ == b,
        },
{
    match multibase_decode(text) {
        None => Err(Error::new(ErrorKind::UnsupportedFeature, "failed to decode multibase")),
        Some(x) => Ok(x),
    }
}

/// `data` written in the multibase base named `code`.
///
/// Fails on an unknown base, and on bytes that are not UTF-8 in the identity base.
pub fn encode_multibase(code: char, data: &[u8]) -> (r: Result<String, Error>)
    ensures
        match r {
            Ok(s) => multibase_known(code) && (code == '\0' ==> vstd::utf8::valid_utf8(data@))
                && s@ == multibase_encoded(code, data@) && s@.len() > 0 && s@[0] == code,
            Err(e) => e.kind == ErrorKind::UnsupportedFeature && (!multibase_known(code) || (code
                == '\0' && !vstd::utf8::valid_utf8(data@))),
        },
{
    if !multibase_base_known(code) {
        return Err(Error::new(ErrorKind::UnsupportedFeature, "failed to encode multibase: unknown base"));
    }
    if code == '\0' && string_from_utf8(data).is_none() {
        return Err(
            Error::new(
                ErrorKind::UnsupportedFeature,
                "failed to encode multibase: the identity base takes UTF-8 text",
            ),
        );
    }
    Ok(multibase_encode(code, data))
}

} // verus!
