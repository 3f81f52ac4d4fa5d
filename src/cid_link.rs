use vstd::prelude::*;

verus! {

/// What `cid::Cid::read_bytes` makes of the front of `b`: the number of bytes that the
/// CID occupies, its version, its codec, its multihash code, the digest size that the
/// multihash states, and the digest; or `None` when no CID starts there.
pub uninterp spec fn cid_prefix(b: Seq<u8>) -> Option<(usize, u64, u64, u64, u8, Seq<u8>)>;

/// Relies on `cid::Cid::read_bytes`, which reads one CID (version, codec, multihash;
/// or the bare sha2-256 multihash of a v0 CID) from the front of a byte stream and
/// leaves what follows unread; on `std::io::Cursor::position` for how far it read; and
/// on the accessors `version`, `codec`, `hash().code()`, `hash().size()` and
/// `hash().digest()`. A CID takes at least its two leading varints (a v0 CID its two
/// multihash varints), and never more bytes than there are.
#[verifier::external_body]
pub(crate) fn read_cid(b: &[u8]) -> (r: Option<(usize, u64, u64, u64, u8, Vec<u8>)>)
    ensures
        r is None <==> cid_prefix(b@) is None,
        r matches Some((n, v, c, h, s, d)) ==> 2 <= n <= b@.len() && cid_prefix(b@) == Some(
            (n, v, c, h, s, d@),
        ),
{
    let mut cursor = std::io::Cursor::new(b);
    match cid::Cid::read_bytes(&mut cursor) {
        Ok(c) => Some((
            cursor.position() as usize,
            u64::from(c.version()),
            c.codec(),
            c.hash().code(),
            c.hash().size(),
            c.hash().digest().to_vec(),
        )),
        Err(_) => None,
    }
}

} // verus!
