//! The static table (RFC 7541 Appendix A): 61 fields every peer knows.

use crate::octets::from_static;
use bytes::Bytes;
use vstd::prelude::*;
use vstd::utf8::encode_utf8;

verus! {

/// How many entries the static table has; wire indices run from 1 to this.
pub const LEN: usize = 61;

/// The entries, in index order.
pub const ENTRIES: [(&'static str, &'static str); 61] = [
    (":authority", ""),
    (":method", "GET"),
    (":method", "POST"),
    (":path", "/"),
    (":path", "/index.html"),
    (":scheme", "http"),
    (":scheme", "https"),
    (":status", "200"),
    (":status", "204"),
    (":status", "206"),
    (":status", "304"),
    (":status", "400"),
    (":status", "404"),
    (":status", "500"),
    ("accept-charset", ""),
    ("accept-encoding", "gzip, deflate"),
    ("accept-language", ""),
    ("accept-ranges", ""),
    ("accept", ""),
    ("access-control-allow-origin", ""),
    ("age", ""),
    ("allow", ""),
    ("authorization", ""),
    ("cache-control", ""),
    ("content-disposition", ""),
    ("content-encoding", ""),
    ("content-language", ""),
    ("content-length", ""),
    ("content-location", ""),
    ("content-range", ""),
    ("content-type", ""),
    ("cookie", ""),
    ("date", ""),
    ("etag", ""),
    ("expect", ""),
    ("expires", ""),
    ("from", ""),
    ("host", ""),
    ("if-match", ""),
    ("if-modified-since", ""),
    ("if-none-match", ""),
    ("if-range", ""),
    ("if-unmodified-since", ""),
    ("last-modified", ""),
    ("link", ""),
    ("location", ""),
    ("max-forwards", ""),
    ("proxy-authenticate", ""),
    ("proxy-authorization", ""),
    ("range", ""),
    ("referer", ""),
    ("refresh", ""),
    ("retry-after", ""),
    ("server", ""),
    ("set-cookie", ""),
    ("strict-transport-security", ""),
    ("transfer-encoding", ""),
    ("user-agent", ""),
    ("vary", ""),
    ("via", ""),
    ("www-authenticate", ""),
];

/// The static table as pairs of octet strings, entry 1 first.
pub open spec fn static_entries() -> Seq<(Seq<u8>, Seq<u8>)> {
    Seq::new(
        61,
        |i: int| (encode_utf8(ENTRIES@[i].0@), encode_utf8(ENTRIES@[i].1@)),
    )
}

/// The entry with a wire index, if there is one.
pub fn get(index: usize) -> (r: Option<(Bytes, Bytes)>)
    ensures
        match r {
            Some(e) => 1 <= index <= LEN && (
                crate::octets::octets(e.0),
                crate::octets::octets(e.1),
            ) == static_entries()[index - 1],
            None => index == 0 || index > LEN,
        },
{
    if index == 0 || index > LEN {
        return None;
    }
    let (name, value) = ENTRIES[index - 1];
    Some((from_static(name), from_static(value)))
}

} // verus!
