//! The request/response seam: what answers a stream.
//!
//! Home of message validation (RFC 9113 §8.3): [`RequestHead::from_headers`]
//! turns a decoded header list into a request or rejects it, and
//! [`ResponseHead::from_headers`] does the same for what an upstream sends back.
//! A malformed message is a stream error, and the other streams carry on.
//!
//! A responder is told about a stream through [`Service`] and answers by pushing
//! [`ServiceEvent`]s onto the list it is handed.

use crate::conn::ErrorCode;
use crate::hpack::{clone_headers, headers_view, Header, HeaderModel};
use crate::octets::{as_slice, from_static, from_vec, octets, same_octets};
use crate::stream::StreamId;
use crate::text::{
    all_digits, decimal, decimal_text, is_digit, numbers_round_trip, numeral, parse_capped,
    parse_decimal, parsed,
};
use bytes::Bytes;
use std::collections::HashSet;
use vstd::prelude::*;
use vstd::utf8::encode_utf8;

verus! {

broadcast use vstd::std_specs::hash::group_hash_axioms;

/// Ceiling on a `/bytes/<n>` response.
pub const MAX_SIZED_BODY: usize = 67_108_864;

// ---------------------------------------------------------------------------
// Field rules
// ---------------------------------------------------------------------------

/// The octets of a text.
pub open spec fn text_octets(s: Seq<char>) -> Seq<u8> {
    encode_utf8(s)
}

/// A pseudo-header: its name starts with a colon.
pub open spec fn is_pseudo(name: Seq<u8>) -> bool {
    name.len() > 0 && name[0] == 58
}

/// Some octet of the name is an uppercase letter.
pub open spec fn has_uppercase(name: Seq<u8>) -> bool {
    exists|i: int| 0 <= i < name.len() && 65 <= #[trigger] name[i] <= 90
}

/// Fields that describe a single HTTP/1.x hop and have no meaning in HTTP/2
/// (§8.2.2).
pub open spec fn is_connection_specific(name: Seq<u8>) -> bool {
    ||| name == text_octets("connection"@)
    ||| name == text_octets("keep-alive"@)
    ||| name == text_octets("proxy-connection"@)
    ||| name == text_octets("transfer-encoding"@)
    ||| name == text_octets("upgrade"@)
}

/// A name a regular field may carry (§8.2): not empty, lowercase, and not
/// specific to a connection.
pub open spec fn regular_name(name: Seq<u8>) -> bool {
    name.len() > 0 && !has_uppercase(name) && !is_connection_specific(name)
}

/// The value of the first field with this name.
pub open spec fn first_value(fields: Seq<HeaderModel>, name: Seq<u8>) -> Option<Seq<u8>>
    decreases fields.len(),
{
    if fields.len() == 0 {
        None
    } else {
        match first_value(fields.drop_last(), name) {
            Some(v) => Some(v),
            None => if fields.last().name == name {
                Some(fields.last().value)
            } else {
                None
            },
        }
    }
}

/// The fields that are not pseudo-headers, in order.
pub open spec fn regular_fields(fields: Seq<HeaderModel>) -> Seq<HeaderModel>
    decreases fields.len(),
{
    if fields.len() == 0 {
        Seq::empty()
    } else if is_pseudo(fields.last().name) {
        regular_fields(fields.drop_last())
    } else {
        regular_fields(fields.drop_last()).push(fields.last())
    }
}

/// Pseudo-headers come before every regular field.
pub open spec fn pseudo_first(fields: Seq<HeaderModel>) -> bool {
    forall|i: int, j: int|
        0 <= i < j < fields.len() && is_pseudo((#[trigger] fields[j]).name) ==> is_pseudo(
            (#[trigger] fields[i]).name,
        )
}

/// No pseudo-header occurs twice.
pub open spec fn pseudo_once(fields: Seq<HeaderModel>) -> bool {
    forall|i: int, j: int|
        0 <= i < j < fields.len() && is_pseudo((#[trigger] fields[j]).name) ==> (
        #[trigger] fields[i]).name != fields[j].name
}

fn is_pseudo_name(name: &[u8]) -> (b: bool)
    ensures
        b == is_pseudo(name@),
{
    name.len() > 0 && name[0] == 58
}

pub(crate) fn is_text(name: &[u8], text: &str) -> (b: bool)
    ensures
        b == (name@ == text_octets(text@)),
{
    same_octets(name, text.as_bytes())
}

/// Whether a regular field may carry this name.
fn is_regular_name(name: &[u8]) -> (b: bool)
    ensures
        b == regular_name(name@),
{
    if name.len() == 0 {
        return false;
    }
    let mut i: usize = 0;
    while i < name.len()
        invariant
            i <= name@.len(),
            forall|k: int| 0 <= k < i ==> !(65 <= #[trigger] name@[k] <= 90),
        decreases name@.len() - i,
    {
        if 65 <= name[i] && name[i] <= 90 {
            return false;
        }
        i += 1;
    }
    !is_text(name, "connection") && !is_text(name, "keep-alive") && !is_text(
        name,
        "proxy-connection",
    ) && !is_text(name, "transfer-encoding") && !is_text(name, "upgrade")
}

// ---------------------------------------------------------------------------
// Requests
// ---------------------------------------------------------------------------

/// A validated request line plus its regular fields.
#[derive(Debug)]
pub struct RequestHead {
    pub method: Bytes,
    pub scheme: Bytes,
    pub authority: Option<Bytes>,
    pub path: Bytes,
    pub fields: Vec<Header>,
}

/// What a request head says.
#[verifier::ext_equal]
pub struct RequestModel {
    pub method: Seq<u8>,
    pub scheme: Seq<u8>,
    pub authority: Option<Seq<u8>>,
    pub path: Seq<u8>,
    pub fields: Seq<HeaderModel>,
}

/// An optional octet string.
pub open spec fn opt_octets(b: Option<Bytes>) -> Option<Seq<u8>> {
    match b {
        Some(b) => Some(octets(b)),
        None => None,
    }
}

impl View for RequestHead {
    type V = RequestModel;

    open spec fn view(&self) -> RequestModel {
        RequestModel {
            method: octets(self.method),
            scheme: octets(self.scheme),
            authority: opt_octets(self.authority),
            path: octets(self.path),
            fields: headers_view(self.fields@),
        }
    }
}

impl Clone for RequestHead {
    fn clone(&self) -> (r: Self)
        ensures
            r@ == self@,
    {
        RequestHead {
            method: self.method.clone(),
            scheme: self.scheme.clone(),
            authority: match &self.authority {
                Some(a) => Some(a.clone()),
                None => None,
            },
            path: self.path.clone(),
            fields: clone_headers(&self.fields),
        }
    }
}

/// A pseudo-header a request may carry.
pub open spec fn is_request_pseudo(name: Seq<u8>) -> bool {
    ||| name == text_octets(":method"@)
    ||| name == text_octets(":scheme"@)
    ||| name == text_octets(":authority"@)
    ||| name == text_octets(":path"@)
}

/// A regular field a request may carry: `te` only to say "trailers".
pub open spec fn request_field(h: HeaderModel) -> bool {
    regular_name(h.name) && (h.name == text_octets("te"@) ==> h.value == text_octets("trailers"@))
}

/// Each field is one a request may carry.
pub open spec fn request_fields_ok(fields: Seq<HeaderModel>) -> bool {
    forall|i: int|
        0 <= i < fields.len() ==> if is_pseudo((#[trigger] fields[i]).name) {
            is_request_pseudo(fields[i].name)
        } else {
            request_field(fields[i])
        }
}

/// A header list that is a request (§8.3.1): the pseudo-headers come first,
/// each at most once, with method, scheme and a non-empty path among them.
pub open spec fn is_request(fields: Seq<HeaderModel>) -> bool {
    &&& pseudo_first(fields)
    &&& pseudo_once(fields)
    &&& request_fields_ok(fields)
    &&& first_value(fields, text_octets(":method"@)) is Some
    &&& first_value(fields, text_octets(":scheme"@)) is Some
    &&& first_value(fields, text_octets(":path"@)) is Some
    &&& first_value(fields, text_octets(":path"@))->0.len() > 0
}

/// The request a header list is.
pub open spec fn request_of(fields: Seq<HeaderModel>) -> RequestModel {
    RequestModel {
        method: first_value(fields, text_octets(":method"@))->0,
        scheme: first_value(fields, text_octets(":scheme"@))->0,
        authority: first_value(fields, text_octets(":authority"@)),
        path: first_value(fields, text_octets(":path"@))->0,
        fields: regular_fields(fields),
    }
}

/// The four request pseudo-headers differ, and each is a pseudo-header.
proof fn lemma_request_names()
    ensures
        text_octets(":method"@) != text_octets(":scheme"@),
        text_octets(":method"@) != text_octets(":authority"@),
        text_octets(":method"@) != text_octets(":path"@),
        text_octets(":scheme"@) != text_octets(":authority"@),
        text_octets(":scheme"@) != text_octets(":path"@),
        text_octets(":authority"@) != text_octets(":path"@),
        is_pseudo(text_octets(":method"@)),
        is_pseudo(text_octets(":scheme"@)),
        is_pseudo(text_octets(":authority"@)),
        is_pseudo(text_octets(":path"@)),
        is_pseudo(text_octets(":status"@)),
{
    broadcast use vstd::utf8::is_ascii_chars_encode_utf8;

    reveal_strlit(":method");
    reveal_strlit(":scheme");
    reveal_strlit(":authority");
    reveal_strlit(":path");
    reveal_strlit(":status");
    let (m, s, a, p, t) = (":method"@, ":scheme"@, ":authority"@, ":path"@, ":status"@);
    assert(vstd::utf8::is_ascii_chars(m));
    assert(vstd::utf8::is_ascii_chars(s));
    assert(vstd::utf8::is_ascii_chars(a));
    assert(vstd::utf8::is_ascii_chars(p));
    assert(vstd::utf8::is_ascii_chars(t));
    assert(text_octets(m).len() == 7 && text_octets(m)[0] == 58 && text_octets(m)[1] == 109);
    assert(text_octets(s).len() == 7 && text_octets(s)[0] == 58 && text_octets(s)[1] == 115);
    assert(text_octets(a).len() == 10 && text_octets(a)[0] == 58);
    assert(text_octets(p).len() == 5 && text_octets(p)[0] == 58);
    assert(text_octets(t)[0] == 58);
}

/// A name that is among the fields is found.
proof fn lemma_first_value(fields: Seq<HeaderModel>, name: Seq<u8>)
    ensures
        first_value(fields, name) is Some <==> exists|i: int|
            0 <= i < fields.len() && (#[trigger] fields[i]).name == name,
    decreases fields.len(),
{
    if fields.len() > 0 {
        let init = fields.drop_last();
        lemma_first_value(init, name);
        if first_value(init, name) is Some {
            let i = choose|i: int| 0 <= i < init.len() && (#[trigger] init[i]).name == name;
            assert(fields[i].name == name);
        } else if fields.last().name == name {
            assert(fields[fields.len() - 1].name == name);
        } else {
            assert forall|i: int| 0 <= i < fields.len() implies (#[trigger] fields[i]).name
                != name by {
                if i < init.len() {
                    assert(init[i].name != name);
                }
            }
        }
    }
}

impl RequestHead {
    /// Validates a decoded header list into a request. Every rejection is a
    /// stream error.
    pub fn from_headers(headers: &[Header]) -> (r: Result<RequestHead, ErrorCode>)
        ensures
            match r {
                Ok(request) => is_request(headers_view(headers@)) && request@ == request_of(
                    headers_view(headers@),
                ),
                Err(code) => !is_request(headers_view(headers@)) && code
                    == ErrorCode::ProtocolError,
            },
    {
        let ghost all = headers_view(headers@);
        let mut method: Option<Bytes> = None;
        let mut scheme: Option<Bytes> = None;
        let mut authority: Option<Bytes> = None;
        let mut path: Option<Bytes> = None;
        let mut fields: Vec<Header> = Vec::new();
        let mut seen_regular = false;
        let mut i: usize = 0;
        proof {
            lemma_request_names();
            assert(all.take(0) =~= Seq::empty());
            assert(headers_view(fields@) =~= Seq::empty());
        }
        while i < headers.len()
            invariant
                all == headers_view(headers@),
                i <= headers@.len() == all.len(),
                is_pseudo(text_octets(":method"@)),
                is_pseudo(text_octets(":scheme"@)),
                is_pseudo(text_octets(":authority"@)),
                is_pseudo(text_octets(":path"@)),
                text_octets(":method"@) != text_octets(":scheme"@),
                text_octets(":method"@) != text_octets(":authority"@),
                text_octets(":method"@) != text_octets(":path"@),
                text_octets(":scheme"@) != text_octets(":authority"@),
                text_octets(":scheme"@) != text_octets(":path"@),
                text_octets(":authority"@) != text_octets(":path"@),
                pseudo_first(all.take(i as int)),
                pseudo_once(all.take(i as int)),
                request_fields_ok(all.take(i as int)),
                seen_regular == exists|k: int|
                    0 <= k < i && !is_pseudo((#[trigger] all[k]).name),
                opt_octets(method) == first_value(all.take(i as int), text_octets(":method"@)),
                opt_octets(scheme) == first_value(all.take(i as int), text_octets(":scheme"@)),
                opt_octets(authority) == first_value(
                    all.take(i as int),
                    text_octets(":authority"@),
                ),
                opt_octets(path) == first_value(all.take(i as int), text_octets(":path"@)),
                headers_view(fields@) == regular_fields(all.take(i as int)),
            decreases headers@.len() - i,
        {
            let header = &headers[i];
            let name = as_slice(&header.name);
            let ghost h = all[i as int];
            let ghost done = all.take(i as int);
            let ghost next = all.take(i + 1);
            proof {
                assert(next.drop_last() =~= done);
                assert(next.last() == h);
                assert(forall|k: int| 0 <= k < i ==> done[k] == all[k]);
                assert(forall|k: int| 0 <= k <= i ==> next[k] == all[k]);
            }
            if is_pseudo_name(name) {
                if seen_regular {
                    proof {
                        let k = choose|k: int| 0 <= k < i && !is_pseudo((#[trigger] all[k]).name);
                        assert(is_pseudo(all[i as int].name));
                        assert(!pseudo_first(all));
                    }
                    return Err(ErrorCode::ProtocolError);
                }
                let ghost m = text_octets(":method"@);
                let ghost s = text_octets(":scheme"@);
                let ghost a = text_octets(":authority"@);
                let ghost p = text_octets(":path"@);
                proof {
                    lemma_first_value(done, h.name);
                }
                let taken = if is_text(name, ":method") {
                    let taken = method.is_some();
                    method = Some(header.value.clone());
                    taken
                } else if is_text(name, ":scheme") {
                    let taken = scheme.is_some();
                    scheme = Some(header.value.clone());
                    taken
                } else if is_text(name, ":authority") {
                    let taken = authority.is_some();
                    authority = Some(header.value.clone());
                    taken
                } else if is_text(name, ":path") {
                    let taken = path.is_some();
                    path = Some(header.value.clone());
                    taken
                } else {
                    assert(!is_request_pseudo(all[i as int].name));
                    return Err(ErrorCode::ProtocolError);
                };
                if taken {
                    proof {
                        let k = choose|k: int|
                            0 <= k < done.len() && (#[trigger] done[k]).name == h.name;
                        assert(all[k].name == all[i as int].name);
                        assert(is_pseudo(all[i as int].name));
                        assert(!pseudo_once(all));
                    }
                    return Err(ErrorCode::ProtocolError);
                }
            } else {
                seen_regular = true;
                let te = is_text(name, "te");
                if !is_regular_name(name) || (te && !is_text(as_slice(&header.value), "trailers")) {
                    assert(!request_field(all[i as int]));
                    return Err(ErrorCode::ProtocolError);
                }
                let ghost before = fields@;
                fields.push(header.clone());
                proof {
                    assert(headers_view(fields@) =~= headers_view(before).push(h));
                }
            }
            i += 1;
        }
        assert(all.take(i as int) =~= all);
        match (method, scheme, path) {
            (Some(method), Some(scheme), Some(path)) => {
                if path.is_empty() {
                    return Err(ErrorCode::ProtocolError);
                }
                Ok(RequestHead { method, scheme, authority, path, fields })
            },
            _ => Err(ErrorCode::ProtocolError),
        }
    }

    /// Rebuilds the header list to send upstream: pseudo-headers first and in
    /// the canonical order, then the regular fields as they arrived, with their
    /// never-indexed marks.
    pub fn to_headers(&self) -> (headers: Vec<Header>)
        ensures
            headers_view(headers@) == request_headers(self@),
    {
        let mut headers: Vec<Header> = Vec::new();
        headers.push(Header::new(from_static(":method"), self.method.clone()));
        headers.push(Header::new(from_static(":scheme"), self.scheme.clone()));
        if let Some(authority) = &self.authority {
            headers.push(Header::new(from_static(":authority"), authority.clone()));
        }
        headers.push(Header::new(from_static(":path"), self.path.clone()));
        let mut rest = clone_headers(&self.fields);
        let ghost head = headers@;
        let ghost tail = rest@;
        headers.append(&mut rest);
        proof {
            assert(headers_view(headers@) =~= headers_view(head) + headers_view(tail));
            assert(headers_view(headers@) =~= request_headers(self@));
        }
        headers
    }

    /// The path with any query string removed.
    pub fn path_only(&self) -> (path: &[u8])
        ensures
            path@ == before_query(self@.path),
    {
        let path = as_slice(&self.path);
        let mut i: usize = 0;
        while i < path.len()
            invariant
                i <= path@.len(),
                path@ == self@.path,
                forall|k: int| 0 <= k < i ==> path@[k] != 63,
            decreases path@.len() - i,
        {
            if path[i] == 63 {
                proof {
                    lemma_before_query(path@, i as int);
                }
                return vstd::slice::slice_subrange(path, 0, i);
            }
            i += 1;
        }
        proof {
            lemma_before_query(path@, path@.len() as int);
            assert(path@.take(path@.len() as int) =~= path@);
        }
        path
    }

    /// The body length the request declares, if any. An unparseable value is
    /// malformed in its own right.
    pub fn content_length(&self) -> (r: Option<Result<u64, ErrorCode>>)
        ensures
            r == declared_length(self@),
    {
        let ghost all = self@.fields;
        let name = "content-length";
        let mut i: usize = 0;
        assert(all.take(0) =~= Seq::empty());
        while i < self.fields.len()
            invariant
                all == self@.fields,
                i <= self.fields@.len() == all.len(),
                name@ == "content-length"@,
                first_value(all.take(i as int), text_octets(name@)) is None,
            decreases self.fields@.len() - i,
        {
            let field = &self.fields[i];
            proof {
                assert(all.take(i + 1).drop_last() =~= all.take(i as int));
                assert(all.take(i + 1).last() == field@);
            }
            if is_text(as_slice(&field.name), name) {
                proof {
                    lemma_first_value_prefix(all, text_octets(name@), i + 1);
                }
                return match parse_decimal(as_slice(&field.value), u64::MAX) {
                    Some(n) => Some(Ok(n)),
                    None => Some(Err(ErrorCode::ProtocolError)),
                };
            }
            i += 1;
        }
        assert(all.take(i as int) =~= all);
        None
    }
}

/// A field list with one of these fields at its front.
pub open spec fn plain(name: Seq<char>, value: Seq<u8>) -> HeaderModel {
    HeaderModel { name: text_octets(name), value, sensitive: false }
}

/// The header list a request is sent as.
pub open spec fn request_headers(r: RequestModel) -> Seq<HeaderModel> {
    seq![plain(":method"@, r.method), plain(":scheme"@, r.scheme)] + (match r.authority {
        Some(authority) => seq![plain(":authority"@, authority)],
        None => Seq::empty(),
    }) + seq![plain(":path"@, r.path)] + r.fields
}

/// The part of a path before the first question mark.
pub open spec fn before_query(path: Seq<u8>) -> Seq<u8>
    decreases path.len(),
{
    if path.len() == 0 || path[0] == 63 {
        Seq::empty()
    } else {
        seq![path[0]] + before_query(path.drop_first())
    }
}

proof fn lemma_before_query(path: Seq<u8>, i: int)
    requires
        0 <= i <= path.len(),
        forall|k: int| 0 <= k < i ==> path[k] != 63,
        i < path.len() ==> path[i] == 63,
    ensures
        before_query(path) == path.take(i),
    decreases i,
{
    if i > 0 {
        assert forall|k: int| 0 <= k < i - 1 implies path.drop_first()[k] != 63 by {
            assert(path[k + 1] != 63);
        }
        lemma_before_query(path.drop_first(), i - 1);
        assert(seq![path[0]] + path.drop_first().take(i - 1) =~= path.take(i));
    } else {
        assert(path.take(0) =~= Seq::empty());
    }
}

/// The length a request declares: that of its first `content-length`, which
/// must be an unsigned decimal of 64 bits.
pub open spec fn declared_length(r: RequestModel) -> Option<Result<u64, ErrorCode>> {
    match first_value(r.fields, text_octets("content-length"@)) {
        None => None,
        Some(v) => match parsed(v, u64::MAX as nat) {
            Some(n) => Some(Ok(n as u64)),
            None => Some(Err(ErrorCode::ProtocolError)),
        },
    }
}

/// A name found in the front of a list is the one found in all of it.
proof fn lemma_first_value_prefix(fields: Seq<HeaderModel>, name: Seq<u8>, k: int)
    requires
        0 <= k <= fields.len(),
        first_value(fields.take(k), name) is Some,
    ensures
        first_value(fields, name) == first_value(fields.take(k), name),
    decreases fields.len(),
{
    if k < fields.len() {
        assert(fields.drop_last().take(k) =~= fields.take(k));
        lemma_first_value_prefix(fields.drop_last(), name, k);
    } else {
        assert(fields.take(k) =~= fields);
    }
}

// ---------------------------------------------------------------------------
// Trailers
// ---------------------------------------------------------------------------

/// A trailer section: regular fields only.
pub open spec fn are_trailers(fields: Seq<HeaderModel>) -> bool {
    forall|i: int|
        0 <= i < fields.len() ==> !is_pseudo((#[trigger] fields[i]).name) && regular_name(
            fields[i].name,
        )
}

/// Validates a trailer section (§8.1).
pub fn validate_trailers(headers: &[Header]) -> (r: Result<(), ErrorCode>)
    ensures
        match r {
            Ok(()) => are_trailers(headers_view(headers@)),
            Err(code) => !are_trailers(headers_view(headers@)) && code == ErrorCode::ProtocolError,
        },
{
    let ghost all = headers_view(headers@);
    let mut i: usize = 0;
    while i < headers.len()
        invariant
            all == headers_view(headers@),
            i <= headers@.len() == all.len(),
            forall|k: int|
                0 <= k < i ==> !is_pseudo((#[trigger] all[k]).name) && regular_name(all[k].name),
        decreases headers@.len() - i,
    {
        let name = as_slice(&headers[i].name);
        assert(all[i as int].name == name@);
        if is_pseudo_name(name) || !is_regular_name(name) {
            return Err(ErrorCode::ProtocolError);
        }
        i += 1;
    }
    Ok(())
}

// ---------------------------------------------------------------------------
// Responses
// ---------------------------------------------------------------------------

/// A validated response line plus its regular fields: what an upstream sends
/// back.
#[derive(Debug)]
pub struct ResponseHead {
    pub status: u16,
    pub fields: Vec<Header>,
}

/// A response to send on one stream: the head only. Body octets travel as
/// separate events.
#[derive(Debug)]
pub struct Response {
    pub status: u16,
    pub fields: Vec<Header>,
}

/// What a response head says.
#[verifier::ext_equal]
pub struct ResponseModel {
    pub status: u16,
    pub fields: Seq<HeaderModel>,
}

impl View for ResponseHead {
    type V = ResponseModel;

    open spec fn view(&self) -> ResponseModel {
        ResponseModel { status: self.status, fields: headers_view(self.fields@) }
    }
}

impl View for Response {
    type V = ResponseModel;

    open spec fn view(&self) -> ResponseModel {
        ResponseModel { status: self.status, fields: headers_view(self.fields@) }
    }
}

/// The status a value spells: three digits, from 100 to 599.
pub open spec fn status_of(value: Seq<u8>) -> Option<u16> {
    if value.len() == 3 && all_digits(value) && 100 <= numeral(value) <= 599 {
        Some(numeral(value) as u16)
    } else {
        None
    }
}

/// Reads a `:status` value.
fn parse_status(value: &[u8]) -> (r: Option<u16>)
    ensures
        r == status_of(value@),
{
    if value.len() != 3 {
        return None;
    }
    match parse_capped(value, 1000) {
        Some(n) => if 100 <= n && n <= 599 {
            Some(n as u16)
        } else {
            None
        },
        None => None,
    }
}

/// Each field is one a response may carry.
pub open spec fn response_fields_ok(fields: Seq<HeaderModel>) -> bool {
    forall|i: int|
        0 <= i < fields.len() ==> if is_pseudo((#[trigger] fields[i]).name) {
            fields[i].name == text_octets(":status"@) && status_of(fields[i].value) is Some
        } else {
            regular_name(fields[i].name)
        }
}

/// A header list that is a response (§8.3.2): exactly one `:status`, before
/// every regular field, and no other pseudo-header.
pub open spec fn is_response(fields: Seq<HeaderModel>) -> bool {
    &&& pseudo_first(fields)
    &&& pseudo_once(fields)
    &&& response_fields_ok(fields)
    &&& first_value(fields, text_octets(":status"@)) is Some
}

/// The response a header list is.
pub open spec fn response_of(fields: Seq<HeaderModel>) -> ResponseModel {
    ResponseModel {
        status: status_of(first_value(fields, text_octets(":status"@))->0)->0,
        fields: regular_fields(fields),
    }
}

impl ResponseHead {
    /// Validates a decoded response header list.
    pub fn from_headers(headers: &[Header]) -> (r: Result<ResponseHead, ErrorCode>)
        ensures
            match r {
                Ok(response) => is_response(headers_view(headers@)) && response@ == response_of(
                    headers_view(headers@),
                ),
                Err(code) => !is_response(headers_view(headers@)) && code
                    == ErrorCode::ProtocolError,
            },
    {
        let ghost all = headers_view(headers@);
        let ghost name_status = text_octets(":status"@);
        let mut status: Option<u16> = None;
        let mut fields: Vec<Header> = Vec::new();
        let mut seen_regular = false;
        let mut i: usize = 0;
        proof {
            lemma_request_names();
            assert(all.take(0) =~= Seq::empty());
            assert(headers_view(fields@) =~= Seq::empty());
        }
        while i < headers.len()
            invariant
                all == headers_view(headers@),
                name_status == text_octets(":status"@),
                is_pseudo(name_status),
                i <= headers@.len() == all.len(),
                pseudo_first(all.take(i as int)),
                pseudo_once(all.take(i as int)),
                response_fields_ok(all.take(i as int)),
                seen_regular == exists|k: int|
                    0 <= k < i && !is_pseudo((#[trigger] all[k]).name),
                match first_value(all.take(i as int), name_status) {
                    Some(v) => status == status_of(v) && status is Some,
                    None => status is None,
                },
                headers_view(fields@) == regular_fields(all.take(i as int)),
            decreases headers@.len() - i,
        {
            let header = &headers[i];
            let name = as_slice(&header.name);
            let ghost h = all[i as int];
            let ghost done = all.take(i as int);
            let ghost next = all.take(i + 1);
            proof {
                assert(next.drop_last() =~= done);
                assert(next.last() == h);
                assert(forall|k: int| 0 <= k < i ==> done[k] == all[k]);
                assert(forall|k: int| 0 <= k <= i ==> next[k] == all[k]);
            }
            if is_pseudo_name(name) {
                if seen_regular {
                    proof {
                        let k = choose|k: int| 0 <= k < i && !is_pseudo((#[trigger] all[k]).name);
                        assert(is_pseudo(all[i as int].name));
                        assert(!pseudo_first(all));
                    }
                    return Err(ErrorCode::ProtocolError);
                }
                proof {
                    lemma_first_value(done, h.name);
                }
                if !is_text(name, ":status") {
                    assert(!response_fields_ok(all)) by {
                        assert(is_pseudo(all[i as int].name));
                    }
                    return Err(ErrorCode::ProtocolError);
                }
                if status.is_some() {
                    proof {
                        let k = choose|k: int|
                            0 <= k < done.len() && (#[trigger] done[k]).name == h.name;
                        assert(all[k].name == all[i as int].name);
                        assert(is_pseudo(all[i as int].name));
                        assert(!pseudo_once(all));
                    }
                    return Err(ErrorCode::ProtocolError);
                }
                status = parse_status(as_slice(&header.value));
                if status.is_none() {
                    assert(!response_fields_ok(all)) by {
                        assert(is_pseudo(all[i as int].name));
                    }
                    return Err(ErrorCode::ProtocolError);
                }
            } else {
                seen_regular = true;
                if !is_regular_name(name) {
                    assert(!response_fields_ok(all)) by {
                        assert(!is_pseudo(all[i as int].name));
                    }
                    return Err(ErrorCode::ProtocolError);
                }
                let ghost before = fields@;
                fields.push(header.clone());
                proof {
                    assert(headers_view(fields@) =~= headers_view(before).push(h));
                }
            }
            i += 1;
        }
        assert(all.take(i as int) =~= all);
        match status {
            Some(status) => Ok(ResponseHead { status, fields }),
            None => Err(ErrorCode::ProtocolError),
        }
    }

    /// Is this an informational (1xx) response? Those arrive before the real
    /// one and must not retire the stream (§8.1).
    pub fn is_informational(&self) -> (b: bool)
        ensures
            b == (100 <= self@.status < 200),
    {
        self.status >= 100 && self.status < 200
    }
}

/// The header list a response is sent as: `:status` first.
pub open spec fn response_headers(r: ResponseModel) -> Seq<HeaderModel> {
    seq![plain(":status"@, text_octets(decimal(r.status as nat)))] + r.fields
}

/// A numeral as octets.
pub(crate) fn decimal_octets(n: u64) -> (b: Bytes)
    ensures
        octets(b) == text_octets(decimal(n as nat)),
{
    Bytes::copy_from_slice(decimal_text(n).as_str().as_bytes())
}

impl Response {
    /// A response with no fields beyond `:status`.
    pub fn status(status: u16) -> (r: Self)
        ensures
            r@ == (ResponseModel { status, fields: Seq::empty() }),
    {
        let fields: Vec<Header> = Vec::new();
        assert(headers_view(fields@) =~= Seq::empty());
        Response { status, fields }
    }

    /// The full header list to hand to HPACK.
    pub fn to_headers(&self) -> (headers: Vec<Header>)
        ensures
            headers_view(headers@) == response_headers(self@),
    {
        let mut headers: Vec<Header> = Vec::new();
        headers.push(Header::new(from_static(":status"), decimal_octets(self.status as u64)));
        let mut rest = clone_headers(&self.fields);
        let ghost head = headers@;
        let ghost tail = rest@;
        headers.append(&mut rest);
        proof {
            assert(headers_view(headers@) =~= headers_view(head) + headers_view(tail));
            assert(headers_view(headers@) =~= response_headers(self@));
        }
        headers
    }
}

// ---------------------------------------------------------------------------
// The seam
// ---------------------------------------------------------------------------

/// What a responder tells the connection to do with a stream. Every `id` is a
/// client stream id.
#[derive(Debug)]
pub enum ServiceEvent {
    /// The response head. `end_stream` means no body follows.
    Head { id: StreamId, response: Response, end_stream: bool },
    /// Response body octets.
    Data { id: StreamId, data: Bytes, end_stream: bool },
    /// A trailer section, which always ends the stream (§8.1).
    Trailers { id: StreamId, fields: Vec<Header> },
    /// `n` octets of the request body have been consumed for good. This is what
    /// releases the client's receive window.
    BodyAccepted { id: StreamId, n: u32 },
    /// Abort this stream with `code` (RST_STREAM).
    Reset { id: StreamId, code: ErrorCode },
    /// The backend did not answer: the upstream connection carrying this stream
    /// died before it could. Distinct from a `Head` carrying 502: a 502 from a
    /// backend proves that the backend is there and answering, this speaks
    /// against it. The connection layer turns it into a 502, or a reset if a
    /// `:status` has already gone out.
    Gone { id: StreamId },
    /// The request was turned away because a queue was full. No backend was
    /// asked.
    Shed { id: StreamId },
}

/// What an event says.
#[verifier::ext_equal]
pub enum EventModel {
    Head { id: u32, response: ResponseModel, end_stream: bool },
    Data { id: u32, data: Seq<u8>, end_stream: bool },
    Trailers { id: u32, fields: Seq<HeaderModel> },
    BodyAccepted { id: u32, n: u32 },
    Reset { id: u32, code: ErrorCode },
    Gone { id: u32 },
    Shed { id: u32 },
}

impl View for ServiceEvent {
    type V = EventModel;

    open spec fn view(&self) -> EventModel {
        match self {
            ServiceEvent::Head { id, response, end_stream } => EventModel::Head {
                id: id.value(),
                response: response@,
                end_stream: *end_stream,
            },
            ServiceEvent::Data { id, data, end_stream } => EventModel::Data {
                id: id.value(),
                data: octets(*data),
                end_stream: *end_stream,
            },
            ServiceEvent::Trailers { id, fields } => EventModel::Trailers {
                id: id.value(),
                fields: headers_view(fields@),
            },
            ServiceEvent::BodyAccepted { id, n } => EventModel::BodyAccepted {
                id: id.value(),
                n: *n,
            },
            ServiceEvent::Reset { id, code } => EventModel::Reset {
                id: id.value(),
                code: *code,
            },
            ServiceEvent::Gone { id } => EventModel::Gone { id: id.value() },
            ServiceEvent::Shed { id } => EventModel::Shed { id: id.value() },
        }
    }
}

/// The events of a list.
pub open spec fn events_view(events: Seq<ServiceEvent>) -> Seq<EventModel> {
    Seq::new(events.len(), |i: int| events[i]@)
}

/// One event more.
pub proof fn lemma_events_push(events: Seq<ServiceEvent>, e: ServiceEvent)
    ensures
        events_view(events.push(e)) == events_view(events).push(e@),
{
    assert(events_view(events.push(e)) =~= events_view(events).push(e@));
}

/// What answers a request on a stream.
///
/// A responder records what it was told and answers, now or later, with events.
pub trait Service: Sized {
    /// A complete, validated request head arrived on `id`.
    fn dispatch(
        &mut self,
        id: StreamId,
        head: RequestHead,
        end_stream: bool,
        events: &mut Vec<ServiceEvent>,
    );

    /// Request body octets. The responder owes a `BodyAccepted` for every octet
    /// it takes, or the client's window will never reopen.
    fn body(&mut self, id: StreamId, data: Bytes, end_stream: bool, events: &mut Vec<ServiceEvent>);

    /// A trailer section closed the request. Rare enough to be accepted and
    /// ignored where a responder has nothing to say to it.
    fn trailers(&mut self, id: StreamId, fields: Vec<Header>, events: &mut Vec<ServiceEvent>)
        default_ensures
            *final(self) == *old(self),
            final(events)@ == old(events)@,
    {
        let _ = (id, fields);
    }

    /// The client abandoned the stream. Nothing may be sent for `id` afterwards.
    fn cancel(&mut self, id: StreamId, code: ErrorCode)
        default_ensures
            *final(self) == *old(self),
    {
        let _ = (id, code);
    }

    /// The stream completed normally.
    fn finish(&mut self, id: StreamId)
        default_ensures
            *final(self) == *old(self),
    {
        let _ = id;
    }

    /// `n` octets of this stream's response were written to the client.
    fn released(&mut self, id: StreamId, n: u32)
        default_ensures
            *final(self) == *old(self),
    {
        let _ = (id, n);
    }

    /// A last look at an event before the connection acts on it. `None`
    /// swallows it.
    fn intercept(&mut self, event: ServiceEvent) -> (r: Option<ServiceEvent>)
        default_ensures
            *final(self) == *old(self),
            r == Some(event),
    {
        Some(event)
    }
}

/// The built-in responder.
///
/// `/bytes/<n>` is answered with exactly `n` octets; anything else echoes the
/// request body, or sends `default_body` octets when the request has none.
#[derive(Debug)]
pub struct Echo {
    pub default_body: usize,
    /// Streams still mirroring their request body back. A stream leaves the set
    /// when its request ends.
    pub echoing: HashSet<u32>,
}

/// What the responder holds.
#[verifier::ext_equal]
pub struct EchoModel {
    pub default_body: nat,
    pub echoing: Set<u32>,
}

impl View for Echo {
    type V = EchoModel;

    open spec fn view(&self) -> EchoModel {
        EchoModel { default_body: self.default_body as nat, echoing: self.echoing@ }
    }
}

/// `n` octets of filler.
pub open spec fn filler(n: nat) -> Seq<u8> {
    Seq::new(n, |i: int| 120u8)
}

/// The length a `/bytes/<n>` path asks for, capped; `None` for any other path.
pub open spec fn sized_request(path: Seq<u8>) -> Option<nat> {
    let prefix = text_octets("/bytes/"@);
    let digits = path.skip(prefix.len() as int);
    if path.len() > prefix.len() && path.take(prefix.len() as int) == prefix && all_digits(digits) {
        Some(
            if numeral(digits) > MAX_SIZED_BODY {
                MAX_SIZED_BODY as nat
            } else {
                numeral(digits)
            },
        )
    } else {
        None
    }
}

/// A request without a body of its own to send back.
pub open spec fn sends_no_body(r: RequestModel, end_stream: bool) -> bool {
    end_stream || r.method == text_octets("GET"@) || r.method == text_octets("HEAD"@)
}

impl EchoModel {
    /// The answer to a request head.
    pub open spec fn answer(self, id: u32, r: RequestModel, end_stream: bool) -> Seq<EventModel> {
        match sized_request(before_query(r.path)) {
            Some(n) => {
                let head = EventModel::Head {
                    id,
                    response: ResponseModel {
                        status: 200,
                        fields: seq![plain("content-length"@, text_octets(decimal(n)))],
                    },
                    end_stream: n == 0,
                };
                if n == 0 {
                    seq![head]
                } else {
                    seq![head, EventModel::Data { id, data: filler(n), end_stream: true }]
                }
            },
            None => {
                let head = EventModel::Head {
                    id,
                    response: ResponseModel { status: 200, fields: Seq::empty() },
                    end_stream: false,
                };
                if sends_no_body(r, end_stream) {
                    seq![
                        head,
                        EventModel::Data { id, data: filler(self.default_body), end_stream: true },
                    ]
                } else {
                    seq![head]
                }
            },
        }
    }

    /// The responder after a request head: a request whose body is coming, and
    /// that asked for no particular size, is mirrored.
    pub open spec fn after_dispatch(self, id: u32, r: RequestModel, end_stream: bool) -> EchoModel {
        if sized_request(before_query(r.path)) is None && !sends_no_body(r, end_stream) {
            EchoModel { echoing: self.echoing.insert(id), ..self }
        } else {
            self
        }
    }

    /// The answer to request body octets: mirrored if the stream is, and the
    /// credit given straight back.
    pub open spec fn mirror(self, id: u32, data: Seq<u8>, end_stream: bool) -> Seq<EventModel> {
        (if self.echoing.contains(id) && (data.len() > 0 || end_stream) {
            seq![EventModel::Data { id, data, end_stream }]
        } else {
            Seq::empty()
        }) + (if data.len() as u32 > 0 {
            seq![EventModel::BodyAccepted { id, n: data.len() as u32 }]
        } else {
            Seq::empty()
        })
    }
}

/// Parses `/bytes/<n>`, returning the requested length capped at
/// [`MAX_SIZED_BODY`]. `None` for any other path.
pub fn sized_body_request(path: &[u8]) -> (r: Option<usize>)
    ensures
        match r {
            Some(n) => sized_request(path@) == Some(n as nat),
            None => sized_request(path@) is None,
        },
{
    let prefix = "/bytes/".as_bytes();
    if path.len() <= prefix.len() {
        return None;
    }
    let head = vstd::slice::slice_subrange(path, 0, prefix.len());
    assert(path@.take(prefix@.len() as int) =~= head@);
    if !same_octets(head, prefix) {
        return None;
    }
    let digits = vstd::slice::slice_subrange(path, prefix.len(), path.len());
    assert(path@.skip(prefix@.len() as int) =~= digits@);
    match parse_capped(digits, MAX_SIZED_BODY as u64) {
        Some(n) => Some(n as usize),
        None => None,
    }
}

/// `n` octets of filler.
pub(crate) fn filler_octets(n: usize) -> (b: Bytes)
    ensures
        octets(b) == filler(n as nat),
{
    let v = vec![120u8; n];
    assert(v@ =~= filler(n as nat));
    from_vec(v)
}

impl Default for Echo {
    fn default() -> (e: Self)
        ensures
            e@ == (EchoModel { default_body: 1024, echoing: Set::empty() }),
    {
        Echo::new(1024)
    }
}

impl Echo {
    pub fn new(default_body: usize) -> (e: Self)
        ensures
            e@ == (EchoModel { default_body: default_body as nat, echoing: Set::empty() }),
    {
        Echo { default_body, echoing: HashSet::new() }
    }
}

impl Service for Echo {
    fn dispatch(
        &mut self,
        id: StreamId,
        head: RequestHead,
        end_stream: bool,
        events: &mut Vec<ServiceEvent>,
    )
        ensures
            final(self)@ == old(self)@.after_dispatch(id.value(), head@, end_stream),
            events_view(final(events)@) == events_view(old(events)@) + old(self)@.answer(
                id.value(),
                head@,
                end_stream,
            ),
    {
        let ghost before = events@;
        if let Some(n) = sized_body_request(head.path_only()) {
            let mut fields: Vec<Header> = Vec::new();
            fields.push(Header::new(from_static("content-length"), decimal_octets(n as u64)));
            assert(headers_view(fields@) =~= seq![
                plain("content-length"@, text_octets(decimal(n as nat))),
            ]);
            events.push(
                ServiceEvent::Head {
                    id,
                    response: Response { status: 200, fields },
                    end_stream: n == 0,
                },
            );
            if n > 0 {
                events.push(
                    ServiceEvent::Data { id, data: filler_octets(n), end_stream: true },
                );
            }
            assert(events_view(events@) =~= events_view(before) + old(self)@.answer(
                id.value(),
                head@,
                end_stream,
            ));
            return;
        }
        let bodyless = end_stream || is_text(as_slice(&head.method), "GET") || is_text(
            as_slice(&head.method),
            "HEAD",
        );
        events.push(
            ServiceEvent::Head { id, response: Response::status(200), end_stream: false },
        );
        if bodyless {
            events.push(
                ServiceEvent::Data {
                    id,
                    data: filler_octets(self.default_body),
                    end_stream: true,
                },
            );
        } else {
            self.echoing.insert(id.get());
        }
        assert(events_view(events@) =~= events_view(before) + old(self)@.answer(
            id.value(),
            head@,
            end_stream,
        ));
    }

    fn body(&mut self, id: StreamId, data: Bytes, end_stream: bool, events: &mut Vec<ServiceEvent>)
        ensures
            final(self)@ == (EchoModel {
                echoing: if end_stream {
                    old(self)@.echoing.remove(id.value())
                } else {
                    old(self)@.echoing
                },
                ..old(self)@
            }),
            events_view(final(events)@) == events_view(old(events)@) + old(self)@.mirror(
                id.value(),
                octets(data),
                end_stream,
            ),
    {
        let ghost before = events@;
        let ghost d = octets(data);
        let n = data.len() as u32;
        if self.echoing.contains(&id.get()) && (!data.is_empty() || end_stream) {
            events.push(ServiceEvent::Data { id, data, end_stream });
        }
        if end_stream {
            self.echoing.remove(&id.get());
        }
        if n > 0 {
            events.push(ServiceEvent::BodyAccepted { id, n });
        }
        assert(events_view(events@) =~= events_view(before) + old(self)@.mirror(
            id.value(),
            d,
            end_stream,
        ));
    }

    fn trailers(&mut self, id: StreamId, fields: Vec<Header>, events: &mut Vec<ServiceEvent>)
        ensures
            final(self)@ == (EchoModel {
                echoing: old(self)@.echoing.remove(id.value()),
                ..old(self)@
            }),
            events_view(final(events)@) == events_view(old(events)@) + old(self)@.mirror(
                id.value(),
                Seq::empty(),
                true,
            ),
    {
        let ghost before = events@;
        // The request has ended, so the body that mirrors it ends too.
        if self.echoing.remove(&id.get()) {
            events.push(ServiceEvent::Data { id, data: Bytes::new(), end_stream: true });
        }
        assert(events_view(events@) =~= events_view(before) + old(self)@.mirror(
            id.value(),
            Seq::empty(),
            true,
        ));
    }

    fn cancel(&mut self, id: StreamId, code: ErrorCode)
        ensures
            final(self)@ == (EchoModel {
                echoing: old(self)@.echoing.remove(id.value()),
                ..old(self)@
            }),
    {
        self.echoing.remove(&id.get());
    }

    fn finish(&mut self, id: StreamId)
        ensures
            final(self)@ == old(self)@,
    {
    }

    fn released(&mut self, id: StreamId, n: u32)
        ensures
            final(self)@ == old(self)@,
    {
    }

    fn intercept(&mut self, event: ServiceEvent) -> (r: Option<ServiceEvent>)
        ensures
            final(self)@ == old(self)@,
            r == Some(event),
    {
        Some(event)
    }
}

// ---------------------------------------------------------------------------
// Laws
// ---------------------------------------------------------------------------

/// None of the fields is a pseudo-header.
pub open spec fn no_pseudo(fields: Seq<HeaderModel>) -> bool {
    forall|i: int| 0 <= i < fields.len() ==> !is_pseudo((#[trigger] fields[i]).name)
}

/// All of the fields are pseudo-headers.
pub open spec fn only_pseudo(fields: Seq<HeaderModel>) -> bool {
    forall|i: int| 0 <= i < fields.len() ==> is_pseudo((#[trigger] fields[i]).name)
}

/// The regular fields behind a run of pseudo-headers.
proof fn lemma_regular_fields(head: Seq<HeaderModel>, fields: Seq<HeaderModel>)
    requires
        only_pseudo(head),
        no_pseudo(fields),
    ensures
        regular_fields(head + fields) == fields,
    decreases head.len() + fields.len(),
{
    let all = head + fields;
    if fields.len() > 0 {
        assert(all.drop_last() =~= head + fields.drop_last());
        assert(fields.drop_last().push(fields.last()) =~= fields);
        assert(!is_pseudo(fields[fields.len() - 1].name));
        assert forall|i: int| 0 <= i < fields.drop_last().len() implies !is_pseudo(
            (#[trigger] fields.drop_last()[i]).name,
        ) by {
            assert(fields.drop_last()[i] == fields[i]);
        }
        lemma_regular_fields(head, fields.drop_last());
    } else if head.len() > 0 {
        assert(all.drop_last() =~= head.drop_last() + fields);
        assert(is_pseudo(head[head.len() - 1].name));
        assert forall|i: int| 0 <= i < head.drop_last().len() implies is_pseudo(
            (#[trigger] head.drop_last()[i]).name,
        ) by {
            assert(head.drop_last()[i] == head[i]);
        }
        lemma_regular_fields(head.drop_last(), fields);
    } else {
        assert(fields =~= Seq::empty());
    }
}

/// A pseudo-header's value is the one in front of the regular fields.
proof fn lemma_pseudo_value(head: Seq<HeaderModel>, fields: Seq<HeaderModel>, name: Seq<u8>)
    requires
        is_pseudo(name),
        no_pseudo(fields),
    ensures
        first_value(head + fields, name) == first_value(head, name),
    decreases fields.len(),
{
    if fields.len() > 0 {
        let all = head + fields;
        assert(all.drop_last() =~= head + fields.drop_last());
        assert(!is_pseudo(fields[fields.len() - 1].name));
        assert forall|i: int| 0 <= i < fields.drop_last().len() implies !is_pseudo(
            (#[trigger] fields.drop_last()[i]).name,
        ) by {
            assert(fields.drop_last()[i] == fields[i]);
        }
        lemma_pseudo_value(head, fields.drop_last(), name);
    } else {
        assert(head + fields =~= head);
    }
}

/// What is left of a list without its pseudo-headers has none, and is as legal
/// as the list was.
proof fn lemma_regular_fields_ok(fields: Seq<HeaderModel>)
    ensures
        no_pseudo(regular_fields(fields)),
        request_fields_ok(fields) ==> forall|i: int|
            0 <= i < regular_fields(fields).len() ==> request_field(
                #[trigger] regular_fields(fields)[i],
            ),
    decreases fields.len(),
{
    if fields.len() > 0 {
        let init = fields.drop_last();
        lemma_regular_fields_ok(init);
        if request_fields_ok(fields) {
            assert forall|i: int| 0 <= i < init.len() implies if is_pseudo(
                (#[trigger] init[i]).name,
            ) {
                is_request_pseudo(init[i].name)
            } else {
                request_field(init[i])
            } by {
                assert(init[i] == fields[i]);
            }
            assert(fields[fields.len() - 1] == fields.last());
        }
    }
}

/// A request rebuilt for an upstream is the request that was read, field for
/// field, with every never-indexed mark in place.
pub proof fn a_request_survives_forwarding(fields: Seq<HeaderModel>)
    requires
        is_request(fields),
    ensures
        is_request(request_headers(request_of(fields))),
        request_of(request_headers(request_of(fields))) == request_of(fields),
{
    lemma_regular_fields_ok(fields);
    let r = request_of(fields);
    requests_round_trip(r);
}

/// A request that is written out and read back is the same request: every field
/// in its place, with its value and its mark, and nothing besides.
pub proof fn requests_round_trip(r: RequestModel)
    requires
        r.path.len() > 0,
        no_pseudo(r.fields),
        forall|i: int| 0 <= i < r.fields.len() ==> request_field(#[trigger] r.fields[i]),
    ensures
        is_request(request_headers(r)),
        request_of(request_headers(r)) == r,
{
    lemma_request_names();
    let (m, s, a, p) = (
        text_octets(":method"@),
        text_octets(":scheme"@),
        text_octets(":authority"@),
        text_octets(":path"@),
    );
    let head = seq![plain(":method"@, r.method), plain(":scheme"@, r.scheme)] + (match r.authority {
        Some(authority) => seq![plain(":authority"@, authority)],
        None => Seq::empty(),
    }) + seq![plain(":path"@, r.path)];
    let all = head + r.fields;
    assert(all =~= request_headers(r));
    assert(only_pseudo(head));
    lemma_regular_fields(head, r.fields);
    lemma_pseudo_value(head, r.fields, m);
    lemma_pseudo_value(head, r.fields, s);
    lemma_pseudo_value(head, r.fields, a);
    lemma_pseudo_value(head, r.fields, p);
    lemma_head_values(r, head);
    assert forall|i: int| 0 <= i < all.len() implies if is_pseudo((#[trigger] all[i]).name) {
        is_request_pseudo(all[i].name)
    } else {
        request_field(all[i])
    } by {
        if i >= head.len() {
            assert(all[i] == r.fields[i - head.len()]);
        } else {
            assert(all[i] == head[i]);
        }
    }
    assert forall|i: int, j: int|
        0 <= i < j < all.len() && is_pseudo((#[trigger] all[j]).name) implies is_pseudo(
        (#[trigger] all[i]).name,
    ) && all[i].name != all[j].name by {
        if j >= head.len() {
            assert(all[j] == r.fields[j - head.len()]);
        } else {
            assert(all[i] == head[i] && all[j] == head[j]);
        }
    }
}

/// The values of a request's own pseudo-headers.
proof fn lemma_head_values(r: RequestModel, head: Seq<HeaderModel>)
    requires
        head == seq![plain(":method"@, r.method), plain(":scheme"@, r.scheme)] + (
        match r.authority {
            Some(authority) => seq![plain(":authority"@, authority)],
            None => Seq::empty(),
        }) + seq![plain(":path"@, r.path)],
    ensures
        first_value(head, text_octets(":method"@)) == Some(r.method),
        first_value(head, text_octets(":scheme"@)) == Some(r.scheme),
        first_value(head, text_octets(":authority"@)) == r.authority,
        first_value(head, text_octets(":path"@)) == Some(r.path),
{
    lemma_request_names();
    reveal_with_fuel(first_value, 6);
    match r.authority {
        Some(authority) => {
            let h3 = head.drop_last();
            let h2 = h3.drop_last();
            let h1 = h2.drop_last();
            assert(head.len() == 4);
            assert(h1.drop_last().len() == 0);
            assert(head.last() == plain(":path"@, r.path));
            assert(h3.last() == plain(":authority"@, authority));
            assert(h2.last() == plain(":scheme"@, r.scheme));
            assert(h1.last() == plain(":method"@, r.method));
        },
        None => {
            let h2 = head.drop_last();
            let h1 = h2.drop_last();
            assert(head.len() == 3);
            assert(h1.drop_last().len() == 0);
            assert(head.last() == plain(":path"@, r.path));
            assert(h2.last() == plain(":scheme"@, r.scheme));
            assert(h1.last() == plain(":method"@, r.method));
        },
    }
}

/// Whatever a request is, its answer ends the stream or mirrors a body that is
/// still to come: no request is left waiting for a response that never ends.
pub proof fn every_answer_ends_or_mirrors(
    e: EchoModel,
    id: u32,
    r: RequestModel,
    end_stream: bool,
)
    ensures
        ({
            let last = e.answer(id, r, end_stream).last();
            ||| last matches EventModel::Head { end_stream, .. } && end_stream
            ||| last matches EventModel::Data { end_stream, .. } && end_stream
            ||| !end_stream && e.after_dispatch(id, r, end_stream).echoing.contains(id)
        }),
{
}

/// The regular fields of a list are those that are no pseudo-headers, as they
/// were and in order.
pub proof fn regular_fields_are_kept_in_order(fields: Seq<HeaderModel>)
    ensures
        regular_fields(fields) == fields.filter(
            |h: HeaderModel| h.name.len() == 0 || h.name[0] != 58,
        ),
    decreases fields.len(),
{
    reveal(Seq::filter);
    if fields.len() > 0 {
        regular_fields_are_kept_in_order(fields.drop_last());
    }
}

/// The value that is found under a name is that of the first field with it.
proof fn lemma_first_value_at(fields: Seq<HeaderModel>, name: Seq<u8>, i: int)
    requires
        0 <= i < fields.len(),
        fields[i].name == name,
        forall|k: int| 0 <= k < i ==> (#[trigger] fields[k]).name != name,
    ensures
        first_value(fields, name) == Some(fields[i].value),
    decreases fields.len(),
{
    let init = fields.drop_last();
    if i < init.len() {
        lemma_first_value_at(init, name, i);
    } else {
        lemma_no_value(init, name);
    }
}

proof fn lemma_no_value(fields: Seq<HeaderModel>, name: Seq<u8>)
    requires
        forall|k: int| 0 <= k < fields.len() ==> (#[trigger] fields[k]).name != name,
    ensures
        first_value(fields, name) is None,
    decreases fields.len(),
{
    if fields.len() > 0 {
        let init = fields.drop_last();
        assert forall|k: int| 0 <= k < init.len() implies (#[trigger] init[k]).name != name by {
            assert(init[k] == fields[k]);
        }
        lemma_no_value(init, name);
        assert(fields[fields.len() - 1] == fields.last());
    }
}

proof fn lemma_value_found(fields: Seq<HeaderModel>, name: Seq<u8>)
    requires
        first_value(fields, name) is Some,
    ensures
        exists|i: int| 0 <= i < fields.len() && (#[trigger] fields[i]).name == name,
{
    if forall|k: int| 0 <= k < fields.len() ==> (#[trigger] fields[k]).name != name {
        lemma_no_value(fields, name);
    }
}

/// The first field with a name decides its value, and there is none without such
/// a field.
pub proof fn the_first_field_of_a_name_counts(fields: Seq<HeaderModel>, name: Seq<u8>, i: int)
    ensures
        0 <= i < fields.len() && fields[i].name == name && (forall|k: int|
            0 <= k < i ==> (#[trigger] fields[k]).name != name) ==> first_value(fields, name)
            == Some(fields[i].value),
        first_value(fields, name) is Some <==> exists|k: int|
            0 <= k < fields.len() && (#[trigger] fields[k]).name == name,
{
    if 0 <= i < fields.len() && fields[i].name == name && (forall|k: int|
        0 <= k < i ==> (#[trigger] fields[k]).name != name) {
        lemma_first_value_at(fields, name, i);
    }
    if first_value(fields, name) is Some {
        lemma_value_found(fields, name);
    } else if exists|k: int| 0 <= k < fields.len() && (#[trigger] fields[k]).name == name {
        lemma_some_value(fields, name);
    }
}

proof fn lemma_some_value(fields: Seq<HeaderModel>, name: Seq<u8>)
    requires
        exists|k: int| 0 <= k < fields.len() && (#[trigger] fields[k]).name == name,
    ensures
        first_value(fields, name) is Some,
    decreases fields.len(),
{
    let k = choose|k: int| 0 <= k < fields.len() && (#[trigger] fields[k]).name == name;
    let init = fields.drop_last();
    if k < init.len() {
        assert(init[k].name == name);
        lemma_some_value(init, name);
    }
}

/// A request is what its fields say: each pseudo-header is the value that came
/// under its name, and the regular fields are all there, as they were and in
/// order.
pub proof fn a_request_is_what_its_fields_say(fields: Seq<HeaderModel>, i: int)
    requires
        is_request(fields),
        0 <= i < fields.len(),
    ensures
        ({
            let r = request_of(fields);
            let h = fields[i];
            &&& h.name == text_octets(":method"@) ==> r.method == h.value
            &&& h.name == text_octets(":scheme"@) ==> r.scheme == h.value
            &&& h.name == text_octets(":path"@) ==> r.path == h.value
            &&& h.name == text_octets(":authority"@) ==> r.authority == Some(h.value)
            &&& r.authority is Some ==> exists|k: int|
                0 <= k < fields.len() && (#[trigger] fields[k]).name == text_octets(":authority"@)
            &&& r.fields == fields.filter(
                |h: HeaderModel| h.name.len() == 0 || h.name[0] != 58,
            )
            &&& h.name.len() > 0 && h.name[0] == 58 ==> h.name == text_octets(":method"@) || h.name
                == text_octets(":scheme"@) || h.name == text_octets(":path"@) || h.name
                == text_octets(":authority"@)
        }),
{
    lemma_request_names();
    regular_fields_are_kept_in_order(fields);
    let h = fields[i];
    if is_pseudo(h.name) {
        assert forall|k: int| 0 <= k < i implies (#[trigger] fields[k]).name != h.name by {
            assert(is_pseudo(fields[i].name));
        }
        lemma_first_value_at(fields, h.name, i);
    }
    if request_of(fields).authority is Some {
        lemma_value_found(fields, text_octets(":authority"@));
    }
}

/// A response is a status of three digits, once and in front, and behind it
/// regular fields and nothing else; it says that status, and all of those fields
/// as they were and in order.
pub proof fn a_response_is_what_its_fields_say(fields: Seq<HeaderModel>)
    ensures
        is_response(fields) <==> {
            &&& fields.len() > 0
            &&& fields[0].name == text_octets(":status"@)
            &&& fields[0].value.len() == 3
            &&& 49 <= fields[0].value[0] <= 53
            &&& 48 <= fields[0].value[1] <= 57
            &&& 48 <= fields[0].value[2] <= 57
            &&& forall|i: int|
                1 <= i < fields.len() ==> (#[trigger] fields[i]).name.len() > 0
                    && fields[i].name[0] != 58 && regular_name(fields[i].name)
        },
        is_response(fields) ==> {
            let r = response_of(fields);
            let v = fields[0].value;
            &&& r.status == 100 * (v[0] - 48) + 10 * (v[1] - 48) + (v[2] - 48)
            &&& r.fields == fields.skip(1)
        },
{
    let name = text_octets(":status"@);
    assert(is_pseudo(name)) by {
        lemma_status_name();
    }
    let good = fields.len() > 0 && fields[0].name == name && fields[0].value.len() == 3 && 49
        <= fields[0].value[0] <= 53 && 48 <= fields[0].value[1] <= 57 && 48 <= fields[0].value[2]
        <= 57 && (forall|i: int|
        1 <= i < fields.len() ==> (#[trigger] fields[i]).name.len() > 0 && fields[i].name[0] != 58
            && regular_name(fields[i].name));
    if is_response(fields) {
        lemma_value_found(fields, name);
        let k = choose|k: int| 0 <= k < fields.len() && (#[trigger] fields[k]).name == name;
        if k > 0 {
            assert(is_pseudo(fields[k].name));
            assert(is_pseudo(fields[0].name));
            assert(fields[0].name != fields[k].name);
        }
        assert(k == 0);
        lemma_first_value_at(fields, name, 0);
        lemma_three_digits(fields[0].value);
        assert forall|i: int| 1 <= i < fields.len() implies (#[trigger] fields[i]).name.len() > 0
            && fields[i].name[0] != 58 && regular_name(fields[i].name) by {
            if is_pseudo(fields[i].name) {
                assert(fields[0].name != fields[i].name);
            }
        }
        lemma_status_and_fields(fields);
    }
    if good {
        lemma_first_value_at(fields, name, 0);
        lemma_three_digits(fields[0].value);
        assert(is_response(fields));
    }
}

proof fn lemma_status_name()
    ensures
        is_pseudo(text_octets(":status"@)),
{
    reveal_strlit(":status");
    vstd::utf8::is_ascii_chars_encode_utf8(":status"@);
    assert(text_octets(":status"@)[0] == 58);
}

proof fn lemma_status_and_fields(fields: Seq<HeaderModel>)
    requires
        fields.len() > 0,
        is_pseudo(fields[0].name),
        forall|i: int| 1 <= i < fields.len() ==> !is_pseudo((#[trigger] fields[i]).name),
    ensures
        regular_fields(fields) == fields.skip(1),
{
    let head = fields.take(1);
    let rest = fields.skip(1);
    assert(head + rest =~= fields);
    assert forall|i: int| 0 <= i < rest.len() implies !is_pseudo((#[trigger] rest[i]).name) by {
        assert(rest[i] == fields[i + 1]);
    }
    assert(only_pseudo(head));
    lemma_regular_fields(head, rest);
}

proof fn lemma_three_digits(v: Seq<u8>)
    requires
        v.len() == 3,
    ensures
        status_of(v) is Some <==> 49 <= v[0] <= 53 && 48 <= v[1] <= 57 && 48 <= v[2] <= 57,
        status_of(v) is Some ==> status_of(v)->0 == 100 * (v[0] - 48) + 10 * (v[1] - 48) + (v[2]
            - 48),
{
    let a = v.drop_last();
    let b = a.drop_last();
    assert(b.drop_last().len() == 0);
    reveal_with_fuel(numeral, 4);
    assert(v.last() == v[2] && a.last() == v[1] && b.last() == v[0]);
    if all_digits(v) {
        assert(is_digit(v[0]) && is_digit(v[1]) && is_digit(v[2]));
        assert(numeral(b) == v[0] - 48);
        assert(numeral(a) == 10 * numeral(b) + (v[1] - 48));
        assert(numeral(v) == 10 * numeral(a) + (v[2] - 48));
    }
    if 49 <= v[0] <= 53 && 48 <= v[1] <= 57 && 48 <= v[2] <= 57 {
        assert forall|i: int| 0 <= i < v.len() implies is_digit(#[trigger] v[i]) by {
            assert(i == 0 || i == 1 || i == 2);
        }
    }
}

/// A response that is written out and read back is the same response: the status,
/// and every field in its place with its value and its mark.
pub proof fn responses_round_trip(r: ResponseModel)
    requires
        100 <= r.status <= 599,
        no_pseudo(r.fields),
        forall|i: int| 0 <= i < r.fields.len() ==> regular_name((#[trigger] r.fields[i]).name),
    ensures
        is_response(response_headers(r)),
        response_of(response_headers(r)) == r,
{
    let all = response_headers(r);
    let text = decimal(r.status as nat);
    numbers_round_trip(r.status as nat, 599);
    assert(text.len() == 3) by {
        reveal_with_fuel(decimal, 3);
    }
    lemma_status_name();
    assert(all[0] == plain(":status"@, text_octets(text)));
    assert forall|i: int| 1 <= i < all.len() implies (#[trigger] all[i]).name.len() > 0
        && all[i].name[0] != 58 && regular_name(all[i].name) by {
        assert(all[i] == r.fields[i - 1]);
        assert(!is_pseudo(r.fields[i - 1].name));
    }
    assert(all.skip(1) =~= r.fields);
    lemma_three_digits(text_octets(text));
    assert(status_of(text_octets(text)) == Some(r.status));
    a_response_is_what_its_fields_say(all);
}

/// A path without its query is the path up to the first question mark.
pub proof fn a_query_starts_at_the_first_question_mark(path: Seq<u8>)
    ensures
        ({
            let p = before_query(path);
            &&& p.is_prefix_of(path)
            &&& forall|i: int| 0 <= i < p.len() ==> #[trigger] p[i] != 63
            &&& p.len() < path.len() ==> path[p.len() as int] == 63
        }),
    decreases path.len(),
{
    let p = before_query(path);
    if path.len() > 0 && path[0] != 63 {
        let rest = path.drop_first();
        let q = before_query(rest);
        a_query_starts_at_the_first_question_mark(rest);
        assert forall|i: int| 0 <= i < p.len() implies #[trigger] p[i] != 63 && p[i] == path[i] by {
            if i > 0 {
                assert(p[i] == q[i - 1]);
                assert(q[i - 1] == rest[i - 1]);
            }
        }
        assert(path.take(p.len() as int) =~= p);
        if p.len() < path.len() {
            assert(rest[q.len() as int] == path[p.len() as int]);
        }
    } else {
        assert(path.take(0) =~= p);
    }
}

/// A path that asks for a number of octets gets that many, up to the cap: in the
/// head, and in the body that follows it and ends the answer.
pub proof fn a_sized_path_is_answered_with_that_many_octets(
    e: EchoModel,
    id: u32,
    r: RequestModel,
    n: nat,
    query: Seq<u8>,
    end_stream: bool,
)
    requires
        r.path == text_octets("/bytes/"@) + text_octets(decimal(n)) + query,
        query.len() > 0 ==> query[0] == 63,
    ensures
        ({
            let size = if n > MAX_SIZED_BODY {
                MAX_SIZED_BODY as nat
            } else {
                n
            };
            let told = e.answer(id, r, end_stream);
            &&& told.len() == if size == 0 {
                1nat
            } else {
                2nat
            }
            &&& told[0] matches EventModel::Head { id: to, response, end_stream: ends } && to == id
                && response.status == 200 && response.fields.len() == 1 && response.fields[0]
                == plain("content-length"@, text_octets(decimal(size))) && ends == (size == 0)
            &&& size > 0 ==> (told[1] matches EventModel::Data { id: to, data, end_stream: ends }
                && to == id && data.len() == size && ends)
        }),
{
    let prefix = text_octets("/bytes/"@);
    let digits = text_octets(decimal(n));
    numbers_round_trip(n, n);
    reveal_strlit("/bytes/");
    vstd::utf8::is_ascii_chars_encode_utf8("/bytes/"@);
    let path = r.path;
    a_query_starts_at_the_first_question_mark(path);
    let p = before_query(path);
    let own = prefix + digits;
    assert(path.take(own.len() as int) =~= own);
    assert forall|i: int| 0 <= i < own.len() implies #[trigger] own[i] != 63 by {
        if i >= prefix.len() {
            assert(own[i] == digits[i - prefix.len()]);
            assert(is_digit(digits[i - prefix.len()]));
        } else {
            assert(own[i] == prefix[i]);
        }
    }
    assert(p.len() == own.len()) by {
        if p.len() < own.len() {
            assert(path[p.len() as int] == own[p.len() as int]);
        }
        if p.len() > own.len() {
            assert(path[own.len() as int] == query[0]);
            assert(p[own.len() as int] == path[own.len() as int]);
        }
    }
    assert(p =~= own);
    assert(own.take(prefix.len() as int) =~= prefix);
    assert(own.skip(prefix.len() as int) =~= digits);
}

/// A mirrored body goes back as it came: the octets of each piece, and the end
/// with the piece that has it, while the credit for it is given back in full. For
/// a stream that is not mirrored nothing goes back but the credit.
pub proof fn a_mirrored_body_goes_back_as_it_came(
    e: EchoModel,
    id: u32,
    data: Seq<u8>,
    end_stream: bool,
)
    requires
        data.len() <= u32::MAX,
    ensures
        ({
            let told = e.mirror(id, data, end_stream);
            let back = told.filter(|v: EventModel| v is Data);
            let credit = told.filter(|v: EventModel| v is BodyAccepted);
            &&& back == (if e.echoing.contains(id) && (data.len() > 0 || end_stream) {
                seq![EventModel::Data { id, data, end_stream }]
            } else {
                Seq::empty()
            })
            &&& credit == (if data.len() > 0 {
                seq![EventModel::BodyAccepted { id, n: data.len() as u32 }]
            } else {
                Seq::empty()
            })
            &&& told.len() == back.len() + credit.len()
        }),
{
    reveal(Seq::filter);
    reveal_with_fuel(Seq::filter, 4);
    let told = e.mirror(id, data, end_stream);
    let back = told.filter(|v: EventModel| v is Data);
    let credit = told.filter(|v: EventModel| v is BodyAccepted);
    if told.len() == 2 {
        assert(told.drop_last().drop_last().len() == 0);
        assert(told.drop_last().last() == told[0]);
        assert(told.last() == told[1]);
    } else if told.len() == 1 {
        assert(told.drop_last().len() == 0);
        assert(told.last() == told[0]);
    }
    assert(back =~= (if e.echoing.contains(id) && (data.len() > 0 || end_stream) {
        seq![EventModel::Data { id, data, end_stream }]
    } else {
        Seq::empty()
    }));
    assert(credit =~= (if data.len() > 0 {
        seq![EventModel::BodyAccepted { id, n: data.len() as u32 }]
    } else {
        Seq::empty()
    }));
}

} // verus!
