//! What a request looks like once it leaves for a backend.

use crate::conn::engine::text_bytes;
use crate::hpack::{headers_view, Header, HeaderModel};
use crate::octets::{as_slice, from_static, octets};
use crate::service::{first_value, is_text, plain, text_octets, RequestHead, RequestModel};
use crate::text::{lossy, lossy_text};
use bytes::Bytes;
use vstd::prelude::*;
use vstd::string::StringExecFns;
use vstd::utf8::encode_utf8;

verus! {

/// The fields but those with this name, in order.
pub open spec fn without_named(fields: Seq<HeaderModel>, name: Seq<u8>) -> Seq<HeaderModel>
    decreases fields.len(),
{
    if fields.len() == 0 {
        Seq::empty()
    } else if fields.last().name == name {
        without_named(fields.drop_last(), name)
    } else {
        without_named(fields.drop_last(), name).push(fields.last())
    }
}

/// A request without what describes the client hop: `te`, which HTTP/2 permits
/// only as `trailers` and which means nothing to a backend.
pub open spec fn sanitized(r: RequestModel) -> RequestModel {
    RequestModel { fields: without_named(r.fields, text_octets("te"@)), ..r }
}

/// The `x-forwarded-for` a backend gets: the peer, behind the chain the client
/// sent where that is trusted.
pub open spec fn forwarded_for(
    fields: Seq<HeaderModel>,
    peer: Seq<char>,
    trust: bool,
) -> Seq<u8> {
    match first_value(fields, text_octets("x-forwarded-for"@)) {
        Some(chain) => if trust {
            encode_utf8(lossy(chain) + ", "@ + peer)
        } else {
            encode_utf8(peer)
        },
        None => encode_utf8(peer),
    }
}

/// A request that says who the client is and how it reached us. Without a peer
/// nothing is invented.
pub open spec fn forwarded(r: RequestModel, peer: Option<Seq<char>>, trust: bool) -> RequestModel {
    match peer {
        None => r,
        Some(peer) => RequestModel {
            fields: without_named(
                without_named(r.fields, text_octets("x-forwarded-for"@)),
                text_octets("x-forwarded-proto"@),
            ).push(plain("x-forwarded-for"@, forwarded_for(r.fields, peer, trust))).push(
                plain("x-forwarded-proto"@, text_octets("https"@)),
            ),
            ..r
        },
    }
}

/// Methods safe to send twice (RFC 9110 §9.2.2). POST and PATCH are absent and
/// must stay absent.
pub open spec fn idempotent(method: Seq<u8>) -> bool {
    ||| method == text_octets("GET"@)
    ||| method == text_octets("HEAD"@)
    ||| method == text_octets("OPTIONS"@)
    ||| method == text_octets("TRACE"@)
    ||| method == text_octets("DELETE"@)
    ||| method == text_octets("PUT"@)
}

/// Whether a method is safe to send twice.
pub fn is_idempotent(method: &[u8]) -> (b: bool)
    ensures
        b == idempotent(method@),
{
    is_text(method, "GET") || is_text(method, "HEAD") || is_text(method, "OPTIONS") || is_text(
        method,
        "TRACE",
    ) || is_text(method, "DELETE") || is_text(method, "PUT")
}

/// The fields but those with this name.
fn fields_without(fields: &[Header], name: &str) -> (kept: Vec<Header>)
    ensures
        headers_view(kept@) == without_named(headers_view(fields@), text_octets(name@)),
{
    let ghost all = headers_view(fields@);
    let mut kept: Vec<Header> = Vec::new();
    let mut i: usize = 0;
    assert(all.take(0) =~= Seq::empty());
    assert(headers_view(kept@) =~= Seq::empty());
    while i < fields.len()
        invariant
            all == headers_view(fields@),
            i <= fields@.len(),
            headers_view(kept@) == without_named(all.take(i as int), text_octets(name@)),
        decreases fields@.len() - i,
    {
        assert(all.take(i + 1).drop_last() =~= all.take(i as int));
        if !is_text(as_slice(&fields[i].name), name) {
            let ghost before = kept@;
            let field = fields[i].clone();
            kept.push(field);
            assert(headers_view(kept@) =~= headers_view(before).push(all[i as int]));
        }
        i += 1;
    }
    assert(all.take(i as int) =~= all);
    kept
}

/// The value of the first field with this name.
fn find_value(fields: &[Header], name: &str) -> (r: Option<Bytes>)
    ensures
        match r {
            Some(v) => first_value(headers_view(fields@), text_octets(name@)) == Some(octets(v)),
            None => first_value(headers_view(fields@), text_octets(name@)) is None,
        },
{
    let ghost all = headers_view(fields@);
    let mut i: usize = 0;
    assert(all.take(0) =~= Seq::empty());
    while i < fields.len()
        invariant
            all == headers_view(fields@),
            i <= fields@.len(),
            first_value(all.take(i as int), text_octets(name@)) is None,
        decreases fields@.len() - i,
    {
        assert(all.take(i + 1).drop_last() =~= all.take(i as int));
        if is_text(as_slice(&fields[i].name), name) {
            proof {
                lemma_first_stays(all, text_octets(name@), i + 1);
            }
            return Some(fields[i].value.clone());
        }
        i += 1;
    }
    assert(all.take(i as int) =~= all);
    None
}

/// A value found among the first fields is the one found among all.
proof fn lemma_first_stays(fields: Seq<HeaderModel>, name: Seq<u8>, k: int)
    requires
        0 <= k <= fields.len(),
        first_value(fields.take(k), name) is Some,
    ensures
        first_value(fields, name) == first_value(fields.take(k), name),
    decreases fields.len(),
{
    if k < fields.len() {
        assert(fields.drop_last().take(k) =~= fields.take(k));
        lemma_first_stays(fields.drop_last(), name, k);
    } else {
        assert(fields.take(k) =~= fields);
    }
}

/// Strips what describes the client hop rather than the request. The
/// `:authority` is kept: rewriting it silently changes which virtual host the
/// backend serves.
pub fn sanitize(head: &mut RequestHead)
    ensures
        final(head)@ == sanitized(old(head)@),
{
    head.fields = fields_without(&head.fields, "te");
}

/// Tells the backend who the client is and how it reached us. The client leg is
/// TLS by construction.
pub fn add_forwarded(head: &mut RequestHead, peer: &Option<String>, trust: bool)
    ensures
        final(head)@ == forwarded(
            old(head)@,
            match *peer {
                Some(p) => Some(p@),
                None => None,
            },
            trust,
        ),
{
    match peer {
        None => {},
        Some(peer) => {
            let existing = if trust {
                find_value(&head.fields, "x-forwarded-for")
            } else {
                None
            };
            let rest = fields_without(&head.fields, "x-forwarded-for");
            let mut rest = fields_without(&rest, "x-forwarded-proto");
            let value = match existing {
                Some(chain) => {
                    let mut text = lossy_text(as_slice(&chain));
                    text.append(", ");
                    text.append(peer.as_str());
                    text_bytes(text.as_str())
                },
                None => text_bytes(peer.as_str()),
            };
            let ghost r0 = headers_view(rest@);
            let ghost v = octets(value);
            rest.push(Header::new(from_static("x-forwarded-for"), value));
            rest.push(Header::new(from_static("x-forwarded-proto"), from_static("https")));
            assert(headers_view(rest@) =~= r0.push(plain("x-forwarded-for"@, v)).push(
                plain("x-forwarded-proto"@, text_octets("https"@)),
            ));
            head.fields = rest;
        },
    }
}

// ---------------------------------------------------------------------------
// Laws
// ---------------------------------------------------------------------------

/// No field with this name is left.
pub open spec fn none_named(fields: Seq<HeaderModel>, name: Seq<u8>) -> bool {
    forall|i: int| 0 <= i < fields.len() ==> (#[trigger] fields[i]).name != name
}

proof fn lemma_without_named(fields: Seq<HeaderModel>, name: Seq<u8>)
    ensures
        none_named(without_named(fields, name), name),
        forall|other: Seq<u8>|
            none_named(fields, other) ==> #[trigger] none_named(without_named(fields, name), other),
    decreases fields.len(),
{
    if fields.len() > 0 {
        let init = fields.drop_last();
        lemma_without_named(init, name);
        assert forall|other: Seq<u8>| none_named(fields, other) implies #[trigger] none_named(
            without_named(fields, name),
            other,
        ) by {
            assert(none_named(init, other)) by {
                assert forall|i: int| 0 <= i < init.len() implies (#[trigger] init[i]).name
                    != other by {
                    assert(fields[i] == init[i]);
                }
            }
            assert(none_named(without_named(init, name), other));
        }
    }
}

/// Sanitizing drops `te` and keeps everything about where the request goes.
pub proof fn sanitizing_drops_only_the_client_hop(r: RequestModel)
    ensures
        none_named(sanitized(r).fields, text_octets("te"@)),
        sanitized(r).authority == r.authority,
        sanitized(r).path == r.path,
        sanitized(r).method == r.method,
        sanitized(r).scheme == r.scheme,
{
    lemma_without_named(r.fields, text_octets("te"@));
}

proof fn lemma_without_named_filter(fields: Seq<HeaderModel>, name: Seq<u8>)
    ensures
        without_named(fields, name) == fields.filter(|h: HeaderModel| h.name != name),
    decreases fields.len(),
{
    reveal(Seq::filter);
    if fields.len() > 0 {
        lemma_without_named_filter(fields.drop_last(), name);
    }
}

pub proof fn lemma_filter_twice(
    fields: Seq<HeaderModel>,
    a: spec_fn(HeaderModel) -> bool,
    b: spec_fn(HeaderModel) -> bool,
    both: spec_fn(HeaderModel) -> bool,
)
    requires
        forall|h: HeaderModel| #[trigger] both(h) <==> a(h) && b(h),
    ensures
        fields.filter(a).filter(b) == fields.filter(both),
    decreases fields.len(),
{
    reveal(Seq::filter);
    if fields.len() > 0 {
        lemma_filter_twice(fields.drop_last(), a, b, both);
        let kept = fields.drop_last().filter(a);
        assert(kept.push(fields.last()).drop_last() =~= kept);
        assert(both(fields.last()) <==> a(fields.last()) && b(fields.last()));
    }
}

/// Sanitizing loses nothing but the hop: every field that is not `te` arrives as
/// it was, with its value and its mark, as often and in the same order; and so
/// does where the request goes.
pub proof fn sanitizing_loses_nothing_but_the_hop(r: RequestModel)
    ensures
        sanitized(r) == (RequestModel {
            fields: r.fields.filter(|h: HeaderModel| h.name != text_octets("te"@)),
            ..r
        }),
{
    lemma_without_named_filter(r.fields, text_octets("te"@));
}

/// Naming the client loses nothing but what names one already: the other fields
/// arrive as they were and in order, behind them who the client is and how it
/// came; and without a peer nothing changes at all.
pub proof fn naming_the_client_loses_nothing_else(
    r: RequestModel,
    peer: Seq<char>,
    trust: bool,
)
    ensures
        ({
            let n = forwarded(r, Some(peer), trust);
            let kept = r.fields.filter(
                |h: HeaderModel|
                    h.name != text_octets("x-forwarded-for"@) && h.name != text_octets(
                        "x-forwarded-proto"@,
                    ),
            );
            &&& n.fields.len() == kept.len() + 2
            &&& n.fields.take(kept.len() as int) == kept
            &&& n.fields[kept.len() as int].name == text_octets("x-forwarded-for"@)
            &&& n.fields[kept.len() as int + 1].name == text_octets("x-forwarded-proto"@)
            &&& n.fields[kept.len() as int + 1].value == text_octets("https"@)
            &&& n == (RequestModel { fields: n.fields, ..r })
        }),
        forwarded(r, None, trust) == r,
{
    let xff = text_octets("x-forwarded-for"@);
    let xfp = text_octets("x-forwarded-proto"@);
    lemma_without_named_filter(r.fields, xff);
    lemma_without_named_filter(without_named(r.fields, xff), xfp);
    let both = |h: HeaderModel| h.name != xff && h.name != xfp;
    lemma_filter_twice(
        r.fields,
        |h: HeaderModel| h.name != xff,
        |h: HeaderModel| h.name != xfp,
        both,
    );
    let n = forwarded(r, Some(peer), trust);
    let kept = r.fields.filter(both);
    assert(n.fields.take(kept.len() as int) =~= kept);
}

/// By default a client's own claim about who it is does not survive: the request
/// carries one `x-forwarded-for`, and it is the peer.
pub proof fn a_forged_chain_is_replaced(r: RequestModel, peer: Seq<char>)
    ensures
        ({
            let fields = forwarded(r, Some(peer), false).fields;
            let n = fields.len();
            &&& n >= 2
            &&& fields[n - 2] == plain("x-forwarded-for"@, encode_utf8(peer))
            &&& none_named(fields.take(n - 2), text_octets("x-forwarded-for"@))
            &&& none_named(fields.take(n - 2), text_octets("x-forwarded-proto"@))
        }),
{
    let xff = text_octets("x-forwarded-for"@);
    let xfp = text_octets("x-forwarded-proto"@);
    let a = without_named(r.fields, xff);
    let b = without_named(a, xfp);
    lemma_without_named(r.fields, xff);
    lemma_without_named(a, xfp);
    let fields = forwarded(r, Some(peer), false).fields;
    assert(fields.take(fields.len() - 2) =~= b);
}

proof fn lemma_encode_concat(a: Seq<char>, b: Seq<char>)
    ensures
        encode_utf8(a + b) == encode_utf8(a) + encode_utf8(b),
    decreases a.len(),
{
    if a.len() == 0 {
        assert(a + b =~= b);
        assert(encode_utf8(a) + encode_utf8(b) =~= encode_utf8(b));
    } else {
        assert((a + b).drop_first() =~= a.drop_first() + b);
        lemma_encode_concat(a.drop_first(), b);
        assert(encode_utf8(a + b) =~= encode_utf8(a) + encode_utf8(b));
    }
}

/// A trusted chain is appended to.
pub proof fn a_trusted_chain_is_appended_to(
    r: RequestModel,
    chain: Seq<u8>,
    peer: Seq<char>,
)
    requires
        first_value(r.fields, text_octets("x-forwarded-for"@)) == Some(chain),
    ensures
        ({
            let fields = forwarded(r, Some(peer), true).fields;
            fields[fields.len() - 2].value == encode_utf8(lossy(chain)) + encode_utf8(", "@)
                + encode_utf8(peer)
        }),
{
    lemma_encode_concat(lossy(chain) + ", "@, peer);
    lemma_encode_concat(lossy(chain), ", "@);
}

/// A request that could change something is never one that may be sent twice.
pub proof fn unsafe_methods_are_not_idempotent()
    ensures
        !idempotent(text_octets("POST"@)),
        !idempotent(text_octets("PATCH"@)),
        !idempotent(text_octets("CONNECT"@)),
{
    reveal_strlit("GET");
    reveal_strlit("HEAD");
    reveal_strlit("OPTIONS");
    reveal_strlit("TRACE");
    reveal_strlit("DELETE");
    reveal_strlit("PUT");
    reveal_strlit("POST");
    reveal_strlit("PATCH");
    reveal_strlit("CONNECT");
    vstd::utf8::is_ascii_chars_encode_utf8("GET"@);
    vstd::utf8::is_ascii_chars_encode_utf8("HEAD"@);
    vstd::utf8::is_ascii_chars_encode_utf8("OPTIONS"@);
    vstd::utf8::is_ascii_chars_encode_utf8("TRACE"@);
    vstd::utf8::is_ascii_chars_encode_utf8("DELETE"@);
    vstd::utf8::is_ascii_chars_encode_utf8("PUT"@);
    vstd::utf8::is_ascii_chars_encode_utf8("POST"@);
    vstd::utf8::is_ascii_chars_encode_utf8("PATCH"@);
    vstd::utf8::is_ascii_chars_encode_utf8("CONNECT"@);
    assert(text_octets("POST"@).len() == 4);
    assert(text_octets("PATCH"@).len() == 5);
    assert(text_octets("CONNECT"@).len() == 7);
    assert(text_octets("GET"@).len() == 3);
    assert(text_octets("HEAD"@)[0] == 72);
    assert(text_octets("OPTIONS"@)[0] == 79);
    assert(text_octets("TRACE"@)[0] == 84);
    assert(text_octets("DELETE"@).len() == 6);
    assert(text_octets("PUT"@).len() == 3);
    assert(text_octets("POST"@)[0] == 80);
    assert(text_octets("PATCH"@)[0] == 80);
    assert(text_octets("CONNECT"@)[0] == 67);
}

} // verus!
