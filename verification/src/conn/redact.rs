//! Header fields as text that is safe to log.

use crate::hpack::{headers_view, Header, HeaderModel};
use crate::octets::as_slice;
use crate::text::{lossy, lossy_text};
use vstd::prelude::*;
use vstd::string::StringExecFns;

verus! {

/// One field as text. A never-indexed value is withheld.
pub open spec fn shown_field(h: HeaderModel) -> Seq<char> {
    lossy(h.name) + ": "@ + (if h.sensitive {
        "<redacted>"@
    } else {
        lossy(h.value)
    })
}

/// Fields as text, with a comma between each two.
pub open spec fn shown_fields(fields: Seq<HeaderModel>) -> Seq<char>
    decreases fields.len(),
{
    if fields.len() == 0 {
        Seq::empty()
    } else if fields.len() == 1 {
        shown_field(fields[0])
    } else {
        shown_fields(fields.drop_last()) + ", "@ + shown_field(fields.last())
    }
}

/// Renders a header list for the log, without the values that a never-indexed
/// flag marks.
///
/// A sender that took the trouble to keep a value out of a compression table
/// (RFC 7541 §7.1.3) would not thank anyone for writing it to a file.
pub fn redacted(headers: &[Header]) -> (text: String)
    ensures
        text@ == "["@ + shown_fields(headers_view(headers@)) + "]"@,
{
    let ghost all = headers_view(headers@);
    let mut text = String::from_str("[");
    let mut i: usize = 0;
    proof {
        assert(all.take(0) =~= Seq::empty());
        assert("["@ + Seq::<char>::empty() =~= "["@);
    }
    while i < headers.len()
        invariant
            i <= headers@.len(),
            all == headers_view(headers@),
            text@ == "["@ + shown_fields(all.take(i as int)),
        decreases headers@.len() - i,
    {
        let ghost before = text@;
        if i > 0 {
            text.append(", ");
        }
        text.append(lossy_text(as_slice(&headers[i].name)).as_str());
        text.append(": ");
        if headers[i].sensitive {
            text.append("<redacted>");
        } else {
            text.append(lossy_text(as_slice(&headers[i].value)).as_str());
        }
        proof {
            let seen = all.take(i + 1);
            assert(seen.drop_last() =~= all.take(i as int));
            assert(seen.last() == headers@[i as int]@);
            if i == 0 {
                assert(shown_fields(all.take(0)) =~= Seq::empty());
                assert(text@ =~= "["@ + shown_field(seen[0]));
            } else {
                assert(text@ =~= "["@ + (shown_fields(seen.drop_last()) + ", "@ + shown_field(
                    seen.last(),
                )));
            }
        }
        i += 1;
    }
    assert(all.take(i as int) =~= all);
    text.append("]");
    text
}

/// The same fields, but for the values that a never-indexed flag marks.
pub open spec fn same_but_secrets(a: Seq<HeaderModel>, b: Seq<HeaderModel>) -> bool {
    &&& a.len() == b.len()
    &&& forall|i: int|
        0 <= i < a.len() ==> {
            &&& (#[trigger] a[i]).name == b[i].name
            &&& a[i].sensitive == b[i].sensitive
            &&& !a[i].sensitive ==> a[i].value == b[i].value
        }
}

/// No never-indexed value has any influence on what is written: lists that
/// differ in nothing else look the same.
pub proof fn a_sensitive_value_leaves_no_trace(a: Seq<HeaderModel>, b: Seq<HeaderModel>)
    requires
        same_but_secrets(a, b),
    ensures
        shown_fields(a) == shown_fields(b),
    decreases a.len(),
{
    if a.len() == 1 {
        assert(a[0].name == b[0].name);
    } else if a.len() > 1 {
        assert(a.last().name == b.last().name) by {
            assert(a[a.len() - 1].name == b[a.len() - 1].name);
        }
        assert(same_but_secrets(a.drop_last(), b.drop_last())) by {
            assert forall|i: int| 0 <= i < a.drop_last().len() implies {
                &&& (#[trigger] a.drop_last()[i]).name == b.drop_last()[i].name
                &&& a.drop_last()[i].sensitive == b.drop_last()[i].sensitive
                &&& !a.drop_last()[i].sensitive ==> a.drop_last()[i].value
                    == b.drop_last()[i].value
            } by {
                assert(a[i].name == b[i].name);
            }
        }
        a_sensitive_value_leaves_no_trace(a.drop_last(), b.drop_last());
    }
}

/// What is no secret is shown: each field by its name and its value, or the word
/// that stands for one, and the fields in order, with a comma between two.
pub proof fn what_is_no_secret_is_shown(a: Seq<HeaderModel>, b: Seq<HeaderModel>, h: HeaderModel)
    requires
        a.len() > 0,
        b.len() > 0,
    ensures
        shown_fields(a + b) == shown_fields(a) + ", "@ + shown_fields(b),
        shown_fields(seq![h]) == lossy(h.name) + ": "@ + (if h.sensitive {
            "<redacted>"@
        } else {
            lossy(h.value)
        }),
    decreases b.len(),
{
    let all = a + b;
    assert(all.last() == b.last());
    if b.len() == 1 {
        assert(all.drop_last() =~= a);
    } else {
        assert(all.drop_last() =~= a + b.drop_last());
        what_is_no_secret_is_shown(a, b.drop_last(), h);
        assert(shown_fields(all) =~= shown_fields(a) + ", "@ + shown_fields(b));
    }
}

} // verus!
