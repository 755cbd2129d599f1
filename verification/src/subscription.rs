//! The subscription request and its validation rule.
//!
//! A form body is a valid subscription request exactly when it parses as
//! url-encoded key/value pairs and carries both a `name` and an `email` key
//! with a non-empty decoded value — in any key order, extra keys ignored.
//! No further shape check (such as an email format check) is performed.

use vstd::prelude::*;

use crate::form::bytes_eq;
use crate::form::parse_form;
use crate::form::spec_parse_form;

verus! {

/// The bytes of the form key `name`.
pub open spec fn name_key() -> Seq<u8> {
    seq![0x6eu8, 0x61u8, 0x6du8, 0x65u8]
}

/// The bytes of the form key `email`.
pub open spec fn email_key() -> Seq<u8> {
    seq![0x65u8, 0x6du8, 0x61u8, 0x69u8, 0x6cu8]
}

/// The form key `name`, as a byte vector.
pub fn name_key_bytes() -> (r: Vec<u8>)
    ensures
        r@ == name_key(),
{
    let mut v: Vec<u8> = Vec::new();
    v.push(0x6e);
    v.push(0x61);
    v.push(0x6d);
    v.push(0x65);
    proof {
        assert(v@ =~= name_key());
    }
    v
}

/// The form key `email`, as a byte vector.
pub fn email_key_bytes() -> (r: Vec<u8>)
    ensures
        r@ == email_key(),
{
    let mut v: Vec<u8> = Vec::new();
    v.push(0x65);
    v.push(0x6d);
    v.push(0x61);
    v.push(0x69);
    v.push(0x6c);
    proof {
        assert(v@ =~= email_key());
    }
    v
}

/// Whether some pair carries `key` with a non-empty value.
pub open spec fn has_field(pairs: Seq<(Seq<u8>, Seq<u8>)>, key: Seq<u8>) -> bool {
    exists|i: int|
        0 <= i < pairs.len() && (#[trigger] pairs[i]).0 == key && pairs[i].1.len() > 0
}

/// The value of the first pair that carries `key` with a non-empty value;
/// the empty sequence when there is none.
pub open spec fn first_field_value(pairs: Seq<(Seq<u8>, Seq<u8>)>, key: Seq<u8>) -> Seq<u8>
    decreases pairs.len(),
{
    if pairs.len() == 0 {
        Seq::empty()
    } else if pairs[0].0 == key && pairs[0].1.len() > 0 {
        pairs[0].1
    } else {
        first_field_value(pairs.skip(1), key)
    }
}

/// The first match of a forward scan is the first field value.
pub proof fn lemma_first_field_value(pairs: Seq<(Seq<u8>, Seq<u8>)>, key: Seq<u8>, i: int)
    requires
        0 <= i < pairs.len(),
        pairs[i].0 == key,
        pairs[i].1.len() > 0,
        forall|m: int|
            0 <= m < i ==> !((#[trigger] pairs[m]).0 == key && pairs[m].1.len() > 0),
    ensures
        first_field_value(pairs, key) == pairs[i].1,
    decreases i,
{
    if i > 0 {
        assert(!(pairs[0].0 == key && pairs[0].1.len() > 0));
        assert(pairs.skip(1)[i - 1] == pairs[i]);
        assert forall|m: int|
            0 <= m < i - 1 implies !((#[trigger] pairs.skip(1)[m]).0 == key
            && pairs.skip(1)[m].1.len() > 0) by {
            assert(pairs.skip(1)[m] == pairs[m + 1]);
        }
        lemma_first_field_value(pairs.skip(1), key, i - 1);
    }
}

/// The index of the first pair that carries `key` with a non-empty value.
fn find_field(pairs: &Vec<(Vec<u8>, Vec<u8>)>, key: &[u8]) -> (r: Option<usize>)
    ensures
        r is Some <==> has_field(pairs.deep_view(), key@),
        r matches Some(i) ==> i < pairs@.len()
            && pairs.deep_view()[i as int].0 == key@
            && pairs.deep_view()[i as int].1.len() > 0
            && pairs.deep_view()[i as int].1 == first_field_value(pairs.deep_view(), key@),
{
    let ghost dv = pairs.deep_view();
    let mut idx: usize = 0;
    while idx < pairs.len()
        invariant
            idx <= pairs@.len(),
            dv == pairs.deep_view(),
            dv.len() == pairs@.len(),
            forall|m: int|
                0 <= m < idx ==> !((#[trigger] dv[m]).0 == key@ && dv[m].1.len() > 0),
        decreases pairs@.len() - idx,
    {
        proof {
            assert(dv[idx as int] == pairs@[idx as int].deep_view());
            assert(pairs@[idx as int].0.deep_view() =~= pairs@[idx as int].0@);
            assert(pairs@[idx as int].1.deep_view() =~= pairs@[idx as int].1@);
        }
        if bytes_eq(pairs[idx].0.as_slice(), key) && pairs[idx].1.len() > 0 {
            proof {
                lemma_first_field_value(dv, key@, idx as int);
            }
            return Some(idx);
        }
        idx = idx + 1;
    }
    None
}

/// A subscription request: the decoded `name` and `email` values of a valid
/// form body.
pub struct SubscriptionRequest {
    pub name: Vec<u8>,
    pub email: Vec<u8>,
}

impl SubscriptionRequest {
    /// The invariant of a subscription request: both fields are non-empty.
    pub open spec fn wf(&self) -> bool {
        self.name@.len() > 0 && self.email@.len() > 0
    }
}

/// Whether `body` is a valid subscription form body: it parses, and carries
/// non-empty `name` and `email` values.
pub open spec fn spec_valid_body(body: Seq<u8>) -> bool {
    match spec_parse_form(body) {
        Some(pairs) => has_field(pairs, name_key()) && has_field(pairs, email_key()),
        None => false,
    }
}

/// A parseable body whose pairs carry a non-empty `name` and a non-empty
/// `email` — in any order, with any extra pairs — is a valid subscription
/// body.
pub proof fn lemma_valid_form_accepted(body: Seq<u8>, pairs: Seq<(Seq<u8>, Seq<u8>)>)
    requires
        spec_parse_form(body) == Some(pairs),
        has_field(pairs, name_key()),
        has_field(pairs, email_key()),
    ensures
        spec_valid_body(body),
{
}

/// Parses `body` and returns the subscription request it carries, or `None`
/// when `body` is not a valid subscription form body. The returned fields
/// are the first non-empty `name` and `email` values of the body.
pub fn parse_subscription(body: &[u8]) -> (r: Option<SubscriptionRequest>)
    ensures
        r is Some <==> spec_valid_body(body@),
        r matches Some(req) ==> req.wf()
            && req.name@ == first_field_value(spec_parse_form(body@).unwrap(), name_key())
            && req.email@ == first_field_value(spec_parse_form(body@).unwrap(), email_key()),
{
    let pairs = match parse_form(body) {
        Some(p) => p,
        None => {
            return None;
        },
    };
    let nk = name_key_bytes();
    let ek = email_key_bytes();
    let ni = match find_field(&pairs, nk.as_slice()) {
        Some(i) => i,
        None => {
            return None;
        },
    };
    let ei = match find_field(&pairs, ek.as_slice()) {
        Some(i) => i,
        None => {
            return None;
        },
    };
    let name = pairs[ni].1.clone();
    let email = pairs[ei].1.clone();
    proof {
        assert(name@ =~= pairs@[ni as int].1@);
        assert(email@ =~= pairs@[ei as int].1@);
        assert(pairs@[ni as int].1.deep_view() =~= pairs@[ni as int].1@);
        assert(pairs@[ei as int].1.deep_view() =~= pairs@[ei as int].1@);
    }
    Some(SubscriptionRequest { name, email })
}

} // verus!
