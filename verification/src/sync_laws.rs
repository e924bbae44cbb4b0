//! Properties of the clipboard sync daemon's list checks: the push decision
//! and the allow list look at every entry, and neither depends on the order
//! of its list.
use vstd::prelude::*;
use vstd::utf8::encode_utf8;
use crate::clipboard::is_text;
use crate::clipboard_sync::{allows, has_text_mime, spec_to_hex};

verus! {

/// A selection whose MIME list holds a text type at any position is one
/// that is pushed (outside the grace window).
pub proof fn lemma_text_at_any_position_pushed(mimes: Seq<String>, i: int)
    requires
        0 <= i < mimes.len(),
        is_text(encode_utf8(mimes[i]@)),
    ensures
        has_text_mime(mimes),
{
}

/// A selection none of whose MIME types is a text type is never pushed.
pub proof fn lemma_no_text_not_pushed(mimes: Seq<String>)
    requires
        forall|i: int| 0 <= i < mimes.len() ==> !is_text(encode_utf8(#[trigger] mimes[i]@)),
    ensures
        !has_text_mime(mimes),
{
}

proof fn lemma_text_carries_over(a: Seq<String>, b: Seq<String>)
    requires
        a.to_multiset() == b.to_multiset(),
        has_text_mime(a),
    ensures
        has_text_mime(b),
{
    let i = choose|i: int| 0 <= i < a.len() && is_text(encode_utf8((#[trigger] a[i])@));
    let x = a[i];
    vstd::seq_lib::to_multiset_contains(a, x);
    vstd::seq_lib::to_multiset_contains(b, x);
    assert(a.contains(x));
    assert(b.contains(x));
    let j = choose|j: int| 0 <= j < b.len() && b[j] == x;
    lemma_text_at_any_position_pushed(b, j);
}

/// The push decision does not depend on the order of the MIME list: two
/// lists with the same entries, in any order, are pushed alike.
pub proof fn lemma_push_ignores_order(a: Seq<String>, b: Seq<String>)
    requires
        a.to_multiset() == b.to_multiset(),
    ensures
        has_text_mime(a) == has_text_mime(b),
{
    if has_text_mime(a) {
        lemma_text_carries_over(a, b);
    }
    if has_text_mime(b) {
        lemma_text_carries_over(b, a);
    }
}

/// A peer whose static key, in lowercase hex, is any entry of the allow
/// list is allowed.
pub proof fn lemma_listed_at_any_position_allowed(allow: Seq<String>, remote_static: Seq<u8>, i: int)
    requires
        0 <= i < allow.len(),
        allow[i]@ == spec_to_hex(remote_static),
    ensures
        allows(allow, remote_static),
{
}

/// A peer whose static key, in lowercase hex, is no entry of the allow
/// list is refused.
pub proof fn lemma_unlisted_refused(allow: Seq<String>, remote_static: Seq<u8>)
    requires
        forall|i: int| 0 <= i < allow.len() ==> (#[trigger] allow[i])@ != spec_to_hex(remote_static),
    ensures
        !allows(allow, remote_static),
{
}

proof fn lemma_allowed_carries_over(a: Seq<String>, b: Seq<String>, remote_static: Seq<u8>)
    requires
        a.to_multiset() == b.to_multiset(),
        allows(a, remote_static),
    ensures
        allows(b, remote_static),
{
    let i = choose|i: int| 0 <= i < a.len() && (#[trigger] a[i])@ == spec_to_hex(remote_static);
    let x = a[i];
    vstd::seq_lib::to_multiset_contains(a, x);
    vstd::seq_lib::to_multiset_contains(b, x);
    assert(a.contains(x));
    assert(b.contains(x));
    let j = choose|j: int| 0 <= j < b.len() && b[j] == x;
    lemma_listed_at_any_position_allowed(b, remote_static, j);
}

/// The allow check does not depend on the order of the allow list: two
/// lists with the same entries, in any order, allow the same peers.
pub proof fn lemma_allow_ignores_order(a: Seq<String>, b: Seq<String>, remote_static: Seq<u8>)
    requires
        a.to_multiset() == b.to_multiset(),
    ensures
        allows(a, remote_static) == allows(b, remote_static),
{
    if allows(a, remote_static) {
        lemma_allowed_carries_over(a, b, remote_static);
    }
    if allows(b, remote_static) {
        lemma_allowed_carries_over(b, a, remote_static);
    }
}

} // verus!
