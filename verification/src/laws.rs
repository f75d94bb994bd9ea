//! Global laws of the navigation surface, proved over the session model.

use vstd::prelude::*;

use crate::model::{
    NavRes, SState, StepRes, doc_items, doc_keys, lemma_step_item, lemma_step_measure, measure,
    spec_next_item, spec_next_key, spec_step,
};
use crate::types::{ValueType, VItemKind};

verus! {

/// Repeatedly taking the next item walks the document's key-and-value
/// stream in order and in full: from any state, the next item found is
/// exactly the head of the stream of keys and values still ahead, and
/// the state after it carries exactly the tail of that stream; a
/// structural marker is never returned as an item; and end of stream is
/// reported exactly when no key or value remains ahead.
pub proof fn lemma_next_item_yields_stream(s: SState)
    ensures
        (spec_next_item(s) matches NavRes::Found(k, vt, tx, s2)) ==> (spec_next_item(
            s,
        ) matches NavRes::Found(k, vt, tx, s2) && k != VItemKind::Marker && doc_items(s)
            == seq![(k, vt, tx)] + doc_items(s2)),
        (spec_next_item(s) matches NavRes::Eos(s1)) ==> doc_items(s) == Seq::<
            (VItemKind, ValueType, Seq<char>),
        >::empty(),
        (spec_next_item(s) matches NavRes::Dead(f)) ==> doc_items(s) == Seq::<
            (VItemKind, ValueType, Seq<char>),
        >::empty(),
    decreases measure(s),
{
    if s.ahead != 0 {
        lemma_step_measure(s);
        lemma_step_item(s);
        match spec_step(s) {
            StepRes::Dead(_) => {},
            StepRes::Good(s2, it) => {
                if it.kind is Marker {
                    lemma_next_item_yields_stream(s2);
                }
            },
        }
    }
}

/// Repeatedly taking the next key walks the document's key stream in
/// order and in full: the key found is exactly the head of the stream of
/// keys still ahead, the state after it carries exactly the tail, and
/// end of stream is reported exactly when no key remains ahead.
pub proof fn lemma_next_key_yields_keys(s: SState)
    ensures
        (spec_next_key(s) matches NavRes::Found(k, vt, tx, s2)) ==> (spec_next_key(
            s,
        ) matches NavRes::Found(k, vt, tx, s2) && k == VItemKind::Key && doc_keys(s)
            == seq![tx] + doc_keys(s2)),
        (spec_next_key(s) matches NavRes::Eos(s1)) ==> doc_keys(s) == Seq::<Seq<char>>::empty(),
        (spec_next_key(s) matches NavRes::Dead(f)) ==> doc_keys(s) == Seq::<
            Seq<char>,
        >::empty(),
    decreases measure(s),
{
    if s.ahead != 0 {
        lemma_step_measure(s);
        match spec_step(s) {
            StepRes::Dead(_) => {},
            StepRes::Good(s2, it) => {
                if !(it.kind is Key) {
                    lemma_next_key_yields_keys(s2);
                }
            },
        }
    }
}

} // verus!
