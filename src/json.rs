//! Framing of JSON text: arrays, booleans and string literals.

use vstd::prelude::*;

verus! {

/// The JSON string literal for a text: quoted, with the characters that JSON
/// requires escaped.
pub uninterp spec fn json_string(s: Seq<char>) -> Seq<char>;

/// Relies on serde_json::to_string applied to a str, which writes the quoted,
/// escaped literal; serialising a str has no failing case.
#[verifier::external_body]
pub(crate) fn json_quoted(s: &str) -> (r: String)
    ensures
        r@ == json_string(s@),
{
    match serde_json::to_string(s) {
        Ok(t) => t,
        Err(_) => String::new(),
    }
}

pub open spec fn json_bool(b: bool) -> Seq<char> {
    if b {
        "true"@
    } else {
        "false"@
    }
}

/// The items separated by commas.
pub open spec fn joined(items: Seq<Seq<char>>) -> Seq<char>
    decreases items.len(),
{
    if items.len() == 0 {
        Seq::empty()
    } else if items.len() == 1 {
        items[0]
    } else {
        joined(items.drop_last()) + ","@ + items.last()
    }
}

pub open spec fn json_array(items: Seq<Seq<char>>) -> Seq<char> {
    "["@ + joined(items) + "]"@
}

pub(crate) fn append_bool(s: &mut String, b: bool)
    ensures
        final(s)@ == old(s)@ + json_bool(b),
{
    if b {
        s.append("true");
    } else {
        s.append("false");
    }
}

/// Appends the item at position `i` of an array whose first `i` items stand in `s` after `[`.
pub(crate) fn append_item(s: &mut String, items: Ghost<Seq<Seq<char>>>, i: usize, item: &str)
    requires
        i < items@.len(),
        items@[i as int] == item@,
        old(s)@ == "["@ + joined(items@.take(i as int)),
    ensures
        final(s)@ == "["@ + joined(items@.take(i + 1)),
{
    if i > 0 {
        s.append(",");
    }
    s.append(item);
    proof {
        let t = items@.take(i + 1);
        assert(t.drop_last() =~= items@.take(i as int));
        if i == 0 {
            assert(items@.take(0) =~= Seq::<Seq<char>>::empty());
        }
        assert(final(s)@ =~= "["@ + joined(t));
    }
}

pub(crate) fn close_array(s: &mut String, items: Ghost<Seq<Seq<char>>>)
    requires
        old(s)@ == "["@ + joined(items@.take(items@.len() as int)),
    ensures
        final(s)@ == json_array(items@),
{
    s.append("]");
    proof {
        assert(items@.take(items@.len() as int) =~= items@);
    }
}

} // verus!
