//! What numerals and rendered errors say.

use vstd::prelude::*;

use crate::error;
use crate::error::{ErrorModel, JsyncErrorKind};
use crate::string_map;
use crate::text;

verus! {

/// The number that a sequence of decimal digits stands for.
pub open spec fn digits_value(digits: Seq<char>) -> int
    decreases digits.len(),
{
    if digits.len() == 0 {
        0
    } else {
        10 * digits_value(digits.drop_last()) + (digits.last() as int - '0' as int)
    }
}

/// The number that a numeral stands for: a minus sign negates it.
pub open spec fn numeral_value(numeral: Seq<char>) -> int {
    if numeral.len() > 0 && numeral[0] == '-' {
        -digits_value(numeral.drop_first())
    } else {
        digits_value(numeral)
    }
}

proof fn lemma_digits(n: nat)
    ensures
        digits_value(text::digits(n)) == n,
        text::digits(n).len() > 0,
        forall|i: int|
            0 <= i < text::digits(n).len() ==> '0' <= #[trigger] text::digits(n)[i] && text::digits(
                n,
            )[i] <= '9',
        n > 0 ==> text::digits(n)[0] != '0',
    decreases n,
{
    let all = text::digits(n);
    if n < 10 {
        assert(all.drop_last() =~= Seq::empty());
        assert(digits_value(Seq::empty()) == 0);
    } else {
        lemma_digits(n / 10);
        let front = text::digits(n / 10);
        assert(all.drop_last() =~= front);
        assert(all[0] == front[0]);
        assert forall|i: int| 0 <= i < all.len() implies '0' <= #[trigger] all[i] && all[i]
            <= '9' by {
            if i < front.len() {
                assert(all[i] == front[i]);
            }
        }
    }
}

/// The decimal numeral of an integer stands for it, and has no leading zero.
pub proof fn law_numerals_stand_for_their_integers(n: int)
    ensures
        numeral_value(text::decimal(n)) == n,
        n > 0 ==> text::decimal(n)[0] != '0',
        n < 0 ==> text::decimal(n)[0] == '-' && text::decimal(n)[1] != '0',
        n == 0 ==> text::decimal(n) == seq!['0'],
{
    if n < 0 {
        lemma_digits((-n) as nat);
        let digits = text::digits((-n) as nat);
        assert(text::decimal(n).drop_first() =~= digits);
    } else {
        lemma_digits(n as nat);
        let digits = text::digits(n as nat);
        assert('0' <= digits[0] && digits[0] <= '9');
    }
}

/// Different integers have different numerals.
pub proof fn law_numerals_differ(a: int, b: int)
    requires
        text::decimal(a) == text::decimal(b),
    ensures
        a == b,
{
    law_numerals_stand_for_their_integers(a);
    law_numerals_stand_for_their_integers(b);
}

/// An error without locations, details and source is rendered as its kind in brackets and its
/// message.
pub proof fn law_errors_are_rendered_by_kind_and_message(
    kind: JsyncErrorKind,
    message: Seq<char>,
)
    ensures
        error::rendering(error::failure(kind, message), None) == seq!['('] + error::kind_name(kind)
            + seq![')', ' '] + message,
{
    reveal_strlit("(");
    reveal_strlit(") ");
    assert("("@ =~= seq!['(']);
    assert(") "@ =~= seq![')', ' ']);
    let e = error::failure(kind, message);
    assert(error::context_text(e.context) == Seq::<char>::empty());
    assert(error::rendering(e, None) =~= seq!['('] + error::kind_name(kind) + seq![')', ' ']
        + message);
}

/// A location that is added to an error stands in front of all that was rendered before.
pub proof fn law_outer_locations_are_rendered_first(
    e: ErrorModel,
    location: Seq<char>,
    source: Option<Seq<char>>,
)
    ensures
        error::rendering(e.with_context(location), source) == location + seq![':', ' ']
            + error::rendering(e, source),
{
    reveal_strlit(": ");
    assert(": "@ =~= seq![':', ' ']);
    let longer = e.with_context(location);
    assert(longer.context.drop_last() =~= e.context);
    assert(longer.context.last() == location);
    assert(error::context_text(longer.context) == location + ": "@ + error::context_text(
        e.context,
    ));
    assert(error::rendering(longer, source) =~= location + seq![':', ' '] + error::rendering(
        e,
        source,
    ));
}

/// The text of a source stands behind all else.
pub proof fn law_sources_are_rendered_last(e: ErrorModel, source: Seq<char>)
    ensures
        error::rendering(e, Some(source)) == error::rendering(e, None)
            + seq![' ', 'S', 'o', 'u', 'r', 'c', 'e', ':', ' '] + source,
{
    reveal_strlit(" Source: ");
    assert(" Source: "@ =~= seq![' ', 'S', 'o', 'u', 'r', 'c', 'e', ':', ' ']);
    assert(error::rendering(e, Some(source)) =~= error::rendering(e, None) + " Source: "@ + source);
}

/// The details of an error stand in brackets behind its message, in the order of their keys.
pub proof fn law_details_are_rendered_in_order(
    e: ErrorModel,
    details: Seq<(Seq<char>, Seq<char>)>,
    key: Seq<char>,
    value: Seq<char>,
)
    requires
        e.metadata.len() == 0,
    ensures
        ({
            let one = ErrorModel { metadata: seq![(key, value)], ..e };
            error::rendering(one, None) == error::rendering(e, None) + seq![' ', '('] + key
                + seq!['='] + value + seq![')']
        }),
        details.len() > 0 ==> ({
            let some = ErrorModel { metadata: details, ..e };
            let more = ErrorModel { metadata: details.push((key, value)), ..e };
            error::rendering(more, None) == error::rendering(some, None).drop_last() + seq![',', ' ']
                + key + seq!['='] + value + seq![')']
        }),
{
    reveal_strlit(" (");
    reveal_strlit(")");
    reveal_strlit("=");
    reveal_strlit(", ");
    assert(" ("@ =~= seq![' ', '(']);
    assert(")"@ =~= seq![')']);
    assert("="@ =~= seq!['=']);
    assert(", "@ =~= seq![',', ' ']);
    let single = seq![(key, value)];
    assert(single.drop_last() =~= Seq::empty());
    assert(error::details_text(single.drop_last()) == Seq::<char>::empty());
    assert(error::details_text(single) =~= key + seq!['='] + value);
    let one = ErrorModel { metadata: single, ..e };
    assert(error::rendering(one, None) =~= error::rendering(e, None) + seq![' ', '('] + key
        + seq!['='] + value + seq![')']);
    if details.len() > 0 {
        let some = ErrorModel { metadata: details, ..e };
        let all = details.push((key, value));
        let more = ErrorModel { metadata: all, ..e };
        assert(all.drop_last() =~= details);
        assert(error::details_text(all) =~= error::details_text(details) + seq![',', ' '] + key
            + seq!['='] + value);
        assert(error::rendering(more, None) =~= error::rendering(some, None).drop_last()
            + seq![',', ' '] + key + seq!['='] + value + seq![')']);
    }
}

/// A detail that is put under a key is found there. The other details, and all else of the error,
/// stay.
pub proof fn law_details_are_found_by_key(e: ErrorModel, key: Seq<char>, value: Seq<char>)
    requires
        string_map::sorted(e.metadata),
    ensures
        ({
            let after = e.with_metadata(key, value);
            &&& after.kind == e.kind
            &&& after.message == e.message
            &&& after.context == e.context
            &&& after.has_source == e.has_source
            &&& string_map::sorted(after.metadata)
            &&& forall|k: Seq<char>| #[trigger]
                string_map::value_of(after.metadata, k) == if k == key {
                    Some(value)
                } else {
                    string_map::value_of(e.metadata, k)
                }
        }),
{
    string_map::lemma_put_value(e.metadata, key, value);
}

} // verus!
