//! Text as sequences of Unicode scalar values: key order, decimal numerals and conversions.

use vstd::prelude::*;

verus! {

/// Lexicographic order of byte strings.
pub open spec fn bytes_lt(a: Seq<u8>, b: Seq<u8>) -> bool
    decreases a.len(),
{
    if b.len() == 0 {
        false
    } else if a.len() == 0 {
        true
    } else if a[0] != b[0] {
        a[0] < b[0]
    } else {
        bytes_lt(a.drop_first(), b.drop_first())
    }
}

/// The order of object keys: that of their UTF-8 bytes.
pub open spec fn key_lt(a: Seq<char>, b: Seq<char>) -> bool {
    bytes_lt(vstd::utf8::encode_utf8(a), vstd::utf8::encode_utf8(b))
}

/// The length of a text in UTF-8 bytes.
pub open spec fn utf8_len(text: Seq<char>) -> nat {
    vstd::utf8::encode_utf8(text).len()
}

proof fn lemma_bytes_irreflexive(a: Seq<u8>)
    ensures
        !bytes_lt(a, a),
    decreases a.len(),
{
    if a.len() > 0 {
        lemma_bytes_irreflexive(a.drop_first());
    }
}

proof fn lemma_bytes_transitive(a: Seq<u8>, b: Seq<u8>, c: Seq<u8>)
    requires
        bytes_lt(a, b),
        bytes_lt(b, c),
    ensures
        bytes_lt(a, c),
    decreases a.len(),
{
    if a.len() > 0 && a[0] == b[0] && b[0] == c[0] {
        lemma_bytes_transitive(a.drop_first(), b.drop_first(), c.drop_first());
    }
}

proof fn lemma_bytes_total(a: Seq<u8>, b: Seq<u8>)
    ensures
        bytes_lt(a, b) || bytes_lt(b, a) || a == b,
    decreases a.len(),
{
    if a.len() > 0 && b.len() > 0 && a[0] == b[0] {
        lemma_bytes_total(a.drop_first(), b.drop_first());
        if a.drop_first() == b.drop_first() {
            assert(a =~= seq![a[0]] + a.drop_first());
            assert(b =~= seq![b[0]] + b.drop_first());
        }
    } else if a.len() == 0 && b.len() == 0 {
        assert(a =~= b);
    }
}

/// No key is below itself.
pub proof fn lemma_key_irreflexive(a: Seq<char>)
    ensures
        !key_lt(a, a),
{
    lemma_bytes_irreflexive(vstd::utf8::encode_utf8(a));
}

/// The key order is transitive.
pub proof fn lemma_key_transitive(a: Seq<char>, b: Seq<char>, c: Seq<char>)
    requires
        key_lt(a, b),
        key_lt(b, c),
    ensures
        key_lt(a, c),
{
    lemma_bytes_transitive(vstd::utf8::encode_utf8(a), vstd::utf8::encode_utf8(b), vstd::utf8::encode_utf8(c));
}

/// Two distinct keys are ordered one way.
pub proof fn lemma_key_total(a: Seq<char>, b: Seq<char>)
    ensures
        key_lt(a, b) || key_lt(b, a) || a == b,
{
    lemma_bytes_total(vstd::utf8::encode_utf8(a), vstd::utf8::encode_utf8(b));
    if vstd::utf8::encode_utf8(a) == vstd::utf8::encode_utf8(b) {
        lemma_utf8_injective(a, b);
    }
}

/// Texts with the same bytes are the same text.
pub proof fn lemma_utf8_injective(a: Seq<char>, b: Seq<char>)
    requires
        vstd::utf8::encode_utf8(a) == vstd::utf8::encode_utf8(b),
    ensures
        a == b,
{
    vstd::utf8::encode_utf8_decode_utf8(a);
    vstd::utf8::encode_utf8_decode_utf8(b);
}

/// Every scalar value takes at least one byte.
pub proof fn lemma_utf8_no_shorter(chars: Seq<char>)
    ensures
        utf8_len(chars) >= chars.len(),
    decreases chars.len(),
{
    broadcast use vstd::utf8::char_is_scalar;

    if chars.len() > 0 {
        lemma_utf8_no_shorter(chars.drop_first());
        assert(vstd::utf8::encode_scalar(chars[0] as u32).len() >= 1);
    }
}

/// How one key stands to another.
#[derive(Clone, Copy)]
pub enum KeyOrder {
    /// The first key comes before the second.
    Before,
    /// The keys are the same text.
    Same,
    /// The first key comes after the second.
    After,
}

/// Decides how the key `a` stands to the key `b`.
pub fn key_order(a: &str, b: &str) -> (order: KeyOrder)
    ensures
        order is Before <==> key_lt(a@, b@),
        order is Same <==> a@ == b@,
        order is After <==> key_lt(b@, a@),
{
    let x: &[u8] = a.as_bytes();
    let y: &[u8] = b.as_bytes();
    proof {
        lemma_key_irreflexive(a@);
        if key_lt(a@, b@) && key_lt(b@, a@) {
            lemma_key_transitive(a@, b@, a@);
        }
        lemma_key_irreflexive(b@);
        assert(x@.skip(0) =~= x@);
        assert(y@.skip(0) =~= y@);
    }
    let mut i: usize = 0;
    while i < x.len() && i < y.len() && x[i] == y[i]
        invariant
            i <= x@.len(),
            i <= y@.len(),
            x@.take(i as int) == y@.take(i as int),
            bytes_lt(x@, y@) == bytes_lt(x@.skip(i as int), y@.skip(i as int)),
            bytes_lt(y@, x@) == bytes_lt(y@.skip(i as int), x@.skip(i as int)),
        decreases x@.len() - i,
    {
        proof {
            assert(x@.skip(i as int).drop_first() =~= x@.skip(i as int + 1));
            assert(y@.skip(i as int).drop_first() =~= y@.skip(i as int + 1));
            assert(x@.take(i as int + 1) =~= x@.take(i as int).push(x@[i as int]));
            assert(y@.take(i as int + 1) =~= y@.take(i as int).push(y@[i as int]));
        }
        i = i + 1;
    }
    if i == x.len() {
        if i == y.len() {
            proof {
                assert(x@.take(i as int) =~= x@);
                assert(y@.take(i as int) =~= y@);
                lemma_utf8_injective(a@, b@);
            }
            KeyOrder::Same
        } else {
            KeyOrder::Before
        }
    } else if i == y.len() {
        KeyOrder::After
    } else if x[i] < y[i] {
        KeyOrder::Before
    } else {
        KeyOrder::After
    }
}

/// Tells whether two texts are equal.
pub fn same_text(a: &str, b: &str) -> (same: bool)
    ensures
        same == (a@ == b@),
{
    match key_order(a, b) {
        KeyOrder::Same => true,
        _ => false,
    }
}

/// `String::push`: appends one scalar value to the text.
pub assume_specification[ std::string::String::push ](string: &mut std::string::String, ch: char)
    ensures
        final(string)@ == old(string)@.push(ch),
;

/// The scalar values of a text.
pub fn string_tokens(value: &str) -> (tokens: Vec<char>)
    ensures
        tokens@ == value@,
{
    let mut tokens: Vec<char> = Vec::new();
    for c in iter: value.chars()
        invariant
            iter.seq() == value@,
            tokens@ == value@.take(iter.index() as int),
    {
        tokens.push(c);
        assert(tokens@ =~= value@.take(iter.index() + 1));
    }
    assert(value@.take(value@.len() as int) =~= value@);
    tokens
}

/// The text made of the given scalar values.
pub fn tokens_to_string(tokens: &[char]) -> (text: String)
    ensures
        text@ == tokens@,
{
    let mut text: String = String::new();
    let mut i: usize = 0;
    while i < tokens.len()
        invariant
            i <= tokens@.len(),
            text@ == tokens@.take(i as int),
        decreases tokens@.len() - i,
    {
        text.push(tokens[i]);
        i = i + 1;
        assert(text@ =~= tokens@.take(i as int));
    }
    assert(tokens@.take(i as int) =~= tokens@);
    text
}

/// The decimal digit that stands for a number below ten.
pub open spec fn digit(d: int) -> char {
    (48 + d) as char
}

/// The decimal digits of a natural number, most significant first.
pub open spec fn digits(n: nat) -> Seq<char>
    decreases n,
{
    if n < 10 {
        seq![digit(n as int)]
    } else {
        digits(n / 10).push(digit((n % 10) as int))
    }
}

/// The decimal numeral of an integer.
pub open spec fn decimal(n: int) -> Seq<char> {
    if n < 0 {
        seq!['-'] + digits((-n) as nat)
    } else {
        digits(n as nat)
    }
}

fn push_digits(text: &mut String, n: u128)
    ensures
        final(text)@ == old(text)@ + digits(n as nat),
    decreases n,
{
    if n >= 10 {
        push_digits(text, n / 10);
    }
    let d: u8 = (n % 10) as u8;
    text.push((48 + d) as char);
    assert(text@ =~= old(text)@ + digits(n as nat));
}

/// Writes an integer as a decimal numeral.
pub fn decimal_text(n: i128) -> (text: String)
    ensures
        text@ == decimal(n as int),
{
    let mut text: String = String::new();
    if n < 0 {
        text.push('-');
        let magnitude: u128 = (-(n + 1)) as u128 + 1;
        push_digits(&mut text, magnitude);
    } else {
        push_digits(&mut text, n as u128);
    }
    assert(text@ =~= decimal(n as int));
    text
}

/// Writes a length or an index as a decimal numeral.
pub fn count_text(n: usize) -> (text: String)
    ensures
        text@ == decimal(n as int),
{
    decimal_text(n as i128)
}

} // verus!
