//! CBOR data items, and their encoding and decoding by `ciborium`.

use vstd::prelude::*;

use crate::text;

verus! {

/// A CBOR data item.
#[derive(Debug)]
pub enum CborValue {
    /// The simple value `null`.
    Null,
    /// A truth value.
    Bool(bool),
    /// An integer.
    Integer(i128),
    /// A float, as the bits of a double-precision float.
    Float(u64),
    /// A byte string.
    Bytes(Vec<u8>),
    /// A text string.
    Text(String),
    /// An array.
    Array(Vec<CborValue>),
    /// A map.
    Dict(Vec<(CborValue, CborValue)>),
    /// A tagged item.
    Tag(u64, Box<CborValue>),
    /// An item of any other type.
    Other,
}

/// The mathematical model of a CBOR data item.
pub enum Cbor {
    /// The simple value `null`.
    Null,
    /// A truth value.
    Bool(bool),
    /// An integer.
    Integer(int),
    /// A float, as the bits of a double-precision float.
    Float(u64),
    /// A byte string.
    Bytes(Seq<u8>),
    /// A text string.
    Text(Seq<char>),
    /// An array.
    Array(Seq<Cbor>),
    /// A map, in the order of its entries.
    Dict(Seq<(Cbor, Cbor)>),
    /// A tagged item.
    Tag(u64, Box<Cbor>),
    /// An item of any other type.
    Other,
}

/// The model of an item.
pub open spec fn cbor_model(value: CborValue) -> Cbor
    decreases value,
{
    match value {
        CborValue::Null => Cbor::Null,
        CborValue::Bool(b) => Cbor::Bool(b),
        CborValue::Integer(n) => Cbor::Integer(n as int),
        CborValue::Float(bits) => Cbor::Float(bits),
        CborValue::Bytes(bytes) => Cbor::Bytes(bytes@),
        CborValue::Text(s) => Cbor::Text(s@),
        CborValue::Array(items) => Cbor::Array(
            Seq::new(
                items@.len(),
                |i: int|
                    if 0 <= i < items@.len() {
                        cbor_model(items@[i])
                    } else {
                        Cbor::Null
                    },
            ),
        ),
        CborValue::Dict(entries) => Cbor::Dict(
            Seq::new(
                entries@.len(),
                |i: int|
                    if 0 <= i < entries@.len() {
                        (cbor_model(entries@[i].0), cbor_model(entries@[i].1))
                    } else {
                        (Cbor::Null, Cbor::Null)
                    },
            ),
        ),
        CborValue::Tag(tag, item) => Cbor::Tag(tag, Box::new(cbor_model(*item))),
        CborValue::Other => Cbor::Other,
    }
}

impl View for CborValue {
    type V = Cbor;

    open spec fn view(&self) -> Cbor {
        cbor_model(*self)
    }
}

/// The models of a sequence of items.
pub open spec fn cbor_views(items: Seq<CborValue>) -> Seq<Cbor> {
    Seq::new(items.len(), |i: int| items[i]@)
}

/// The models of a map's entries.
pub open spec fn pair_views(entries: Seq<(CborValue, CborValue)>) -> Seq<(Cbor, Cbor)> {
    Seq::new(entries.len(), |i: int| (entries[i].0@, entries[i].1@))
}

/// The view of an array is the sequence of its items' views.
pub broadcast proof fn lemma_cbor_array_view(items: Vec<CborValue>)
    ensures
        #[trigger] CborValue::Array(items)@ == Cbor::Array(cbor_views(items@)),
{
    assert(CborValue::Array(items)@->Array_0 =~= cbor_views(items@));
}

/// The view of a map is made of its entries' views.
pub broadcast proof fn lemma_cbor_map_view(entries: Vec<(CborValue, CborValue)>)
    ensures
        #[trigger] CborValue::Dict(entries)@ == Cbor::Dict(pair_views(entries@)),
{
    assert(CborValue::Dict(entries)@->Dict_0 =~= pair_views(entries@));
}

/// An array is larger than its items.
pub proof fn lemma_cbor_item_smaller(items: Seq<Cbor>, i: int)
    requires
        0 <= i < items.len(),
    ensures
        decreases_to!(Cbor::Array(items) => items[i]),
{
    let array = Cbor::Array(items);
    assert(decreases_to!(array => array->Array_0));
    assert(decreases_to!(items => items[i]));
}

/// A map is larger than its keys and values.
pub proof fn lemma_cbor_pair_smaller(entries: Seq<(Cbor, Cbor)>, i: int)
    requires
        0 <= i < entries.len(),
    ensures
        decreases_to!(Cbor::Dict(entries) => entries[i].0),
        decreases_to!(Cbor::Dict(entries) => entries[i].1),
{
    let map = Cbor::Dict(entries);
    assert(decreases_to!(map => map->Dict_0));
    assert(decreases_to!(entries => entries[i]));
    let entry = entries[i];
    assert(decreases_to!(entry => entry.0));
    assert(decreases_to!(entry => entry.1));
}

/// The least integer beyond those that fit the head of a CBOR item.
pub const INTEGER_LIMIT: i128 = 0x1_0000_0000_0000_0000;

/// How deep arrays and maps may be nested for the decoder to accept them.
pub const NESTING_LIMIT: u16 = 256;

/// Whether a float, given by its bits, is neither infinite nor a NaN.
pub open spec fn is_finite(bits: u64) -> bool {
    bits % 0x8000_0000_0000_0000 < 0x7ff0_0000_0000_0000
}

/// The bits that stand for every float that is infinite or a NaN.
pub const NOT_FINITE: u64 = 0x7ff8_0000_0000_0000;

/// An item with every infinite float and every NaN in it replaced by one and the same. The bits of
/// a NaN in an item of lower precision are up to the machine that widens it.
pub open spec fn settled(item: Cbor) -> Cbor
    decreases item,
{
    match item {
        Cbor::Float(bits) => Cbor::Float(
            if is_finite(bits) {
                bits
            } else {
                NOT_FINITE
            },
        ),
        Cbor::Array(items) => Cbor::Array(
            Seq::new(
                items.len(),
                |i: int|
                    if 0 <= i < items.len() {
                        settled(items[i])
                    } else {
                        Cbor::Null
                    },
            ),
        ),
        Cbor::Dict(entries) => Cbor::Dict(
            Seq::new(
                entries.len(),
                |i: int|
                    if 0 <= i < entries.len() {
                        (settled(entries[i].0), settled(entries[i].1))
                    } else {
                        (Cbor::Null, Cbor::Null)
                    },
            ),
        ),
        Cbor::Tag(tag, inner) => Cbor::Tag(tag, Box::new(settled(*inner))),
        _ => item,
    }
}

/// The settled items of an array.
pub open spec fn settled_items(items: Seq<Cbor>) -> Seq<Cbor> {
    Seq::new(items.len(), |i: int| settled(items[i]))
}

/// The settled entries of a map.
pub open spec fn settled_pairs(entries: Seq<(Cbor, Cbor)>) -> Seq<(Cbor, Cbor)> {
    Seq::new(entries.len(), |i: int| (settled(entries[i].0), settled(entries[i].1)))
}

proof fn lemma_settled_array(items: Seq<Cbor>)
    ensures
        settled(Cbor::Array(items)) == Cbor::Array(settled_items(items)),
{
    let item = Cbor::Array(items);
    assert(item->Array_0 == items);
    assert(settled(item)->Array_0 =~= settled_items(items));
}

proof fn lemma_settled_map(entries: Seq<(Cbor, Cbor)>)
    ensures
        settled(Cbor::Dict(entries)) == Cbor::Dict(settled_pairs(entries)),
{
    let item = Cbor::Dict(entries);
    assert(item->Dict_0 == entries);
    assert(settled(item)->Dict_0 =~= settled_pairs(entries));
}

/// Whether an item is made of null, truth values, integers that fit an item head, finite floats,
/// texts, arrays and maps.
pub open spec fn writable(item: Cbor) -> bool
    decreases item,
{
    match item {
        Cbor::Null | Cbor::Bool(_) | Cbor::Text(_) => true,
        Cbor::Integer(n) => -INTEGER_LIMIT <= n < INTEGER_LIMIT,
        Cbor::Float(bits) => is_finite(bits),
        Cbor::Array(items) => forall|i: int|
            0 <= i < items.len() ==> writable(#[trigger] items[i]),
        Cbor::Dict(entries) => forall|i: int|
            0 <= i < entries.len() ==> writable((#[trigger] entries[i]).0) && writable(
                entries[i].1,
            ),
        _ => false,
    }
}

/// What stands in a writable array is writable.
pub proof fn lemma_writable_item(items: Seq<Cbor>, i: int)
    requires
        writable(Cbor::Array(items)),
        0 <= i < items.len(),
    ensures
        writable(items[i]),
{
    let item = Cbor::Array(items);
    assert(item->Array_0 == items);
    assert(writable(item->Array_0[i]));
}

/// What stands in a writable map is writable.
pub proof fn lemma_writable_pair(entries: Seq<(Cbor, Cbor)>, i: int)
    requires
        writable(Cbor::Dict(entries)),
        0 <= i < entries.len(),
    ensures
        writable(entries[i].0),
        writable(entries[i].1),
{
    let item = Cbor::Dict(entries);
    assert(item->Dict_0 == entries);
    assert(writable(item->Dict_0[i].0));
}

/// Whether arrays and maps are nested at most `depth` deep.
pub open spec fn nested(item: Cbor, depth: int) -> bool
    decreases item,
{
    match item {
        Cbor::Array(items) => depth > 0 && forall|i: int|
            0 <= i < items.len() ==> nested(#[trigger] items[i], depth - 1),
        Cbor::Dict(entries) => depth > 0 && forall|i: int|
            0 <= i < entries.len() ==> nested((#[trigger] entries[i]).0, depth - 1) && nested(
                entries[i].1,
                depth - 1,
            ),
        Cbor::Tag(_, inner) => depth > 0 && nested(*inner, depth - 1),
        _ => true,
    }
}

/// The size in bytes of an item head with the given argument.
pub open spec fn head_size(argument: int) -> nat {
    if argument < 24 {
        1
    } else if argument < 0x100 {
        2
    } else if argument < 0x1_0000 {
        3
    } else if argument < 0x1_0000_0000 {
        5
    } else {
        9
    }
}

/// The size in bytes of an item, with every float taken at its full eight bytes.
pub open spec fn cbor_size(item: Cbor) -> nat
    decreases item, 0nat,
{
    match item {
        Cbor::Null | Cbor::Bool(_) | Cbor::Other => 1,
        Cbor::Integer(n) => head_size(
            if n < 0 {
                -1 - n
            } else {
                n
            },
        ),
        Cbor::Float(_) => 9,
        Cbor::Bytes(bytes) => head_size(bytes.len() as int) + bytes.len(),
        Cbor::Text(s) => head_size(text::utf8_len(s) as int) + text::utf8_len(s),
        Cbor::Array(items) => head_size(items.len() as int) + items_size(items, items.len()),
        Cbor::Dict(entries) => head_size(entries.len() as int) + pairs_size(
            entries,
            entries.len(),
        ),
        Cbor::Tag(tag, inner) => head_size(tag as int) + cbor_size(*inner),
    }
}

/// The size of the first `count` items of an array.
pub open spec fn items_size(items: Seq<Cbor>, count: nat) -> nat
    decreases items, count,
{
    if count == 0 || count > items.len() {
        0
    } else {
        items_size(items, (count - 1) as nat) + cbor_size(items[count - 1])
    }
}

/// The size of the first `count` entries of a map.
pub open spec fn pairs_size(entries: Seq<(Cbor, Cbor)>, count: nat) -> nat
    decreases entries, count,
{
    if count == 0 || count > entries.len() {
        0
    } else {
        let entry = entries[count - 1];
        proof {
            assert(decreases_to!(entries => entries[count - 1]));
            assert(decreases_to!(entry => entry.0));
            assert(decreases_to!(entry => entry.1));
        }
        pairs_size(entries, (count - 1) as nat) + cbor_size(entry.0) + cbor_size(entry.1)
    }
}

/// Whether an item holds no float, whose encoding may be shorter than its full size.
pub open spec fn float_free(item: Cbor) -> bool
    decreases item,
{
    match item {
        Cbor::Float(_) => false,
        Cbor::Array(items) => forall|i: int|
            0 <= i < items.len() ==> float_free(#[trigger] items[i]),
        Cbor::Dict(entries) => forall|i: int|
            0 <= i < entries.len() ==> float_free((#[trigger] entries[i]).0) && float_free(
                entries[i].1,
            ),
        Cbor::Tag(_, inner) => float_free(*inner),
        _ => true,
    }
}

/// The dynamic value type of `ciborium`.
#[verifier::external_type_specification]
#[verifier::external_body]
pub struct ExCiboriumValue(ciborium::Value);

/// The item that a `ciborium` value holds.
pub uninterp spec fn cbor_tree(value: ciborium::Value) -> Cbor;

/// The bytes that `ciborium` writes for an item.
pub uninterp spec fn cbor_bytes(item: Cbor) -> Seq<u8>;

/// The item that `ciborium` reads from the front of some bytes, with its floats settled, and how
/// many bytes it takes up; nothing where the bytes do not start with an item that the decoder accepts.
pub uninterp spec fn cbor_parse(bytes: Seq<u8>) -> Option<(Cbor, int)>;

/// The outermost layer of a `ciborium` value.
pub(crate) enum CborNode {
    Null,
    Bool(bool),
    Integer(i128),
    Float(u64),
    Bytes(Vec<u8>),
    Text(String),
    Array(Vec<ciborium::Value>),
    Dict(Vec<(ciborium::Value, ciborium::Value)>),
    Tag(u64, Box<ciborium::Value>),
    Other,
}

/// The items that `ciborium` values hold.
pub open spec fn tree_views(values: Seq<ciborium::Value>) -> Seq<Cbor> {
    Seq::new(values.len(), |i: int| cbor_tree(values[i]))
}

/// The map entries that pairs of `ciborium` values hold.
pub open spec fn tree_pair_views(values: Seq<(ciborium::Value, ciborium::Value)>) -> Seq<
    (Cbor, Cbor),
> {
    Seq::new(values.len(), |i: int| (cbor_tree(values[i].0), cbor_tree(values[i].1)))
}

impl CborNode {
    /// The item of which this is the outermost layer.
    pub(crate) open spec fn item(self) -> Cbor {
        match self {
            CborNode::Null => Cbor::Null,
            CborNode::Bool(b) => Cbor::Bool(b),
            CborNode::Integer(n) => Cbor::Integer(n as int),
            CborNode::Float(bits) => Cbor::Float(bits),
            CborNode::Bytes(bytes) => Cbor::Bytes(bytes@),
            CborNode::Text(s) => Cbor::Text(s@),
            CborNode::Array(items) => Cbor::Array(tree_views(items@)),
            CborNode::Dict(entries) => Cbor::Dict(tree_pair_views(entries@)),
            CborNode::Tag(tag, inner) => Cbor::Tag(tag, Box::new(cbor_tree(*inner))),
            CborNode::Other => Cbor::Other,
        }
    }
}

/// Takes the outermost layer of a `ciborium::Value` apart: each variant becomes the one of the
/// same name, an integer an `i128`, and a float its bits.
#[verifier::external_body]
fn open_value(value: ciborium::Value) -> (node: CborNode)
    ensures
        node.item() == cbor_tree(value),
{
    match value {
        ciborium::Value::Null => CborNode::Null,
        ciborium::Value::Bool(b) => CborNode::Bool(b),
        ciborium::Value::Integer(n) => CborNode::Integer(n.into()),
        ciborium::Value::Float(x) => CborNode::Float(x.to_bits()),
        ciborium::Value::Bytes(bytes) => CborNode::Bytes(bytes),
        ciborium::Value::Text(s) => CborNode::Text(s),
        ciborium::Value::Array(items) => CborNode::Array(items),
        ciborium::Value::Map(entries) => CborNode::Dict(entries),
        ciborium::Value::Tag(tag, inner) => CborNode::Tag(tag, inner),
        _ => CborNode::Other,
    }
}

/// Builds a `ciborium::Value` from its outermost layer: `Value::from` makes an integer that fits
/// an item head a `Value::Integer`, and the other variants are those of the same name.
#[verifier::external_body]
fn close_value(node: CborNode) -> (value: ciborium::Value)
    requires
        !(node is Float || node is Other),
        node matches CborNode::Integer(n) ==> -INTEGER_LIMIT <= n < INTEGER_LIMIT,
    ensures
        cbor_tree(value) == node.item(),
{
    match node {
        CborNode::Bool(b) => ciborium::Value::Bool(b),
        CborNode::Integer(n) => ciborium::Value::from(n),
        CborNode::Bytes(bytes) => ciborium::Value::Bytes(bytes),
        CborNode::Text(s) => ciborium::Value::Text(s),
        CborNode::Array(items) => ciborium::Value::Array(items),
        CborNode::Dict(entries) => ciborium::Value::Map(entries),
        CborNode::Tag(tag, inner) => ciborium::Value::Tag(tag, inner),
        _ => ciborium::Value::Null,
    }
}

/// Builds the `ciborium::Value` of a finite float from its bits, which `ciborium::from_reader`
/// takes as they are behind the head of a double-precision float.
#[verifier::external_body]
fn close_float(bits: u64) -> (value: ciborium::Value)
    requires
        is_finite(bits),
    ensures
        cbor_tree(value) == Cbor::Float(bits),
{
    let mut bytes = vec![0xfb];
    bytes.extend_from_slice(&bits.to_be_bytes());
    ciborium::from_reader(bytes.as_slice()).expect("eight bytes follow the head of a float")
}

/// Writes a value with `ciborium::into_writer`, which cannot fail on a vector. The bytes are those
/// of the item, at most its full size; `ciborium::from_reader` reads the item back from them
/// unless arrays and maps are nested too deep for it.
#[verifier::external_body]
fn write_value(value: &ciborium::Value, bytes: &mut Vec<u8>) -> (result: Result<(), anyhow::Error>)
    requires
        writable(cbor_tree(*value)),
    ensures
        result is Ok,
        final(bytes)@ == old(bytes)@ + cbor_bytes(cbor_tree(*value)),
        nested(cbor_tree(*value), NESTING_LIMIT as int) ==> cbor_parse(
            final(bytes)@.skip(old(bytes)@.len() as int),
        ) == Some((cbor_tree(*value), final(bytes)@.len() - old(bytes)@.len())),
        final(bytes)@.len() <= old(bytes)@.len() + cbor_size(cbor_tree(*value)),
        float_free(cbor_tree(*value)) ==> final(bytes)@.len() == old(bytes)@.len() + cbor_size(
            cbor_tree(*value),
        ),
{
    ciborium::into_writer(value, bytes).map_err(anyhow::Error::new)
}

/// Reads one value from the front of some bytes with `ciborium::from_reader`, and tells how many
/// bytes were read. Which bits a NaN of lower precision is widened to is not stated.
#[verifier::external_body]
fn read_value(bytes: &[u8]) -> (result: Result<(ciborium::Value, u64), anyhow::Error>)
    ensures
        match result {
            Ok((value, position)) => {
                &&& cbor_parse(bytes@) == Some((settled(cbor_tree(value)), position as int))
                &&& position <= bytes@.len()
            },
            Err(_) => cbor_parse(bytes@) is None,
        },
{
    let mut cursor = std::io::Cursor::new(bytes);
    let value = ciborium::from_reader(&mut cursor).map_err(anyhow::Error::new)?;
    Ok((value, cursor.position()))
}

/// The numeral with which std displays a float, given by its bits.
pub uninterp spec fn float_numeral(bits: u64) -> Seq<char>;

/// Displays a float, given by its bits, with `ToString::to_string`. Which digits std picks is not
/// stated.
#[verifier::external_body]
pub(crate) fn float_text(bits: u64) -> (numeral: String)
    ensures
        numeral@ == float_numeral(bits),
{
    let mut bytes = vec![0xfb];
    bytes.extend_from_slice(&bits.to_be_bytes());
    match ciborium::from_reader(bytes.as_slice()) {
        Ok(ciborium::Value::Float(x)) => x.to_string(),
        _ => String::new(),
    }
}

/// Turns a `ciborium` value into an item with settled floats.
fn item_of(value: ciborium::Value) -> (item: CborValue)
    ensures
        item@ == settled(cbor_tree(value)),
    decreases cbor_tree(value),
{
    broadcast use {lemma_cbor_array_view, lemma_cbor_map_view};

    match open_value(value) {
        CborNode::Null => CborValue::Null,
        CborNode::Bool(b) => CborValue::Bool(b),
        CborNode::Integer(n) => CborValue::Integer(n),
        CborNode::Float(bits) => CborValue::Float(
            if bits % 0x8000_0000_0000_0000 < 0x7ff0_0000_0000_0000 {
                bits
            } else {
                NOT_FINITE
            },
        ),
        CborNode::Bytes(bytes) => CborValue::Bytes(bytes),
        CborNode::Text(s) => CborValue::Text(s),
        CborNode::Array(values) => {
            let ghost trees = tree_views(values@);
            let mut items: Vec<CborValue> = Vec::new();
            for inner in iter: values
                invariant
                    iter.seq() == values@,
                    trees == tree_views(values@),
                    cbor_tree(value) == Cbor::Array(trees),
                    cbor_views(items@) == settled_items(trees).take(iter.index() as int),
            {
                proof {
                    lemma_cbor_item_smaller(trees, iter.index() as int);
                }
                let ghost before = cbor_views(items@);
                let item = item_of(inner);
                items.push(item);
                assert(cbor_views(items@) =~= before.push(item@));
                assert(cbor_views(items@) =~= settled_items(trees).take(iter.index() + 1));
            }
            proof {
                lemma_settled_array(trees);
                assert(settled_items(trees).take(trees.len() as int) =~= settled_items(trees));
            }
            CborValue::Array(items)
        },
        CborNode::Dict(values) => {
            let ghost trees = tree_pair_views(values@);
            let mut entries: Vec<(CborValue, CborValue)> = Vec::new();
            for inner in iter: values
                invariant
                    iter.seq() == values@,
                    trees == tree_pair_views(values@),
                    cbor_tree(value) == Cbor::Dict(trees),
                    pair_views(entries@) == settled_pairs(trees).take(iter.index() as int),
            {
                proof {
                    lemma_cbor_pair_smaller(trees, iter.index() as int);
                }
                let ghost before = pair_views(entries@);
                let key = item_of(inner.0);
                let item = item_of(inner.1);
                entries.push((key, item));
                assert(pair_views(entries@) =~= before.push((key@, item@)));
                assert(pair_views(entries@) =~= settled_pairs(trees).take(iter.index() + 1));
            }
            proof {
                lemma_settled_map(trees);
                assert(settled_pairs(trees).take(trees.len() as int) =~= settled_pairs(trees));
            }
            CborValue::Dict(entries)
        },
        CborNode::Tag(tag, inner) => {
            let ghost tree = cbor_tree(value);
            assert(decreases_to!(tree => tree->Tag_1));
            CborValue::Tag(tag, Box::new(item_of(*inner)))
        },
        CborNode::Other => CborValue::Other,
    }
}

/// Turns an item into a `ciborium` value.
fn value_of(item: &CborValue) -> (value: ciborium::Value)
    requires
        writable(item@),
    ensures
        cbor_tree(value) == item@,
    decreases item@,
{
    broadcast use {lemma_cbor_array_view, lemma_cbor_map_view};

    match item {
        CborValue::Bool(b) => close_value(CborNode::Bool(*b)),
        CborValue::Integer(n) => close_value(CborNode::Integer(*n)),
        CborValue::Float(bits) => close_float(*bits),
        CborValue::Text(s) => close_value(CborNode::Text(s.clone())),
        CborValue::Array(items) => {
            let ghost trees = cbor_views(items@);
            let mut values: Vec<ciborium::Value> = Vec::new();
            let mut i: usize = 0;
            while i < items.len()
                invariant
                    i <= items@.len(),
                    trees == cbor_views(items@),
                    item@ == Cbor::Array(trees),
                    writable(item@),
                    tree_views(values@) == trees.take(i as int),
                decreases items@.len() - i,
            {
                proof {
                    lemma_cbor_item_smaller(trees, i as int);
                    assert(trees[i as int] == items@[i as int]@);
                    lemma_writable_item(trees, i as int);
                }
                let ghost before = tree_views(values@);
                let value = value_of(&items[i]);
                values.push(value);
                i = i + 1;
                assert(tree_views(values@) =~= before.push(cbor_tree(value)));
                assert(tree_views(values@) =~= trees.take(i as int));
            }
            assert(trees.take(i as int) =~= trees);
            close_value(CborNode::Array(values))
        },
        CborValue::Dict(entries) => {
            let ghost trees = pair_views(entries@);
            let mut values: Vec<(ciborium::Value, ciborium::Value)> = Vec::new();
            let mut i: usize = 0;
            while i < entries.len()
                invariant
                    i <= entries@.len(),
                    trees == pair_views(entries@),
                    item@ == Cbor::Dict(trees),
                    writable(item@),
                    tree_pair_views(values@) == trees.take(i as int),
                decreases entries@.len() - i,
            {
                proof {
                    lemma_cbor_pair_smaller(trees, i as int);
                    assert(trees[i as int] == (entries@[i as int].0@, entries@[i as int].1@));
                    lemma_writable_pair(trees, i as int);
                }
                let ghost before = tree_pair_views(values@);
                let key = value_of(&entries[i].0);
                let value = value_of(&entries[i].1);
                values.push((key, value));
                i = i + 1;
                assert(tree_pair_views(values@) =~= before.push(
                    (cbor_tree(key), cbor_tree(value)),
                ));
                assert(tree_pair_views(values@) =~= trees.take(i as int));
            }
            assert(trees.take(i as int) =~= trees);
            close_value(CborNode::Dict(values))
        },
        _ => close_value(CborNode::Null),
    }
}

/// Appends the encoding of an item to some bytes.
pub fn encode_item(item: &CborValue, bytes: &mut Vec<u8>) -> (result: Result<(), anyhow::Error>)
    requires
        writable(item@),
    ensures
        result is Ok,
        final(bytes)@ == old(bytes)@ + cbor_bytes(item@),
        nested(item@, NESTING_LIMIT as int) ==> cbor_parse(cbor_bytes(item@)) == Some(
            (item@, cbor_bytes(item@).len() as int),
        ),
        cbor_bytes(item@).len() <= cbor_size(item@),
        float_free(item@) ==> cbor_bytes(item@).len() == cbor_size(item@),
{
    let result = write_value(&value_of(item), bytes);
    assert(bytes@.skip(old(bytes)@.len() as int) =~= cbor_bytes(item@));
    result
}

/// Decodes the item at the front of some bytes, with its floats settled, and tells how many bytes
/// it takes up.
pub fn decode_item(bytes: &[u8]) -> (result: Result<(CborValue, u64), anyhow::Error>)
    ensures
        match result {
            Ok((item, length)) => {
                &&& cbor_parse(bytes@) == Some((item@, length as int))
                &&& length <= bytes@.len()
            },
            Err(_) => cbor_parse(bytes@) is None,
        },
{
    match read_value(bytes) {
        Ok((value, length)) => Ok((item_of(value), length)),
        Err(error) => Err(error),
    }
}

} // verus!
