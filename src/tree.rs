use vstd::prelude::*;
use crate::number::{JsonNumber, NumberView, saturated_int, int_number};

verus! {

/// The kind of a JSON value.
#[derive(PartialEq, Eq, Structural, Clone, Copy, Debug)]
pub enum JsonKind {
    Invalid,
    False,
    True,
    Null,
    Number,
    String,
    Array,
    Object,
    Raw,
}

/// One JSON value and, for arrays and objects, the values it holds in order.
///
/// `valuestring` is the payload of a string or raw value, `string` the key of
/// an object member. `is_reference` marks a value built as a second handle on
/// content owned elsewhere, `key_is_const` a key that the caller declared
/// constant.
#[derive(Debug)]
pub struct CJSON {
    pub item_type: JsonKind,
    pub is_reference: bool,
    pub key_is_const: bool,
    pub valueint: i32,
    pub number: JsonNumber,
    pub valuestring: Option<String>,
    pub string: Option<String>,
    pub child: Vec<CJSON>,
}

/// The mathematical model of a value.
pub struct Node {
    pub kind: JsonKind,
    pub is_reference: bool,
    pub key_is_const: bool,
    pub valueint: i32,
    pub number: NumberView,
    pub text: Option<Seq<char>>,
    pub key: Option<Seq<char>>,
    pub children: Seq<Node>,
}

pub open spec fn node_of(n: CJSON) -> Node
    decreases n, n.child@.len() + 1,
{
    Node {
        kind: n.item_type,
        is_reference: n.is_reference,
        key_is_const: n.key_is_const,
        valueint: n.valueint,
        number: n.number@,
        text: match n.valuestring {
            Some(s) => Some(s@),
            None => None,
        },
        key: match n.string {
            Some(s) => Some(s@),
            None => None,
        },
        children: children_of(n, n.child@.len() as int),
    }
}

/// Models of the first `k` children of `n`.
pub open spec fn children_of(n: CJSON, k: int) -> Seq<Node>
    decreases n, k,
{
    if k <= 0 || k > n.child@.len() {
        Seq::empty()
    } else {
        children_of(n, k - 1).push(node_of(n.child@[k - 1]))
    }
}

impl View for CJSON {
    type V = Node;

    open spec fn view(&self) -> Node {
        node_of(*self)
    }
}

pub open spec fn zero_number() -> NumberView {
    NumberView { negative: false, digits: Seq::empty(), exponent: 0 }
}

/// A fresh value of kind `kind` with nothing else set.
pub open spec fn blank(kind: JsonKind) -> Node {
    Node {
        kind: kind,
        is_reference: false,
        key_is_const: false,
        valueint: 0,
        number: zero_number(),
        text: None,
        key: None,
        children: Seq::empty(),
    }
}

pub open spec fn with_text(kind: JsonKind, text: Seq<char>, is_reference: bool) -> Node {
    Node { text: Some(text), is_reference: is_reference, ..blank(kind) }
}

pub open spec fn with_number(n: NumberView) -> Node {
    Node { number: n, valueint: saturated_int(n), ..blank(JsonKind::Number) }
}

pub open spec fn with_children(kind: JsonKind, children: Seq<Node>, is_reference: bool) -> Node {
    Node { children: children, is_reference: is_reference, ..blank(kind) }
}

/// `v` with `item` added after its last child.
pub open spec fn appended(v: Node, item: Node) -> Node {
    Node { children: v.children.push(item), ..v }
}

/// `item` as a member under `key`.
pub open spec fn keyed(item: Node, key: Seq<char>, constant_key: bool) -> Node {
    Node { key: Some(key), key_is_const: constant_key, ..item }
}

pub proof fn lemma_children_of(n: CJSON, k: int)
    requires
        0 <= k <= n.child@.len(),
    ensures
        children_of(n, k).len() == k,
        forall|i: int| 0 <= i < k ==> #[trigger] children_of(n, k)[i] == node_of(n.child@[i]),
    decreases k,
{
    if k > 0 {
        lemma_children_of(n, k - 1);
    }
}

pub proof fn lemma_children(n: CJSON)
    ensures
        n@.children.len() == n.child@.len(),
        forall|i: int| 0 <= i < n.child@.len() ==> #[trigger] n@.children[i] == n.child@[i]@,
{
    lemma_children_of(n, n.child@.len() as int);
}

fn new_node(kind: JsonKind) -> (r: CJSON)
    ensures
        r@ == blank(kind),
{
    let r = CJSON {
        item_type: kind,
        is_reference: false,
        key_is_const: false,
        valueint: 0,
        number: JsonNumber::zero(),
        valuestring: None,
        string: None,
        child: Vec::new(),
    };
    proof {
        lemma_children(r);
        assert(r@.children =~= Seq::<Node>::empty());
    }
    r
}

/// A fresh `null` value.
#[allow(non_snake_case)]
pub fn cJSON_New_Item() -> (r: CJSON)
    ensures
        r@ == blank(JsonKind::Null),
{
    new_node(JsonKind::Null)
}

pub fn cjson_create_null() -> (r: CJSON)
    ensures
        r@ == blank(JsonKind::Null),
{
    new_node(JsonKind::Null)
}

pub fn cjson_create_true() -> (r: CJSON)
    ensures
        r@ == blank(JsonKind::True),
{
    new_node(JsonKind::True)
}

pub fn cjson_create_false() -> (r: CJSON)
    ensures
        r@ == blank(JsonKind::False),
{
    new_node(JsonKind::False)
}

pub fn cjson_create_bool(boolean: bool) -> (r: CJSON)
    ensures
        r@ == blank(if boolean { JsonKind::True } else { JsonKind::False }),
{
    new_node(if boolean { JsonKind::True } else { JsonKind::False })
}

/// A number value; its integer view is the number truncated and saturated.
pub fn cjson_create_number(num: JsonNumber) -> (r: CJSON)
    ensures
        r@ == with_number(num@),
{
    let mut r = new_node(JsonKind::Number);
    r.valueint = num.to_saturated_i32();
    r.number = num;
    proof {
        lemma_children(r);
        assert(r@.children =~= Seq::<Node>::empty());
    }
    r
}

fn text_node(kind: JsonKind, s: &str, is_reference: bool) -> (r: CJSON)
    ensures
        r@ == with_text(kind, s@, is_reference),
{
    let mut r = new_node(kind);
    r.valuestring = Some(s.to_owned());
    r.is_reference = is_reference;
    proof {
        lemma_children(r);
        assert(r@.children =~= Seq::<Node>::empty());
    }
    r
}

/// A string value that holds the text of `s`.
pub fn cjson_create_string(s: &str) -> (r: CJSON)
    ensures
        r@ == with_text(JsonKind::String, s@, false),
{
    text_node(JsonKind::String, s, false)
}

/// A string value marked as a reference to text owned elsewhere.
pub fn cjson_create_string_reference(string: &str) -> (r: CJSON)
    ensures
        r@ == with_text(JsonKind::String, string@, true),
{
    text_node(JsonKind::String, string, true)
}

/// A raw value: text printed as it stands, taken to be JSON already.
pub fn cjson_create_raw(raw: &str) -> (r: CJSON)
    ensures
        r@ == with_text(JsonKind::Raw, raw@, false),
{
    text_node(JsonKind::Raw, raw, false)
}

pub fn cjson_create_array() -> (r: CJSON)
    ensures
        r@ == blank(JsonKind::Array),
{
    new_node(JsonKind::Array)
}

pub fn cjson_create_object() -> (r: CJSON)
    ensures
        r@ == blank(JsonKind::Object),
{
    new_node(JsonKind::Object)
}

fn copy_text(s: &Option<String>) -> (r: Option<String>)
    ensures
        r is Some <==> s is Some,
        r matches Some(t) ==> t@ == s->0@,
{
    match s {
        Some(t) => Some(t.clone()),
        None => None,
    }
}

/// A copy of `n` and of everything it holds.
pub fn duplicate(n: &CJSON) -> (r: CJSON)
    ensures
        r@ == n@,
    decreases n,
{
    let mut children: Vec<CJSON> = Vec::new();
    let mut i: usize = 0;
    while i < n.child.len()
        invariant
            i <= n.child@.len(),
            children@.len() == i,
            forall|j: int| 0 <= j < i ==> #[trigger] children@[j]@ == n.child@[j]@,
        decreases n.child@.len() - i,
    {
        let c = duplicate(&n.child[i]);
        children.push(c);
        i = i + 1;
    }
    let r = CJSON {
        item_type: n.item_type,
        is_reference: n.is_reference,
        key_is_const: n.key_is_const,
        valueint: n.valueint,
        number: n.number.duplicate(),
        valuestring: copy_text(&n.valuestring),
        string: copy_text(&n.string),
        child: children,
    };
    proof {
        lemma_children(r);
        lemma_children(*n);
        assert(r@.children =~= n@.children);
    }
    r
}

/// An object marked as a reference, whose member chain starts at `child`.
pub fn cjson_create_object_reference(child: &CJSON) -> (r: CJSON)
    ensures
        r@ == with_children(JsonKind::Object, seq![child@], true),
{
    let mut r = new_node(JsonKind::Object);
    r.is_reference = true;
    r.child.push(duplicate(child));
    proof {
        lemma_children(r);
        assert(r@.children =~= seq![child@]);
    }
    r
}

/// An array marked as a reference, whose element chain starts at `child`.
pub fn cjson_create_array_reference(child: &CJSON) -> (r: CJSON)
    ensures
        r@ == with_children(JsonKind::Array, seq![child@], true),
{
    let mut r = new_node(JsonKind::Array);
    r.is_reference = true;
    r.child.push(duplicate(child));
    proof {
        lemma_children(r);
        assert(r@.children =~= seq![child@]);
    }
    r
}

/// Adds `item` after the last element of `array`. Fails, leaving `array`
/// as it was, where `array` is no array.
fn add_item_to_array(array: &mut CJSON, item: CJSON) -> (r: bool)
    ensures
        r == (old(array)@.kind == JsonKind::Array),
        r ==> final(array)@ == appended(old(array)@, item@),
        !r ==> final(array)@ == old(array)@,
{
    if array.item_type != JsonKind::Array {
        return false;
    }
    let ghost before = *array;
    array.child.push(item);
    proof {
        lemma_children(before);
        lemma_children(*array);
        assert(array@.children =~= before@.children.push(item@));
    }
    true
}

/// Adds `item` after the last element of `array`. Fails, leaving `array`
/// as it was, where `array` is no array.
pub fn cjson_add_item_to_array(array: &mut CJSON, item: CJSON) -> (r: bool)
    ensures
        r == (old(array)@.kind == JsonKind::Array),
        r ==> final(array)@ == appended(old(array)@, item@),
        !r ==> final(array)@ == old(array)@,
{
    add_item_to_array(array, item)
}

/// Adds `item` under `key` after the last member of `object`. Fails,
/// leaving `object` as it was, where `object` is no object or `key` is
/// empty. A key that is already there is not replaced: both members stay.
fn add_item_to_object(object: &mut CJSON, key: &str, item: CJSON, constant_key: bool) -> (r: bool)
    ensures
        r == (old(object)@.kind == JsonKind::Object && key@.len() > 0),
        r ==> final(object)@ == appended(old(object)@, keyed(item@, key@, constant_key)),
        !r ==> final(object)@ == old(object)@,
{
    if object.item_type != JsonKind::Object || key.is_empty() {
        return false;
    }
    let mut item = item;
    let ghost item0 = item;
    item.string = Some(key.to_owned());
    item.key_is_const = constant_key;
    proof {
        lemma_children(item0);
        lemma_children(item);
        assert(item@.children =~= item0@.children);
    }
    let ghost before = *object;
    object.child.push(item);
    proof {
        lemma_children(before);
        lemma_children(*object);
        assert(object@.children =~= before@.children.push(keyed(item0@, key@, constant_key)));
    }
    true
}

/// Adds `item` under a copy of `key` after the last member of `object`.
/// Fails, leaving `object` as it was, where `object` is no object or `key`
/// is empty.
pub fn cjson_add_item_to_object(object: &mut CJSON, key: &str, item: CJSON) -> (r: bool)
    ensures
        r == (old(object)@.kind == JsonKind::Object && key@.len() > 0),
        r ==> final(object)@ == appended(old(object)@, keyed(item@, key@, false)),
        !r ==> final(object)@ == old(object)@,
{
    add_item_to_object(object, key, item, false)
}

pub fn cjson_add_true_to_object(object: &mut CJSON, name: &str) -> (r: bool)
    ensures
        r == (old(object)@.kind == JsonKind::Object && name@.len() > 0),
        r ==> final(object)@ == appended(old(object)@, keyed(blank(JsonKind::True), name@, false)),
        !r ==> final(object)@ == old(object)@,
{
    add_item_to_object(object, name, cjson_create_true(), false)
}

pub fn cjson_add_false_to_object(object: &mut CJSON, name: &str) -> (r: bool)
    ensures
        r == (old(object)@.kind == JsonKind::Object && name@.len() > 0),
        r ==> final(object)@ == appended(old(object)@, keyed(blank(JsonKind::False), name@, false)),
        !r ==> final(object)@ == old(object)@,
{
    add_item_to_object(object, name, cjson_create_false(), false)
}

pub fn cjson_add_number_to_object(object: &mut CJSON, name: &str, number: JsonNumber) -> (r: bool)
    ensures
        r == (old(object)@.kind == JsonKind::Object && name@.len() > 0),
        r ==> final(object)@ == appended(old(object)@, keyed(with_number(number@), name@, false)),
        !r ==> final(object)@ == old(object)@,
{
    add_item_to_object(object, name, cjson_create_number(number), false)
}

pub fn cjson_add_string_to_object(object: &mut CJSON, name: &str, string: &str) -> (r: bool)
    ensures
        r == (old(object)@.kind == JsonKind::Object && name@.len() > 0),
        r ==> final(object)@ == appended(
            old(object)@,
            keyed(with_text(JsonKind::String, string@, false), name@, false),
        ),
        !r ==> final(object)@ == old(object)@,
{
    add_item_to_object(object, name, cjson_create_string(string), false)
}

/// Number of values that `array` holds.
pub fn cjson_get_array_size(array: &CJSON) -> (r: usize)
    ensures
        r == array@.children.len(),
{
    proof {
        lemma_children(*array);
    }
    array.child.len()
}

fn get_array_item(array: &CJSON, index: usize) -> (r: Option<&CJSON>)
    ensures
        index < array@.children.len() ==> (r matches Some(c) && c@ == array@.children[index as int]),
        index >= array@.children.len() ==> r is None,
{
    proof {
        lemma_children(*array);
    }
    if index < array.child.len() {
        Some(&array.child[index])
    } else {
        None
    }
}

/// The value at `index` in `array`; `None` where there is none.
pub fn cjson_get_array_item(array: &CJSON, index: i32) -> (r: Option<&CJSON>)
    ensures
        0 <= index < array@.children.len() ==> (r matches Some(c) && c@
            == array@.children[index as int]),
        !(0 <= index < array@.children.len()) ==> r is None,
{
    if index < 0 {
        return None;
    }
    get_array_item(array, index as usize)
}

/// String values holding the texts of `strings`, in order.
pub open spec fn string_items(strings: Seq<&str>) -> Seq<Node> {
    Seq::new(strings.len(), |i: int| with_text(JsonKind::String, strings[i]@, false))
}

/// Number values holding `numbers`, in order.
pub open spec fn int_items(numbers: Seq<i32>) -> Seq<Node> {
    Seq::new(numbers.len(), |i: int| with_number(int_number(numbers[i] as int)))
}

fn array_of(children: Vec<CJSON>) -> (r: CJSON)
    ensures
        r@.kind == JsonKind::Array,
        r@ == with_children(JsonKind::Array, r@.children, false),
        r@.children.len() == children@.len(),
        forall|k: int| 0 <= k < children@.len() ==> #[trigger] r@.children[k] == children@[k]@,
{
    let mut r = new_node(JsonKind::Array);
    r.child = children;
    proof {
        lemma_children(r);
    }
    r
}

/// An array of string values holding `strings`; `None` where there are none.
pub fn cjson_create_string_array(strings: &[&str]) -> (r: Option<CJSON>)
    ensures
        strings@.len() == 0 ==> r is None,
        strings@.len() > 0 ==> (r matches Some(a) && a@ == with_children(
            JsonKind::Array,
            string_items(strings@),
            false,
        )),
{
    if strings.len() == 0 {
        return None;
    }
    let mut children: Vec<CJSON> = Vec::new();
    let mut i: usize = 0;
    while i < strings.len()
        invariant
            i <= strings@.len(),
            children@.len() == i,
            forall|k: int| 0 <= k < i ==> #[trigger] children@[k]@ == string_items(strings@)[k],
        decreases strings@.len() - i,
    {
        children.push(cjson_create_string(strings[i]));
        i = i + 1;
    }
    let r = array_of(children);
    assert(r@.children =~= string_items(strings@));
    Some(r)
}

/// An array of string values holding `strings`; `None` where there are none.
#[allow(non_snake_case)]
pub fn cJSON_CreateStringArray(strings: &[&str]) -> (r: Option<CJSON>)
    ensures
        strings@.len() == 0 ==> r is None,
        strings@.len() > 0 ==> (r matches Some(a) && a@ == with_children(
            JsonKind::Array,
            string_items(strings@),
            false,
        )),
{
    cjson_create_string_array(strings)
}

/// An array of number values holding `numbers`; `None` where there are none.
pub fn cjson_create_int_array(numbers: &[i32]) -> (r: Option<CJSON>)
    ensures
        numbers@.len() == 0 ==> r is None,
        numbers@.len() > 0 ==> (r matches Some(a) && a@ == with_children(
            JsonKind::Array,
            int_items(numbers@),
            false,
        )),
{
    if numbers.len() == 0 {
        return None;
    }
    let mut children: Vec<CJSON> = Vec::new();
    let mut i: usize = 0;
    while i < numbers.len()
        invariant
            i <= numbers@.len(),
            children@.len() == i,
            forall|k: int| 0 <= k < i ==> #[trigger] children@[k]@ == int_items(numbers@)[k],
        decreases numbers@.len() - i,
    {
        children.push(cjson_create_number(JsonNumber::from_i32(numbers[i])));
        i = i + 1;
    }
    let r = array_of(children);
    assert(r@.children =~= int_items(numbers@));
    Some(r)
}

/// Releases a value together with everything it owns.
pub fn cjson_delete(item: Option<CJSON>) {
    let _ = item;
}

} // verus!
