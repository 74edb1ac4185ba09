//! JSON-like values: the environment that expressions read and the arguments
//! that templates bind.
use vstd::prelude::*;

verus! {

/// A JSON-compatible value. Arrays and objects are held as linked lists so that
/// a value is a plain tree that can be copied structurally.
#[derive(Debug, PartialEq)]
pub enum Value {
    Null,
    Bool(bool),
    Int(i64),
    Str(String),
    Array(Items),
    Object(Fields),
}

/// The elements of an array, in order.
#[derive(Debug, PartialEq)]
pub enum Items {
    Nil,
    Cons(Box<Value>, Box<Items>),
}

/// The entries of an object; a lookup takes the first entry with the key.
#[derive(Debug, PartialEq)]
pub enum Fields {
    Nil,
    Cons(String, Box<Value>, Box<Fields>),
}

/// The mathematical model of a `Value`.
pub enum JVal {
    Null,
    Bool(bool),
    Int(int),
    Str(Seq<char>),
    Array(Seq<JVal>),
    Object(Seq<(Seq<char>, JVal)>),
}

pub open spec fn value_view(v: Value) -> JVal
    decreases v,
{
    match v {
        Value::Null => JVal::Null,
        Value::Bool(b) => JVal::Bool(b),
        Value::Int(i) => JVal::Int(i as int),
        Value::Str(s) => JVal::Str(s@),
        Value::Array(items) => JVal::Array(items_view(items)),
        Value::Object(fields) => JVal::Object(fields_view(fields)),
    }
}

pub open spec fn items_view(items: Items) -> Seq<JVal>
    decreases items,
{
    match items {
        Items::Nil => Seq::empty(),
        Items::Cons(h, t) => seq![value_view(*h)] + items_view(*t),
    }
}

pub open spec fn fields_view(fields: Fields) -> Seq<(Seq<char>, JVal)>
    decreases fields,
{
    match fields {
        Fields::Nil => Seq::empty(),
        Fields::Cons(k, v, t) => seq![(k@, value_view(*v))] + fields_view(*t),
    }
}

impl View for Value {
    type V = JVal;

    open spec fn view(&self) -> JVal {
        value_view(*self)
    }
}

/// The value of the first entry with key `k`.
pub open spec fn entry_get(entries: Seq<(Seq<char>, JVal)>, k: Seq<char>) -> Option<JVal>
    decreases entries.len(),
{
    if entries.len() == 0 {
        None
    } else if entries[0].0 == k {
        Some(entries[0].1)
    } else {
        entry_get(entries.drop_first(), k)
    }
}

/// One lookup step: the member `key` of an object, and null otherwise.
pub open spec fn member(v: JVal, key: Seq<char>) -> JVal {
    match v {
        JVal::Object(entries) => match entry_get(entries, key) {
            Some(x) => x,
            None => JVal::Null,
        },
        _ => JVal::Null,
    }
}

/// Truthiness: null, `false`, zero and the empty string are falsy.
pub open spec fn truthy(v: JVal) -> bool {
    match v {
        JVal::Null => false,
        JVal::Bool(b) => b,
        JVal::Int(i) => i != 0,
        JVal::Str(s) => s.len() > 0,
        _ => true,
    }
}

/// The equality of `==`: null equals null, and booleans, numbers and strings
/// equal those of their own kind with the same value; anything else is unequal.
pub open spec fn loose_eq(a: JVal, b: JVal) -> bool {
    match (a, b) {
        (JVal::Null, JVal::Null) => true,
        (JVal::Bool(x), JVal::Bool(y)) => x == y,
        (JVal::Int(x), JVal::Int(y)) => x == y,
        (JVal::Str(x), JVal::Str(y)) => x == y,
        _ => false,
    }
}

/// Whether some element of `elems` is `==` to `v`.
pub open spec fn contains_loose(elems: Seq<JVal>, v: JVal) -> bool {
    exists|i: int| 0 <= i < elems.len() && loose_eq(v, #[trigger] elems[i])
}

pub fn is_truthy(v: &Value) -> (r: bool)
    ensures
        r == truthy(v@),
{
    match v {
        Value::Null => false,
        Value::Bool(b) => *b,
        Value::Int(i) => *i != 0,
        Value::Str(s) => s.as_str().unicode_len() > 0,
        _ => true,
    }
}

pub fn values_equal(a: &Value, b: &Value) -> (r: bool)
    ensures
        r == loose_eq(a@, b@),
{
    match (a, b) {
        (Value::Null, Value::Null) => true,
        (Value::Bool(x), Value::Bool(y)) => *x == *y,
        (Value::Int(x), Value::Int(y)) => *x == *y,
        (Value::Str(x), Value::Str(y)) => *x == *y,
        _ => false,
    }
}

/// Whether some element of the array is `==` to `v`.
pub fn contains_value(items: &Items, v: &Value) -> (r: bool)
    ensures
        r == contains_loose(items_view(*items), v@),
    decreases items,
{
    match items {
        Items::Nil => false,
        Items::Cons(h, t) => {
            let here = values_equal(v, h);
            let rest = contains_value(t, v);
            let ghost s = items_view(*items);
            assert(s[0] == value_view(**h));
            assert forall|i: int| 0 <= i < items_view(**t).len() implies s[i + 1]
                == items_view(**t)[i] by {}
            proof {
                if contains_loose(s, v@) {
                    let i = choose|i: int| 0 <= i < s.len() && loose_eq(v@, #[trigger] s[i]);
                    if i > 0 {
                        assert(loose_eq(v@, items_view(**t)[i - 1]));
                    }
                }
                if rest {
                    let j = choose|j: int|
                        0 <= j < items_view(**t).len() && loose_eq(
                            v@,
                            #[trigger] items_view(**t)[j],
                        );
                    assert(loose_eq(v@, s[j + 1]));
                }
            }
            here || rest
        },
    }
}

/// The entry stored under `key`, by reference.
pub fn fields_lookup<'a>(fields: &'a Fields, key: &String) -> (r: Option<&'a Value>)
    ensures
        match entry_get(fields_view(*fields), key@) {
            Some(x) => r matches Some(y) && y@ == x,
            None => r is None,
        },
    decreases fields,
{
    match fields {
        Fields::Nil => None,
        Fields::Cons(k, v, t) => {
            assert(fields_view(*fields).drop_first() =~= fields_view(**t));
            if *k == *key {
                Some(&**v)
            } else {
                fields_lookup(t, key)
            }
        },
    }
}

impl Value {
    /// A structural copy.
    pub fn copy(&self) -> (r: Value)
        ensures
            r == *self,
        decreases self,
    {
        match self {
            Value::Null => Value::Null,
            Value::Bool(b) => Value::Bool(*b),
            Value::Int(i) => Value::Int(*i),
            Value::Str(s) => Value::Str(s.clone()),
            Value::Array(items) => Value::Array(items.copy()),
            Value::Object(fields) => Value::Object(fields.copy()),
        }
    }

    /// An array holding `elems` in order.
    pub fn array(elems: Vec<Value>) -> (r: Value)
        ensures
            r@ == JVal::Array(elems@.map_values(|v: Value| v@)),
    {
        let mut elems = elems;
        let ghost all = elems@.map_values(|v: Value| v@);
        let mut items = Items::Nil;
        while elems.len() > 0
            invariant
                all =~= elems@.map_values(|v: Value| v@) + items_view(items),
            decreases elems.len(),
        {
            let ghost before = elems@;
            let x = elems.pop().unwrap();
            assert(before =~= elems@.push(x));
            items = Items::Cons(Box::new(x), Box::new(items));
            assert(before.map_values(|v: Value| v@) =~= elems@.map_values(|v: Value| v@).push(
                x@,
            ));
        }
        Value::Array(items)
    }

    /// An object with the entries `entries`, in order; the first of equal keys wins.
    pub fn object(entries: Vec<(String, Value)>) -> (r: Value)
        ensures
            r@ == JVal::Object(entries@.map_values(|e: (String, Value)| (e.0@, e.1@))),
    {
        let mut entries = entries;
        let ghost all = entries@.map_values(|e: (String, Value)| (e.0@, e.1@));
        let mut fields = Fields::Nil;
        while entries.len() > 0
            invariant
                all =~= entries@.map_values(|e: (String, Value)| (e.0@, e.1@)) + fields_view(
                    fields,
                ),
            decreases entries.len(),
        {
            let ghost before = entries@;
            let (k, v) = entries.pop().unwrap();
            assert(before =~= entries@.push((k, v)));
            assert(before.map_values(|e: (String, Value)| (e.0@, e.1@)) =~= entries@.map_values(
                |e: (String, Value)| (e.0@, e.1@),
            ).push((k@, v@)));
            fields = Fields::Cons(k, Box::new(v), Box::new(fields));
        }
        Value::Object(fields)
    }

    /// The member `key` of an object; null for a missing key or a non-object.
    pub fn get(&self, key: &String) -> (r: Value)
        ensures
            r@ == member(self@, key@),
    {
        match self {
            Value::Object(fields) => match fields_lookup(fields, key) {
                Some(v) => v.copy(),
                None => Value::Null,
            },
            _ => Value::Null,
        }
    }
}

impl Items {
    pub fn copy(&self) -> (r: Items)
        ensures
            r == *self,
        decreases self,
    {
        match self {
            Items::Nil => Items::Nil,
            Items::Cons(h, t) => Items::Cons(Box::new((**h).copy()), Box::new((**t).copy())),
        }
    }
}

impl Fields {
    pub fn copy(&self) -> (r: Fields)
        ensures
            r == *self,
        decreases self,
    {
        match self {
            Fields::Nil => Fields::Nil,
            Fields::Cons(k, v, t) => Fields::Cons(
                k.clone(),
                Box::new((**v).copy()),
                Box::new((**t).copy()),
            ),
        }
    }
}

} // verus!
