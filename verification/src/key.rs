use vstd::prelude::*;

verus! {

/// The value of a model's primary key, as plain values.
///
/// Each variant mirrors one kind of SQL value that can identify a row; `None` stands for SQL
/// `NULL`. Two keys identify the same row when they are of the same variant and hold the same
/// value.
#[derive(Debug)]
pub enum KeyValue {
    Bool(Option<bool>),
    TinyInt(Option<i8>),
    SmallInt(Option<i16>),
    Int(Option<i32>),
    BigInt(Option<i64>),
    TinyUnsigned(Option<u8>),
    SmallUnsigned(Option<u16>),
    Unsigned(Option<u32>),
    BigUnsigned(Option<u64>),
    Text(Option<String>),
    Char(Option<char>),
    Bytes(Option<Vec<u8>>),
}

/// The mathematical value of a [`KeyValue`]: text and bytes are taken by their contents.
pub enum KeyView {
    Bool(Option<bool>),
    TinyInt(Option<i8>),
    SmallInt(Option<i16>),
    Int(Option<i32>),
    BigInt(Option<i64>),
    TinyUnsigned(Option<u8>),
    SmallUnsigned(Option<u16>),
    Unsigned(Option<u32>),
    BigUnsigned(Option<u64>),
    Text(Option<Seq<char>>),
    Char(Option<char>),
    Bytes(Option<Seq<u8>>),
}

impl View for KeyValue {
    type V = KeyView;

    open spec fn view(&self) -> KeyView {
        match self {
            KeyValue::Bool(v) => KeyView::Bool(*v),
            KeyValue::TinyInt(v) => KeyView::TinyInt(*v),
            KeyValue::SmallInt(v) => KeyView::SmallInt(*v),
            KeyValue::Int(v) => KeyView::Int(*v),
            KeyValue::BigInt(v) => KeyView::BigInt(*v),
            KeyValue::TinyUnsigned(v) => KeyView::TinyUnsigned(*v),
            KeyValue::SmallUnsigned(v) => KeyView::SmallUnsigned(*v),
            KeyValue::Unsigned(v) => KeyView::Unsigned(*v),
            KeyValue::BigUnsigned(v) => KeyView::BigUnsigned(*v),
            KeyValue::Text(v) => KeyView::Text(
                match v {
                    Some(s) => Some(s@),
                    None => None,
                },
            ),
            KeyValue::Char(v) => KeyView::Char(*v),
            KeyValue::Bytes(v) => KeyView::Bytes(
                match v {
                    Some(b) => Some(b@),
                    None => None,
                },
            ),
        }
    }
}

fn same_option<T: Copy + PartialEq>(a: &Option<T>, b: &Option<T>) -> (r: bool)
    requires
        vstd::laws_eq::obeys_concrete_eq::<T>(),
    ensures
        r == (*a == *b),
{
    proof {
        reveal(vstd::laws_eq::obeys_concrete_eq);
    }
    match (a, b) {
        (Some(x), Some(y)) => *x == *y,
        (None, None) => true,
        _ => false,
    }
}

fn same_bytes(a: &Vec<u8>, b: &Vec<u8>) -> (r: bool)
    ensures
        r == (a@ == b@),
{
    if a.len() != b.len() {
        return false;
    }
    let mut i: usize = 0;
    while i < a.len()
        invariant
            a.len() == b.len(),
            i <= a.len(),
            forall|j: int| 0 <= j < i ==> a@[j] == b@[j],
        decreases a.len() - i,
    {
        if a[i] != b[i] {
            return false;
        }
        i = i + 1;
    }
    assert(a@ =~= b@);
    true
}

impl KeyValue {
    /// Whether `self` and `other` identify the same row.
    pub fn same_key(&self, other: &KeyValue) -> (r: bool)
        ensures
            r == (self@ == other@),
    {
        broadcast use vstd::laws_eq::group_laws_eq;
        match (self, other) {
            (KeyValue::Bool(a), KeyValue::Bool(b)) => same_option(a, b),
            (KeyValue::TinyInt(a), KeyValue::TinyInt(b)) => same_option(a, b),
            (KeyValue::SmallInt(a), KeyValue::SmallInt(b)) => same_option(a, b),
            (KeyValue::Int(a), KeyValue::Int(b)) => same_option(a, b),
            (KeyValue::BigInt(a), KeyValue::BigInt(b)) => same_option(a, b),
            (KeyValue::TinyUnsigned(a), KeyValue::TinyUnsigned(b)) => same_option(a, b),
            (KeyValue::SmallUnsigned(a), KeyValue::SmallUnsigned(b)) => same_option(a, b),
            (KeyValue::Unsigned(a), KeyValue::Unsigned(b)) => same_option(a, b),
            (KeyValue::BigUnsigned(a), KeyValue::BigUnsigned(b)) => same_option(a, b),
            (KeyValue::Char(a), KeyValue::Char(b)) => match (a, b) {
                (Some(x), Some(y)) => *x == *y,
                (None, None) => true,
                _ => false,
            },
            (KeyValue::Text(a), KeyValue::Text(b)) => match (a, b) {
                (Some(x), Some(y)) => *x == *y,
                (None, None) => true,
                _ => false,
            },
            (KeyValue::Bytes(a), KeyValue::Bytes(b)) => match (a, b) {
                (Some(x), Some(y)) => same_bytes(x, y),
                (None, None) => true,
                _ => false,
            },
            _ => false,
        }
    }
}

} // verus!
