//! The value model: what a decoded frame is.

use crate::buf::{bytes_as_slice, bytes_from_vec, bytes_seq};
use crate::frame::{BULK, CR, LF};
use crate::number::{decimal, format_decimal};
use bytes::Bytes;
use vstd::prelude::*;
use vstd::std_specs::cmp::PartialEqSpecImpl;

verus! {

/// A protocol value as mathematics sees it.
pub enum ValueView {
    BulkString(Seq<u8>),
    Array(Seq<ValueView>),
}

/// A decoded, or to-be-encoded, protocol value.
#[derive(Debug)]
pub enum Value {
    /// A byte string of known length.
    BulkString(Bytes),
    /// Nested values, in order.
    Array(Vec<Value>),
}

impl View for Value {
    type V = ValueView;

    open spec fn view(&self) -> ValueView
        decreases self,
    {
        match self {
            Value::BulkString(b) => ValueView::BulkString(bytes_seq(*b)),
            Value::Array(items) => ValueView::Array(
                Seq::new(
                    items@.len(),
                    |i: int|
                        if 0 <= i < items@.len() {
                            items@[i]@
                        } else {
                            ValueView::Array(Seq::empty())
                        },
                ),
            ),
        }
    }
}

/// Whether two slices hold the same bytes.
pub fn same_bytes(a: &[u8], b: &[u8]) -> (r: bool)
    ensures
        r == (a@ == b@),
{
    if a.len() != b.len() {
        return false;
    }
    let mut i: usize = 0;
    while i < a.len()
        invariant
            i <= a.len(),
            a.len() == b.len(),
            forall|j: int| 0 <= j < i ==> a@[j] == b@[j],
        decreases a.len() - i,
    {
        if a[i] != b[i] {
            return false;
        }
        i = i + 1;
    }
    assert(a@ =~= b@);
    true
}

impl PartialEq for Value {
    /// Structural equality: bulk strings by their bytes, arrays by their
    /// lengths and then element by element.
    fn eq(&self, other: &Self) -> (r: bool)
        decreases self,
    {
        match (self, other) {
            (Value::BulkString(a), Value::BulkString(b)) => same_bytes(
                bytes_as_slice(a),
                bytes_as_slice(b),
            ),
            (Value::Array(a), Value::Array(b)) => {
                if a.len() != b.len() {
                    assert(self.items().len() != other.items().len());
                    return false;
                }
                let mut i: usize = 0;
                while i < a.len()
                    invariant
                        i <= a.len(),
                        a.len() == b.len(),
                        *self == Value::Array(*a),
                        *other == Value::Array(*b),
                        forall|j: int| 0 <= j < i ==> a@[j]@ == b@[j]@,
                    decreases a.len() - i,
                {
                    assert(decreases_to!(*self => self->Array_0));
                    assert(decreases_to!(self->Array_0 => self->Array_0[i as int]));
                    if !a[i].eq(&b[i]) {
                        assert(self.items()[i as int] != other.items()[i as int]);
                        return false;
                    }
                    i = i + 1;
                }
                assert(self.items() =~= other.items());
                true
            },
            _ => false,
        }
    }
}

impl PartialEqSpecImpl for Value {
    open spec fn obeys_eq_spec() -> bool {
        true
    }

    open spec fn eq_spec(&self, other: &Value) -> bool {
        self@ == other@
    }
}

/// The frame of a bulk string: `$`, the payload's length in decimal, a
/// terminator, the payload, a terminator.
pub open spec fn encode_bulk(payload: Seq<u8>) -> Seq<u8> {
    seq![BULK] + decimal(payload.len()) + seq![CR, LF] + payload + seq![CR, LF]
}

impl Value {
    /// The frame of a bulk string. No other value has an encoding.
    pub fn as_bytes(&self) -> (out: Bytes)
        requires
            self is BulkString,
        ensures
            self@ matches ValueView::BulkString(payload) && bytes_seq(out) == encode_bulk(payload),
    {
        match self {
            Value::BulkString(s) => {
                let payload = bytes_as_slice(s);
                let mut digits = format_decimal(payload.len());
                let mut buf: Vec<u8> = Vec::with_capacity(4 * 1024);
                buf.push(BULK);
                buf.append(&mut digits);
                buf.push(CR);
                buf.push(LF);
                buf.extend_from_slice(payload);
                buf.push(CR);
                buf.push(LF);
                assert(buf@ =~= encode_bulk(payload@));
                bytes_from_vec(buf)
            },
            Value::Array(_) => unreached(),
        }
    }

    /// The elements of an array, as mathematics sees them; empty for a bulk
    /// string.
    pub open spec fn items(&self) -> Seq<ValueView> {
        match self@ {
            ValueView::Array(items) => items,
            ValueView::BulkString(_) => Seq::empty(),
        }
    }

    /// An array without elements.
    pub fn array() -> (v: Self)
        ensures
            v@ == ValueView::Array(Seq::empty()),
    {
        let v = Value::Array(Vec::new());
        assert(v.items() =~= Seq::empty());
        v
    }

    /// Appends `bstr` to an array.
    pub fn push_bulk_str(&mut self, bstr: Value)
        requires
            *old(self) is Array,
        ensures
            final(self)@ == ValueView::Array(old(self).items().push(bstr@)),
    {
        match self {
            Value::Array(a) => {
                a.push(bstr);
            },
            Value::BulkString(_) => unreached(),
        }
        assert(self.items() =~= old(self).items().push(bstr@));
    }
}

} // verus!
