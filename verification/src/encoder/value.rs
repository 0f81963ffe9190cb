//! The values that a directory entry can hold.

use crate::bytes::{le_bytes, lemma_le_bytes_len, push_le};
use crate::encoder::directory::Field;
use crate::tags::{type_size, Type};
use vstd::prelude::*;
use vstd::slice::slice_to_vec;
use vstd::string::StringSliceAdditionalSpecFns;

verus! {

/// A value, or a list of values of one type, that a directory entry can hold.
pub trait TiffValue {
    spec fn spec_field_type() -> Type;

    spec fn spec_count(&self) -> nat;

    spec fn spec_data(&self) -> Seq<u8>;

    /// Every value takes as many bytes as its type calls for.
    proof fn lemma_data_len(&self)
        ensures
            self.spec_data().len() == type_size(Self::spec_field_type().code()) * self.spec_count(),
    ;

    /// The type of the values.
    fn field_type() -> (field_type: Type)
        ensures
            field_type == Self::spec_field_type(),
    ;

    /// How many values there are.
    fn count(&self) -> (count: usize)
        ensures
            count == self.spec_count(),
    ;

    /// The values as they stand in a file.
    fn data(&self) -> (data: Vec<u8>)
        ensures
            data@ == self.spec_data(),
    ;
}

/// The entry that holds `value`.
pub open spec fn field_of<T: TiffValue>(value: T) -> Field {
    Field {
        data_type: T::spec_field_type().code(),
        count: value.spec_count() as u64,
        data: value.spec_data(),
    }
}

impl TiffValue for u8 {
    open spec fn spec_field_type() -> Type {
        Type::BYTE
    }

    open spec fn spec_count(&self) -> nat {
        1
    }

    open spec fn spec_data(&self) -> Seq<u8> {
        seq![*self]
    }

    proof fn lemma_data_len(&self) {
    }

    fn field_type() -> Type {
        Type::BYTE
    }

    fn count(&self) -> usize {
        1
    }

    fn data(&self) -> Vec<u8> {
        let mut data: Vec<u8> = Vec::new();
        data.push(*self);
        data
    }
}

impl TiffValue for u16 {
    open spec fn spec_field_type() -> Type {
        Type::SHORT
    }

    open spec fn spec_count(&self) -> nat {
        1
    }

    open spec fn spec_data(&self) -> Seq<u8> {
        le_bytes(*self as nat, 2)
    }

    proof fn lemma_data_len(&self) {
        lemma_le_bytes_len(*self as nat, 2);
    }

    fn field_type() -> Type {
        Type::SHORT
    }

    fn count(&self) -> usize {
        1
    }

    fn data(&self) -> Vec<u8> {
        let mut data: Vec<u8> = Vec::new();
        push_le(&mut data, *self as u64, 2);
        data
    }
}

impl TiffValue for u32 {
    open spec fn spec_field_type() -> Type {
        Type::LONG
    }

    open spec fn spec_count(&self) -> nat {
        1
    }

    open spec fn spec_data(&self) -> Seq<u8> {
        le_bytes(*self as nat, 4)
    }

    proof fn lemma_data_len(&self) {
        lemma_le_bytes_len(*self as nat, 4);
    }

    fn field_type() -> Type {
        Type::LONG
    }

    fn count(&self) -> usize {
        1
    }

    fn data(&self) -> Vec<u8> {
        let mut data: Vec<u8> = Vec::new();
        push_le(&mut data, *self as u64, 4);
        data
    }
}

impl TiffValue for u64 {
    open spec fn spec_field_type() -> Type {
        Type::LONG8
    }

    open spec fn spec_count(&self) -> nat {
        1
    }

    open spec fn spec_data(&self) -> Seq<u8> {
        le_bytes(*self as nat, 8)
    }

    proof fn lemma_data_len(&self) {
        lemma_le_bytes_len(*self as nat, 8);
    }

    fn field_type() -> Type {
        Type::LONG8
    }

    fn count(&self) -> usize {
        1
    }

    fn data(&self) -> Vec<u8> {
        let mut data: Vec<u8> = Vec::new();
        push_le(&mut data, *self, 8);
        data
    }
}

/// A fraction of two unsigned integers.
#[derive(Debug, Clone, Copy, PartialEq, Eq, Structural)]
pub struct Rational {
    /// The numerator.
    pub n: u32,
    /// The denominator.
    pub d: u32,
}

impl TiffValue for Rational {
    open spec fn spec_field_type() -> Type {
        Type::RATIONAL
    }

    open spec fn spec_count(&self) -> nat {
        1
    }

    open spec fn spec_data(&self) -> Seq<u8> {
        le_bytes(self.n as nat, 4) + le_bytes(self.d as nat, 4)
    }

    proof fn lemma_data_len(&self) {
        lemma_le_bytes_len(self.n as nat, 4);
        lemma_le_bytes_len(self.d as nat, 4);
    }

    fn field_type() -> Type {
        Type::RATIONAL
    }

    fn count(&self) -> usize {
        1
    }

    fn data(&self) -> Vec<u8> {
        let mut data: Vec<u8> = Vec::new();
        push_le(&mut data, self.n as u64, 4);
        push_le(&mut data, self.d as u64, 4);
        data
    }
}

impl TiffValue for &[u8] {
    open spec fn spec_field_type() -> Type {
        Type::BYTE
    }

    open spec fn spec_count(&self) -> nat {
        self@.len()
    }

    open spec fn spec_data(&self) -> Seq<u8> {
        self@
    }

    proof fn lemma_data_len(&self) {
    }

    fn field_type() -> Type {
        Type::BYTE
    }

    fn count(&self) -> usize {
        self.len()
    }

    fn data(&self) -> Vec<u8> {
        slice_to_vec(*self)
    }
}

/// Numbers of 16 bits, as the values of an entry.
pub open spec fn shorts(values: Seq<u16>) -> Seq<u8>
    decreases values.len(),
{
    if values.len() == 0 {
        Seq::empty()
    } else {
        shorts(values.drop_last()) + le_bytes(values.last() as nat, 2)
    }
}

pub proof fn lemma_shorts_len(values: Seq<u16>)
    ensures
        shorts(values).len() == 2 * values.len(),
    decreases values.len(),
{
    if values.len() > 0 {
        lemma_shorts_len(values.drop_last());
        lemma_le_bytes_len(values.last() as nat, 2);
    }
}

impl TiffValue for &[u16] {
    open spec fn spec_field_type() -> Type {
        Type::SHORT
    }

    open spec fn spec_count(&self) -> nat {
        self@.len()
    }

    open spec fn spec_data(&self) -> Seq<u8> {
        shorts(self@)
    }

    proof fn lemma_data_len(&self) {
        lemma_shorts_len(self@);
    }

    fn field_type() -> Type {
        Type::SHORT
    }

    fn count(&self) -> usize {
        self.len()
    }

    fn data(&self) -> Vec<u8> {
        let mut data: Vec<u8> = Vec::new();
        let mut i: usize = 0;
        while i < self.len()
            invariant
                i <= self@.len(),
                data@ == shorts(self@.take(i as int)),
            decreases self@.len() - i,
        {
            push_le(&mut data, self[i] as u64, 2);
            i = i + 1;
            assert(self@.take(i as int).drop_last() =~= self@.take(i - 1));
        }
        assert(self@.take(i as int) =~= self@);
        data
    }
}

/// A text ends with a zero byte, which is counted.
impl TiffValue for &str {
    open spec fn spec_field_type() -> Type {
        Type::ASCII
    }

    open spec fn spec_count(&self) -> nat {
        self.spec_bytes().len() + 1
    }

    open spec fn spec_data(&self) -> Seq<u8> {
        self.spec_bytes().push(0)
    }

    proof fn lemma_data_len(&self) {
    }

    fn field_type() -> Type {
        Type::ASCII
    }

    fn count(&self) -> usize {
        self.data().len()
    }

    fn data(&self) -> Vec<u8> {
        let mut data: Vec<u8> = slice_to_vec(self.as_bytes());
        data.push(0);
        data
    }
}

} // verus!
