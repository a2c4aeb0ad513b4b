//! Fixed-layout little-endian records.
//!
//! Every record type has a constant byte size, a packed form without padding,
//! and a decoder that inverts the encoder. Composite records are the
//! concatenation of their fields in declaration order.

use vstd::prelude::*;

verus! {

/// Reading a record from a byte source failed.
#[derive(Debug, Copy, Clone, PartialEq, Eq, Structural)]
pub enum ReadError {
    /// The source ended before the record was complete.
    UnexpectedEof,
}

/// A record with a fixed-size little-endian packed form.
pub trait PackedStruct: Sized {
    /// The number of bytes of the packed form.
    spec fn spec_size() -> nat;

    /// The packed form of the record.
    spec fn spec_to_packed(&self) -> Seq<u8>;

    /// The record that a packed form stands for.
    spec fn spec_from_packed(bytes: Seq<u8>) -> Self;

    /// Encoding yields exactly `spec_size()` bytes, and decoding them gives the
    /// record back.
    proof fn lemma_round_trip(&self)
        ensures
            self.spec_to_packed().len() == Self::spec_size(),
            Self::spec_from_packed(self.spec_to_packed()) == *self,
    ;

    fn size() -> (n: usize)
        requires
            Self::spec_size() <= usize::MAX,
        ensures
            n == Self::spec_size(),
    ;

    /// Appends the packed form to `out`.
    fn pack_into(&self, out: &mut Vec<u8>)
        ensures
            final(out)@ == old(out)@ + self.spec_to_packed(),
    ;

    fn from_packed(bytes: &[u8]) -> (r: Self)
        requires
            bytes@.len() == Self::spec_size(),
        ensures
            r == Self::spec_from_packed(bytes@),
    ;

    fn to_packed(&self) -> (bytes: Vec<u8>)
        ensures
            bytes@ == self.spec_to_packed(),
    {
        let mut bytes = Vec::new();
        self.pack_into(&mut bytes);
        bytes
    }

    fn read_packed_arr(&mut self, bytes: &[u8])
        requires
            bytes@.len() == Self::spec_size(),
        ensures
            *final(self) == Self::spec_from_packed(bytes@),
    {
        *self = Self::from_packed(bytes);
    }
}

/// Decodes the record at the start of `src`.
pub fn read<T: PackedStruct>(src: &[u8]) -> (r: Result<T, ReadError>)
    requires
        T::spec_size() <= usize::MAX,
    ensures
        src@.len() >= T::spec_size() ==> r == Ok::<T, ReadError>(
            T::spec_from_packed(src@.subrange(0, T::spec_size() as int)),
        ),
        src@.len() < T::spec_size() ==> r == Err::<T, ReadError>(ReadError::UnexpectedEof),
{
    let n = T::size();
    if src.len() < n {
        return Err(ReadError::UnexpectedEof);
    }
    Ok(T::from_packed(vstd::slice::slice_subrange(src, 0, n)))
}

/// Decodes the record at the start of `src`, or returns `None` when `src` is
/// empty.
pub fn try_read<T: PackedStruct>(src: &[u8]) -> (r: Result<Option<T>, ReadError>)
    requires
        T::spec_size() <= usize::MAX,
    ensures
        src@.len() == 0 ==> r == Ok::<Option<T>, ReadError>(None),
        src@.len() >= T::spec_size() && src@.len() > 0 ==> r == Ok::<Option<T>, ReadError>(
            Some(T::spec_from_packed(src@.subrange(0, T::spec_size() as int))),
        ),
        0 < src@.len() < T::spec_size() ==> r == Err::<Option<T>, ReadError>(
            ReadError::UnexpectedEof,
        ),
{
    if src.len() == 0 {
        return Ok(None);
    }
    let n = T::size();
    if src.len() < n {
        return Err(ReadError::UnexpectedEof);
    }
    Ok(Some(T::from_packed(vstd::slice::slice_subrange(src, 0, n))))
}

/// Appends the packed form of `s` to `out`.
pub fn write<T: PackedStruct>(s: &T, out: &mut Vec<u8>)
    ensures
        final(out)@ == old(out)@ + s.spec_to_packed(),
{
    s.pack_into(out);
}

/// What remains of `a + b` after its first `a.len()` elements is `b`, and
/// those first elements are `a`.
pub proof fn lemma_concat_parts<T>(a: Seq<T>, b: Seq<T>)
    ensures
        (a + b).subrange(0, a.len() as int) == a,
        (a + b).subrange(a.len() as int, (a + b).len() as int) == b,
{
    assert((a + b).subrange(0, a.len() as int) =~= a);
    assert((a + b).subrange(a.len() as int, (a + b).len() as int) =~= b);
}

/// A range that lies in the first part of a concatenation is a range of
/// that part, and the range of the second part is that part.
pub proof fn lemma_concat_subranges()
    ensures
        forall|x: Seq<u8>, y: Seq<u8>, a: int, b: int|
            0 <= a <= b <= x.len() ==> #[trigger] (x + y).subrange(a, b) == x.subrange(a, b),
        forall|x: Seq<u8>, y: Seq<u8>, a: int, b: int|
            a == x.len() && b == x.len() + y.len() ==> #[trigger] (x + y).subrange(a, b) == y,
        forall|x: Seq<u8>, y: Seq<u8>, a: int, b: int|
            a == 0 && b == x.len() ==> #[trigger] (x + y).subrange(a, b) == x,
{
    assert forall|x: Seq<u8>, y: Seq<u8>, a: int, b: int| 0 <= a <= b <= x.len() implies #[trigger] (x
        + y).subrange(a, b) == x.subrange(a, b) by {
        assert((x + y).subrange(a, b) =~= x.subrange(a, b));
    }
    assert forall|x: Seq<u8>, y: Seq<u8>, a: int, b: int|
        a == x.len() && b == x.len() + y.len() implies #[trigger] (x + y).subrange(a, b) == y by {
        assert((x + y).subrange(a, b) =~= y);
    }
    assert forall|x: Seq<u8>, y: Seq<u8>, a: int, b: int|
        a == 0 && b == x.len() implies #[trigger] (x + y).subrange(a, b) == x by {
        assert((x + y).subrange(a, b) =~= x);
    }
}

pub open spec fn le_u16(x: u16) -> Seq<u8> {
    seq![(x % 256) as u8, (x / 256) as u8]
}

pub open spec fn u16_of_le(b: Seq<u8>) -> u16 {
    (b[0] + b[1] * 0x100) as u16
}

pub open spec fn le_u32(x: u32) -> Seq<u8> {
    let q1 = x / 256;
    let q2 = q1 / 256;
    let q3 = q2 / 256;
    seq![(x % 256) as u8, (q1 % 256) as u8, (q2 % 256) as u8, q3 as u8]
}

pub open spec fn u32_of_le(b: Seq<u8>) -> u32 {
    (b[0] + b[1] * 0x100 + b[2] * 0x1_0000 + b[3] * 0x100_0000) as u32
}

pub open spec fn le_u64(x: u64) -> Seq<u8> {
    let q1 = x / 256;
    let q2 = q1 / 256;
    let q3 = q2 / 256;
    let q4 = q3 / 256;
    let q5 = q4 / 256;
    let q6 = q5 / 256;
    let q7 = q6 / 256;
    seq![
        (x % 256) as u8,
        (q1 % 256) as u8,
        (q2 % 256) as u8,
        (q3 % 256) as u8,
        (q4 % 256) as u8,
        (q5 % 256) as u8,
        (q6 % 256) as u8,
        q7 as u8,
    ]
}

pub open spec fn u64_of_le(b: Seq<u8>) -> u64 {
    (b[0] + b[1] * 0x100 + b[2] * 0x1_0000 + b[3] * 0x100_0000 + b[4] * 0x1_0000_0000 + b[5]
        * 0x100_0000_0000 + b[6] * 0x1_0000_0000_0000 + b[7] * 0x100_0000_0000_0000) as u64
}

/// The unsigned value with the two's-complement bit pattern of `x`.
pub open spec fn bits_of_i8(x: i8) -> u8 {
    if x >= 0 {
        x as u8
    } else {
        (x + 0x100) as u8
    }
}

pub open spec fn i8_of_bits(u: u8) -> i8 {
    if u < 0x80 {
        u as i8
    } else {
        (u - 0x100) as i8
    }
}

pub open spec fn bits_of_i16(x: i16) -> u16 {
    if x >= 0 {
        x as u16
    } else {
        (x + 0x1_0000) as u16
    }
}

pub open spec fn i16_of_bits(u: u16) -> i16 {
    if u < 0x8000 {
        u as i16
    } else {
        (u - 0x1_0000) as i16
    }
}

pub open spec fn bits_of_i32(x: i32) -> u32 {
    if x >= 0 {
        x as u32
    } else {
        (x + 0x1_0000_0000) as u32
    }
}

pub open spec fn i32_of_bits(u: u32) -> i32 {
    if u < 0x8000_0000 {
        u as i32
    } else {
        (u - 0x1_0000_0000) as i32
    }
}

pub open spec fn bits_of_i64(x: i64) -> u64 {
    if x >= 0 {
        x as u64
    } else {
        (x + 0x1_0000_0000_0000_0000) as u64
    }
}

pub open spec fn i64_of_bits(u: u64) -> i64 {
    if u < 0x8000_0000_0000_0000 {
        u as i64
    } else {
        (u - 0x1_0000_0000_0000_0000) as i64
    }
}

fn exec_bits_of_i8(x: i8) -> (u: u8)
    ensures
        u == bits_of_i8(x),
{
    if x >= 0 {
        x as u8
    } else {
        (x as i16 + 0x100) as u8
    }
}

fn exec_i8_of_bits(u: u8) -> (x: i8)
    ensures
        x == i8_of_bits(u),
{
    if u < 0x80 {
        u as i8
    } else {
        (u as i16 - 0x100) as i8
    }
}

fn exec_bits_of_i16(x: i16) -> (u: u16)
    ensures
        u == bits_of_i16(x),
{
    if x >= 0 {
        x as u16
    } else {
        (x as i32 + 0x1_0000) as u16
    }
}

fn exec_i16_of_bits(u: u16) -> (x: i16)
    ensures
        x == i16_of_bits(u),
{
    if u < 0x8000 {
        u as i16
    } else {
        (u as i32 - 0x1_0000) as i16
    }
}

fn exec_bits_of_i32(x: i32) -> (u: u32)
    ensures
        u == bits_of_i32(x),
{
    if x >= 0 {
        x as u32
    } else {
        (x as i64 + 0x1_0000_0000) as u32
    }
}

pub fn exec_i32_of_bits(u: u32) -> (x: i32)
    ensures
        x == i32_of_bits(u),
{
    if u < 0x8000_0000 {
        u as i32
    } else {
        (u as i64 - 0x1_0000_0000) as i32
    }
}

fn exec_bits_of_i64(x: i64) -> (u: u64)
    ensures
        u == bits_of_i64(x),
{
    if x >= 0 {
        x as u64
    } else {
        (x as i128 + 0x1_0000_0000_0000_0000) as u64
    }
}

fn exec_i64_of_bits(u: u64) -> (x: i64)
    ensures
        x == i64_of_bits(u),
{
    if u < 0x8000_0000_0000_0000 {
        u as i64
    } else {
        (u as i128 - 0x1_0000_0000_0000_0000) as i64
    }
}

impl PackedStruct for u8 {
    open spec fn spec_size() -> nat {
        1
    }

    open spec fn spec_to_packed(&self) -> Seq<u8> {
        seq![*self]
    }

    open spec fn spec_from_packed(bytes: Seq<u8>) -> Self {
        bytes[0]
    }

    proof fn lemma_round_trip(&self) {
    }

    fn size() -> (n: usize) {
        1
    }

    fn pack_into(&self, out: &mut Vec<u8>) {
        out.push(*self);
        assert(out@ =~= old(out)@ + self.spec_to_packed());
    }

    fn from_packed(bytes: &[u8]) -> (r: Self) {
        bytes[0]
    }
}

impl PackedStruct for u16 {
    open spec fn spec_size() -> nat {
        2
    }

    open spec fn spec_to_packed(&self) -> Seq<u8> {
        le_u16(*self)
    }

    open spec fn spec_from_packed(bytes: Seq<u8>) -> Self {
        u16_of_le(bytes)
    }

    proof fn lemma_round_trip(&self) {
    }

    fn size() -> (n: usize) {
        2
    }

    fn pack_into(&self, out: &mut Vec<u8>) {
        let x = *self;
        out.push((x % 256) as u8);
        out.push((x / 256) as u8);
        assert(out@ =~= old(out)@ + self.spec_to_packed());
    }

    fn from_packed(bytes: &[u8]) -> (r: Self) {
        let b0 = bytes[0] as u16;
        let b1 = bytes[1] as u16;
        b0 + b1 * 0x100
    }
}

impl PackedStruct for u32 {
    open spec fn spec_size() -> nat {
        4
    }

    open spec fn spec_to_packed(&self) -> Seq<u8> {
        le_u32(*self)
    }

    open spec fn spec_from_packed(bytes: Seq<u8>) -> Self {
        u32_of_le(bytes)
    }

    proof fn lemma_round_trip(&self) {
    }

    fn size() -> (n: usize) {
        4
    }

    fn pack_into(&self, out: &mut Vec<u8>) {
        let x = *self;
        let q1 = x / 256;
        let q2 = q1 / 256;
        let q3 = q2 / 256;
        out.push((x % 256) as u8);
        out.push((q1 % 256) as u8);
        out.push((q2 % 256) as u8);
        out.push(q3 as u8);
        assert(out@ =~= old(out)@ + self.spec_to_packed());
    }

    fn from_packed(bytes: &[u8]) -> (r: Self) {
        let b0 = bytes[0] as u32;
        let b1 = bytes[1] as u32;
        let b2 = bytes[2] as u32;
        let b3 = bytes[3] as u32;
        b0 + b1 * 0x100 + b2 * 0x1_0000 + b3 * 0x100_0000
    }
}

impl PackedStruct for u64 {
    open spec fn spec_size() -> nat {
        8
    }

    open spec fn spec_to_packed(&self) -> Seq<u8> {
        le_u64(*self)
    }

    open spec fn spec_from_packed(bytes: Seq<u8>) -> Self {
        u64_of_le(bytes)
    }

    proof fn lemma_round_trip(&self) {
    }

    fn size() -> (n: usize) {
        8
    }

    fn pack_into(&self, out: &mut Vec<u8>) {
        let x = *self;
        let q1 = x / 256;
        let q2 = q1 / 256;
        let q3 = q2 / 256;
        let q4 = q3 / 256;
        let q5 = q4 / 256;
        let q6 = q5 / 256;
        let q7 = q6 / 256;
        out.push((x % 256) as u8);
        out.push((q1 % 256) as u8);
        out.push((q2 % 256) as u8);
        out.push((q3 % 256) as u8);
        out.push((q4 % 256) as u8);
        out.push((q5 % 256) as u8);
        out.push((q6 % 256) as u8);
        out.push(q7 as u8);
        assert(out@ =~= old(out)@ + self.spec_to_packed());
    }

    fn from_packed(bytes: &[u8]) -> (r: Self) {
        let b0 = bytes[0] as u64;
        let b1 = bytes[1] as u64;
        let b2 = bytes[2] as u64;
        let b3 = bytes[3] as u64;
        let b4 = bytes[4] as u64;
        let b5 = bytes[5] as u64;
        let b6 = bytes[6] as u64;
        let b7 = bytes[7] as u64;
        b0 + b1 * 0x100 + b2 * 0x1_0000 + b3 * 0x100_0000 + b4 * 0x1_0000_0000 + b5
            * 0x100_0000_0000 + b6 * 0x1_0000_0000_0000 + b7 * 0x100_0000_0000_0000
    }
}

impl PackedStruct for i8 {
    open spec fn spec_size() -> nat {
        1
    }

    open spec fn spec_to_packed(&self) -> Seq<u8> {
        seq![bits_of_i8(*self)]
    }

    open spec fn spec_from_packed(bytes: Seq<u8>) -> Self {
        i8_of_bits(bytes[0])
    }

    proof fn lemma_round_trip(&self) {
    }

    fn size() -> (n: usize) {
        1
    }

    fn pack_into(&self, out: &mut Vec<u8>) {
        out.push(exec_bits_of_i8(*self));
        assert(out@ =~= old(out)@ + self.spec_to_packed());
    }

    fn from_packed(bytes: &[u8]) -> (r: Self) {
        exec_i8_of_bits(bytes[0])
    }
}

impl PackedStruct for i16 {
    open spec fn spec_size() -> nat {
        2
    }

    open spec fn spec_to_packed(&self) -> Seq<u8> {
        le_u16(bits_of_i16(*self))
    }

    open spec fn spec_from_packed(bytes: Seq<u8>) -> Self {
        i16_of_bits(u16_of_le(bytes))
    }

    proof fn lemma_round_trip(&self) {
        bits_of_i16(*self).lemma_round_trip();
    }

    fn size() -> (n: usize) {
        2
    }

    fn pack_into(&self, out: &mut Vec<u8>) {
        exec_bits_of_i16(*self).pack_into(out);
    }

    fn from_packed(bytes: &[u8]) -> (r: Self) {
        exec_i16_of_bits(u16::from_packed(bytes))
    }
}

impl PackedStruct for i32 {
    open spec fn spec_size() -> nat {
        4
    }

    open spec fn spec_to_packed(&self) -> Seq<u8> {
        le_u32(bits_of_i32(*self))
    }

    open spec fn spec_from_packed(bytes: Seq<u8>) -> Self {
        i32_of_bits(u32_of_le(bytes))
    }

    proof fn lemma_round_trip(&self) {
        bits_of_i32(*self).lemma_round_trip();
    }

    fn size() -> (n: usize) {
        4
    }

    fn pack_into(&self, out: &mut Vec<u8>) {
        exec_bits_of_i32(*self).pack_into(out);
    }

    fn from_packed(bytes: &[u8]) -> (r: Self) {
        exec_i32_of_bits(u32::from_packed(bytes))
    }
}

impl PackedStruct for i64 {
    open spec fn spec_size() -> nat {
        8
    }

    open spec fn spec_to_packed(&self) -> Seq<u8> {
        le_u64(bits_of_i64(*self))
    }

    open spec fn spec_from_packed(bytes: Seq<u8>) -> Self {
        i64_of_bits(u64_of_le(bytes))
    }

    proof fn lemma_round_trip(&self) {
        bits_of_i64(*self).lemma_round_trip();
    }

    fn size() -> (n: usize) {
        8
    }

    fn pack_into(&self, out: &mut Vec<u8>) {
        exec_bits_of_i64(*self).pack_into(out);
    }

    fn from_packed(bytes: &[u8]) -> (r: Self) {
        exec_i64_of_bits(u64::from_packed(bytes))
    }
}

/// A pair of records is a record: the first, then the second.
impl<A: PackedStruct, B: PackedStruct> PackedStruct for (A, B) {
    open spec fn spec_size() -> nat {
        A::spec_size() + B::spec_size()
    }

    open spec fn spec_to_packed(&self) -> Seq<u8> {
        self.0.spec_to_packed() + self.1.spec_to_packed()
    }

    open spec fn spec_from_packed(bytes: Seq<u8>) -> Self {
        (
            A::spec_from_packed(bytes.subrange(0, A::spec_size() as int)),
            B::spec_from_packed(bytes.subrange(A::spec_size() as int, bytes.len() as int)),
        )
    }

    proof fn lemma_round_trip(&self) {
        self.0.lemma_round_trip();
        self.1.lemma_round_trip();
        lemma_concat_parts(self.0.spec_to_packed(), self.1.spec_to_packed());
    }

    fn size() -> (n: usize) {
        A::size() + B::size()
    }

    fn pack_into(&self, out: &mut Vec<u8>) {
        self.0.pack_into(out);
        self.1.pack_into(out);
        assert(out@ =~= old(out)@ + self.spec_to_packed());
    }

    fn from_packed(bytes: &[u8]) -> (r: Self) {
        let total = bytes.len();
        let first = A::size();
        (
            A::from_packed(vstd::slice::slice_subrange(bytes, 0, first)),
            B::from_packed(vstd::slice::slice_subrange(bytes, first, total)),
        )
    }
}

/// Three records in a row are a record.
impl<A: PackedStruct, B: PackedStruct, C: PackedStruct> PackedStruct for (A, B, C) {
    open spec fn spec_size() -> nat {
        A::spec_size() + B::spec_size() + C::spec_size()
    }

    open spec fn spec_to_packed(&self) -> Seq<u8> {
        self.0.spec_to_packed() + self.1.spec_to_packed() + self.2.spec_to_packed()
    }

    open spec fn spec_from_packed(bytes: Seq<u8>) -> Self {
        (
            A::spec_from_packed(bytes.subrange(0, A::spec_size() as int)),
            B::spec_from_packed(
                bytes.subrange(A::spec_size() as int, (A::spec_size() + B::spec_size()) as int),
            ),
            C::spec_from_packed(
                bytes.subrange((A::spec_size() + B::spec_size()) as int, bytes.len() as int),
            ),
        )
    }

    proof fn lemma_round_trip(&self) {
        self.0.lemma_round_trip();
        self.1.lemma_round_trip();
        self.2.lemma_round_trip();
        let a = self.0.spec_to_packed();
        let b = self.1.spec_to_packed();
        let c = self.2.spec_to_packed();
        lemma_concat_parts(a + b, c);
        lemma_concat_parts(a, b);
        assert((a + b + c).subrange(0, a.len() as int) =~= a);
        assert((a + b + c).subrange(a.len() as int, (a.len() + b.len()) as int) =~= b);
    }

    fn size() -> (n: usize) {
        A::size() + B::size() + C::size()
    }

    fn pack_into(&self, out: &mut Vec<u8>) {
        self.0.pack_into(out);
        self.1.pack_into(out);
        self.2.pack_into(out);
        assert(out@ =~= old(out)@ + self.spec_to_packed());
    }

    fn from_packed(bytes: &[u8]) -> (r: Self) {
        let total = bytes.len();
        let first = A::size();
        let second = B::size();
        (
            A::from_packed(vstd::slice::slice_subrange(bytes, 0, first)),
            B::from_packed(vstd::slice::slice_subrange(bytes, first, first + second)),
            C::from_packed(vstd::slice::slice_subrange(bytes, first + second, total)),
        )
    }
}

} // verus!
