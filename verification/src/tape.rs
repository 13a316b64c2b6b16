//! The tape: a fixed-length sequence of cells with one movable pointer.

use vstd::prelude::*;

verus! {

/// What the tape asks of a cell: a zero, and addition and subtraction that
/// wrap around instead of overflowing.
pub trait Cell: Copy + Sized {
    /// The zero of the cell type.
    spec fn zero_spec() -> Self;

    /// The sum of two cell values, wrapped around into the cell type.
    spec fn add_spec(self, n: Self) -> Self;

    /// The difference of two cell values, wrapped around into the cell type.
    spec fn sub_spec(self, n: Self) -> Self;

    /// Returns the zero of the cell type.
    fn zero() -> (z: Self)
        ensures
            z == Self::zero_spec(),
    ;

    /// Adds with wraparound.
    fn wrap_add(self, n: Self) -> (sum: Self)
        ensures
            sum == self.add_spec(n),
    ;

    /// Subtracts with wraparound.
    fn wrap_sub(self, n: Self) -> (difference: Self)
        ensures
            difference == self.sub_spec(n),
    ;
}

/// Calls `num::Zero::zero` for `u32`. The contract is taken on trust: it
/// claims that the call returns 0, as the impl of `num::Zero` for the
/// primitive integers does by returning the literal `0`.
#[verifier::external_body]
fn zero_u32() -> (z: u32)
    ensures
        z == 0,
{
    <u32 as num::Zero>::zero()
}

/// A 32-bit cell: arithmetic is modulo 2^32.
impl Cell for u32 {
    open spec fn zero_spec() -> u32 {
        0
    }

    open spec fn add_spec(self, n: u32) -> u32 {
        ((self + n) % 0x1_0000_0000) as u32
    }

    open spec fn sub_spec(self, n: u32) -> u32 {
        ((self - n) % 0x1_0000_0000) as u32
    }

    fn zero() -> (z: u32) {
        zero_u32()
    }

    fn wrap_add(self, n: u32) -> (sum: u32) {
        self.wrapping_add(n)
    }

    fn wrap_sub(self, n: u32) -> (difference: u32) {
        self.wrapping_sub(n)
    }
}

/// A tape of cells and the pointer into it. The pointer may stand at or past
/// the end of the cells; a cell can be read or written only while the
/// pointer stands on one.
#[derive(Debug)]
pub struct Buffer<T> {
    buf: Vec<T>,
    ptr: usize,
}

impl<T: Cell> Buffer<T> {
    /// The cells of the tape, in order.
    pub closed spec fn cells(&self) -> Seq<T> {
        self.buf@
    }

    /// The position of the pointer.
    pub closed spec fn pointer(&self) -> nat {
        self.ptr as nat
    }

    /// Whether the pointer stands on a cell.
    pub open spec fn in_range(&self) -> bool {
        self.pointer() < self.cells().len()
    }

    /// A tape of `buf_size` zeroed cells with the pointer on the first.
    pub fn new(buf_size: usize) -> (buffer: Self)
        ensures
            buffer.cells() == Seq::new(buf_size as nat, |i: int| T::zero_spec()),
            buffer.pointer() == 0,
    {
        let mut buffer = Self { buf: Vec::with_capacity(buf_size), ptr: 0 };
        let mut i: usize = 0;
        while i < buf_size
            invariant
                i <= buf_size,
                buffer.ptr == 0,
                buffer.buf@ == Seq::new(i as nat, |j: int| T::zero_spec()),
            decreases buf_size - i,
        {
            buffer.buf.push(T::zero());
            i += 1;
        }
        buffer
    }

    /// A tape that holds a copy of the given cells, with the pointer on the
    /// first.
    pub fn clone(buf: &[T]) -> (buffer: Self)
        ensures
            buffer.cells() == buf@,
            buffer.pointer() == 0,
    {
        let mut buffer = Self { buf: Vec::with_capacity(buf.len()), ptr: 0 };
        let mut i: usize = 0;
        while i < buf.len()
            invariant
                i <= buf.len(),
                buffer.ptr == 0,
                buffer.buf@ == buf@.take(i as int),
            decreases buf.len() - i,
        {
            buffer.buf.push(buf[i]);
            i += 1;
        }
        buffer
    }

    /// The cells of the tape.
    pub fn buf(&self) -> (cells: &[T])
        ensures
            cells@ == self.cells(),
    {
        self.buf.as_slice()
    }

    /// The position of the pointer.
    pub fn ptr(&self) -> (ptr: usize)
        ensures
            ptr == self.pointer(),
    {
        self.ptr
    }

    /// Moves the pointer `offset` cells forward. The pointer may leave the
    /// tape; it may not pass the largest index that the machine can hold.
    pub fn fwd(&mut self, offset: usize)
        requires
            old(self).pointer() + offset <= usize::MAX,
        ensures
            final(self).pointer() == old(self).pointer() + offset,
            final(self).cells() == old(self).cells(),
    {
        self.ptr += offset;
    }

    /// Moves the pointer `offset` cells back, not below the first cell.
    pub fn bwd(&mut self, offset: usize)
        requires
            offset <= old(self).pointer(),
        ensures
            final(self).pointer() == old(self).pointer() - offset,
            final(self).cells() == old(self).cells(),
    {
        self.ptr -= offset;
    }

    /// Adds `offset` to the cell at the pointer, with wraparound.
    pub fn inc(&mut self, offset: T)
        requires
            old(self).in_range(),
        ensures
            final(self).pointer() == old(self).pointer(),
            final(self).cells() == old(self).cells().update(
                old(self).pointer() as int,
                old(self).cells()[old(self).pointer() as int].add_spec(offset),
            ),
    {
        let value = self.buf[self.ptr].wrap_add(offset);
        self.buf.set(self.ptr, value);
    }

    /// Subtracts `offset` from the cell at the pointer, with wraparound.
    pub fn dec(&mut self, offset: T)
        requires
            old(self).in_range(),
        ensures
            final(self).pointer() == old(self).pointer(),
            final(self).cells() == old(self).cells().update(
                old(self).pointer() as int,
                old(self).cells()[old(self).pointer() as int].sub_spec(offset),
            ),
    {
        let value = self.buf[self.ptr].wrap_sub(offset);
        self.buf.set(self.ptr, value);
    }

    /// The value of the cell at the pointer.
    pub fn read(&self) -> (value: T)
        requires
            self.in_range(),
        ensures
            value == self.cells()[self.pointer() as int],
    {
        self.buf[self.ptr]
    }

    /// Sets the cell at the pointer to `val`.
    pub fn write(&mut self, val: T)
        requires
            old(self).in_range(),
        ensures
            final(self).pointer() == old(self).pointer(),
            final(self).cells() == old(self).cells().update(old(self).pointer() as int, val),
    {
        self.buf.set(self.ptr, val);
    }
}

} // verus!
