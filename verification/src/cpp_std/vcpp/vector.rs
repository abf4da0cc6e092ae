//! MSVC `std::vector` (32-bit) as it sits in memory.
//!
//! Decoding a vector from bytes does not confirm that the memory holds one; it only
//! rules out structurally invalid states.

use vstd::prelude::*;

use crate::error::vcpp::VectorError;
use crate::error::MemError;
use crate::mem::Reader;
use crate::util::{fill_bytes, le_u32_at, read_u32_le};
use crate::verifiable::Verifiable;

verus! {

/// An std::vector (MSVC, 32-bit): the address of the first element, the address past
/// the last element, and the address of the end of the underlying array.
#[derive(Copy, Debug)]
pub struct CppVector<T> {
    /// The address of the first element.
    pub first_addr: u32,
    /// The address past the last element.
    pub last_addr: u32,
    /// The address of the end of the array.
    pub arr_end: u32,
    /// The element type.
    pub phantom: core::marker::PhantomData<T>,
}

impl<T> Clone for CppVector<T> {
    fn clone(&self) -> (r: Self)
        ensures
            r == *self,
    {
        CppVector {
            first_addr: self.first_addr,
            last_addr: self.last_addr,
            arr_end: self.arr_end,
            phantom: core::marker::PhantomData,
        }
    }
}

/// The outcome of a vector's checks: the first address is below the last, and the
/// distance between them is a whole number of elements of `element_size` bytes.
pub open spec fn vector_check(first_addr: u32, last_addr: u32, element_size: u32) -> Result<
    (),
    VectorError,
> {
    if first_addr >= last_addr {
        Err(VectorError::InvalidRange { first_addr, last_addr })
    } else {
        let diff = (last_addr - first_addr) as u32;
        if element_size == 0 || diff % element_size != 0 {
            Err(VectorError::Misaligned { diff, element_size })
        } else {
            Ok(())
        }
    }
}

/// The elements that `bytes` hold, each `T`'s own number of bytes.
pub open spec fn decode_elements<T: Verifiable>(bytes: Seq<u8>, n: nat) -> Seq<T> {
    Seq::new(
        n,
        |i: int| T::spec_decode(bytes.subrange(i * T::layout_size(), (i + 1) * T::layout_size())),
    )
}

impl<T: Verifiable + Copy> CppVector<T> {
    /// The size of the element type in bytes.
    pub open spec fn element_size() -> nat {
        T::layout_size()
    }

    /// Returns the size of the backing array in bytes.
    pub fn array_size(&self) -> (r: usize)
        requires
            self.first_addr <= self.arr_end,
        ensures
            r == self.arr_end - self.first_addr,
    {
        (self.arr_end - self.first_addr) as usize
    }

    /// Returns the size of the vector in bytes.
    pub fn byte_size(&self) -> (r: usize)
        requires
            self.first_addr <= self.last_addr,
        ensures
            r == self.last_addr - self.first_addr,
    {
        (self.last_addr - self.first_addr) as usize
    }

    /// Returns the size of the vector in elements.
    pub fn len(&self) -> (r: usize)
        requires
            self.first_addr <= self.last_addr,
            Self::element_size() > 0,
        ensures
            r == (self.last_addr - self.first_addr) as nat / Self::element_size(),
    {
        self.byte_size() / T::byte_size()
    }

    /// Reads the elements from the memory the vector points to.
    ///
    /// Fails if the read fails.
    pub fn to_vec<U: Reader>(&self, reader: &mut U) -> (r: Result<Vec<T>, VectorError>)
        requires
            self.first_addr <= self.last_addr,
            Self::element_size() > 0,
        ensures
            r matches Ok(v) ==> exists|bytes: Seq<u8>|
                bytes.len() == self.last_addr - self.first_addr && v@ == decode_elements::<T>(
                    bytes,
                    (self.last_addr - self.first_addr) as nat / Self::element_size(),
                ),
            r matches Err(e) ==> e is Io,
            crate::cpp_std::one_more_read(old(reader).read_log(), final(reader).read_log()),
            final(reader).read_log().last().addr == self.first_addr,
            final(reader).read_log().last().size == self.last_addr - self.first_addr,
            match final(reader).read_log().last().answer {
                Err(er) => r == Err::<Vec<T>, VectorError>(VectorError::Io(er)),
                Ok((_, b)) => r matches Ok(v) && v@ == decode_elements::<T>(
                    b,
                    (self.last_addr - self.first_addr) as nat / Self::element_size(),
                ),
            },
    {
        let size = self.byte_size();
        let mut element_buf = fill_bytes(0, size);
        let read = reader.read_to_buffer(self.first_addr as usize, element_buf.as_mut_slice());
        proof {
            assert(reader.read_log().subrange(0, old(reader).read_log().len() as int) =~= old(reader).read_log());
        }
        self.elements_from_read(read, element_buf.as_slice())
    }

    /// The elements that a read of the vector's bytes into `bytes` gives: the read's
    /// error, or the elements decoded from the bytes.
    pub fn elements_from_read(&self, read: Result<usize, MemError>, bytes: &[u8]) -> (r: Result<
        Vec<T>,
        VectorError,
    >)
        requires
            self.first_addr <= self.last_addr,
            Self::element_size() > 0,
            bytes@.len() == self.last_addr - self.first_addr,
        ensures
            read matches Err(e) ==> r == Err::<Vec<T>, VectorError>(VectorError::Io(e)),
            read is Ok ==> (r matches Ok(v) && v@ == decode_elements::<T>(
                bytes@,
                (self.last_addr - self.first_addr) as nat / Self::element_size(),
            )),
    {
        match read {
            Err(e) => {
                return Err(VectorError::Io(e));
            },
            Ok(_) => {},
        }
        let size = self.byte_size();
        let es = T::byte_size();
        let n = self.len();
        let mut out: Vec<T> = Vec::with_capacity(n);
        let mut i: usize = 0;
        while i < n
            invariant
                es == T::layout_size(),
                es > 0,
                n == size as nat / es as nat,
                bytes@.len() == size,
                i <= n,
                out@ == decode_elements::<T>(bytes@, i as nat),
            decreases n - i,
        {
            proof {
                vstd::arithmetic::div_mod::lemma_fundamental_div_mod(size as int, es as int);
                vstd::arithmetic::mul::lemma_mul_inequality(i as int + 1, n as int, es as int);
                vstd::arithmetic::mul::lemma_mul_is_distributive_add_other_way(es as int, i as int, 1);
            }
            let lo = i * es;
            let hi = lo + es;
            let chunk = bytes.split_at(hi).0.split_at(lo).1;
            assert(chunk@ =~= bytes@.subrange(i * es, (i + 1) * es));
            out.push(T::decode(chunk));
            assert(out@ =~= decode_elements::<T>(bytes@, i as nat + 1));
            i = i + 1;
        }
        Ok(out)
    }
}

impl<T: Verifiable + Copy> Verifiable for CppVector<T> {
    type Error = VectorError;

    open spec fn layout_size() -> nat {
        12
    }

    open spec fn spec_decode(bytes: Seq<u8>) -> CppVector<T> {
        CppVector {
            first_addr: le_u32_at(bytes, 0),
            last_addr: le_u32_at(bytes, 4),
            arr_end: le_u32_at(bytes, 8),
            phantom: core::marker::PhantomData,
        }
    }

    /// The first address is below the last, and they are a whole number of elements
    /// apart.
    open spec fn spec_verify(&self) -> Result<(), VectorError> {
        vector_check(self.first_addr, self.last_addr, T::layout_size() as u32)
    }

    fn byte_size() -> (r: usize) {
        12
    }

    fn decode(bytes: &[u8]) -> (r: CppVector<T>) {
        CppVector {
            first_addr: read_u32_le(bytes, 0),
            last_addr: read_u32_le(bytes, 4),
            arr_end: read_u32_le(bytes, 8),
            phantom: core::marker::PhantomData,
        }
    }

    fn verify_shallow(&self) -> (r: Result<(), VectorError>) {
        if self.first_addr >= self.last_addr {
            Err(VectorError::InvalidRange { first_addr: self.first_addr, last_addr: self.last_addr })
        } else {
            let diff: u32 = self.last_addr - self.first_addr;
            let element_size: u32 = T::byte_size() as u32;
            if element_size == 0 || diff % element_size != 0 {
                Err(VectorError::Misaligned { diff, element_size })
            } else {
                Ok(())
            }
        }
    }
}

} // verus!
