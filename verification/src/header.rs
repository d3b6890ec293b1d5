//! The 100-byte file header.
//!
//! The file opens with the magic string, then big-endian scalars.  The ones
//! this reader uses: the page size at offset 16 (a 16-bit value where 1
//! stands for 65536; it must be a power of two between 512 and 65536), the
//! count of reserved bytes at the end of each page at offset 20, and the
//! file's size in pages at offset 28.

use crate::bytes::be_uint;
use crate::bytes::read_be_uint;
use crate::error::DbError;
use vstd::prelude::*;

verus! {

/// The count of bytes the file header occupies at the start of page 1.
pub const HEADER_SIZE: usize = 100;

/// The decoded file header.
#[derive(Debug)]
pub struct Header {
    /// The page size in bytes; the stored value 1 stands for 65536.
    pub page_size: usize,
    /// Unused bytes at the end of every page.
    pub end_page_reserved_bytes: usize,
    /// The count of pages in the file.
    pub size_in_pages: u32,
}

/// The model of the header.
pub struct HeaderV {
    pub page_size: int,
    pub end_page_reserved_bytes: int,
    pub size_in_pages: int,
}

/// The sixteen magic bytes that open every file of this format.
pub open spec fn spec_magic() -> Seq<u8> {
    seq![
        0x53u8,
        0x51u8,
        0x4cu8,
        0x69u8,
        0x74u8,
        0x65u8,
        0x20u8,
        0x66u8,
        0x6fu8,
        0x72u8,
        0x6du8,
        0x61u8,
        0x74u8,
        0x20u8,
        0x33u8,
        0x00u8,
    ]
}

/// Is the stored page size one of the eight powers of two the format
/// allows?
pub open spec fn spec_page_size_ok(n: int) -> bool {
    n == 512 || n == 1024 || n == 2048 || n == 4096 || n == 8192 || n == 16384 || n == 32768 || n
        == 65536
}

/// The decoded header: magic validated, the page size resolved (1 stands
/// for 65536) and checked, the reserved count and page count read.
pub open spec fn spec_header(s: Seq<u8>) -> Result<HeaderV, DbError> {
    if s.len() < 100 {
        Err(DbError::MalformedHeader)
    } else if s.subrange(0, 16) != spec_magic() {
        Err(DbError::MalformedHeader)
    } else {
        let p0 = be_uint(s, 16, 2);
        let psize: int = if p0 == 1 {
            65536
        } else {
            p0
        };
        if !spec_page_size_ok(psize) {
            Err(DbError::MalformedHeader)
        } else {
            Ok(
                HeaderV {
                    page_size: psize,
                    end_page_reserved_bytes: s[20] as int,
                    size_in_pages: be_uint(s, 28, 4),
                },
            )
        }
    }
}

impl Header {
    /// Decode the file header from the first 100 bytes of the file.
    pub fn parse(input: &[u8]) -> (r: Result<Header, DbError>)
        ensures
            match r {
                Ok(h) => spec_header(input@) matches Ok(hv) && h.page_size == hv.page_size
                    && h.end_page_reserved_bytes == hv.end_page_reserved_bytes && h.size_in_pages
                    == hv.size_in_pages && 512 <= h.page_size <= 65536
                    && h.end_page_reserved_bytes < h.page_size,
                Err(e) => spec_header(input@) matches Err(e2) && e == e2,
            },
    {
        let n0 = input.len();
        if n0 < 100 {
            return Err(DbError::MalformedHeader);
        }
        let magic: [u8; 16] = [
            0x53,
            0x51,
            0x4c,
            0x69,
            0x74,
            0x65,
            0x20,
            0x66,
            0x6f,
            0x72,
            0x6d,
            0x61,
            0x74,
            0x20,
            0x33,
            0x00,
        ];
        let mut i: usize = 0;
        while i < 16
            invariant
                i <= 16,
                n0 == input@.len(),
                n0 >= 100,
                magic@ == spec_magic(),
                forall|j: int| 0 <= j < i ==> input@[j] == spec_magic()[j],
            decreases 16 - i,
        {
            if input[i] != magic[i] {
                proof {
                    assert(input@.subrange(0, 16)[i as int] != spec_magic()[i as int]);
                }
                return Err(DbError::MalformedHeader);
            }
            i = i + 1;
        }
        proof {
            assert(input@.subrange(0, 16) =~= spec_magic());
        }
        let p0 = read_be_uint(input, 16, 2);
        let psize: usize = if p0 == 1 {
            65536
        } else {
            p0 as usize
        };
        proof {
            crate::bytes::lemma_be_uint_bound(input@, 16, 2);
            vstd::arithmetic::power2::lemma2_to64();
        }
        let ok = psize == 512 || psize == 1024 || psize == 2048 || psize == 4096 || psize == 8192
            || psize == 16384 || psize == 32768 || psize == 65536;
        if !ok {
            return Err(DbError::MalformedHeader);
        }
        let reserved = input[20] as usize;
        let pages = read_be_uint(input, 28, 4) as u32;
        proof {
            crate::bytes::lemma_be_uint_bound(input@, 28, 4);
            vstd::arithmetic::power2::lemma2_to64();
        }
        Ok(Header { page_size: psize, end_page_reserved_bytes: reserved, size_in_pages: pages })
    }

    /// The count of usable bytes in each page: the page size less the
    /// reserved tail.
    pub fn usable_page_size(&self) -> (r: usize)
        requires
            self.end_page_reserved_bytes <= self.page_size,
        ensures
            r == self.page_size - self.end_page_reserved_bytes,
    {
        self.page_size - self.end_page_reserved_bytes
    }
}

} // verus!
