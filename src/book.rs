//! Opening book: exact scores of early positions, read from a binary image.
//!
//! The image starts with six bytes: board width, board height, book depth,
//! key size in bytes, value size in bytes, and the log2 of the table size.
//! `n = table_size(2^log2)` little-endian 16-bit keys follow, then `n`
//! one-byte values. A value holds a score plus 19.
use vstd::prelude::*;
use crate::board::symmetric_code;
use crate::position::Position;
use crate::table::{MRUTable, lemma_table_size_at_least, slot_count, table_size};

verus! {

/// Largest number of stones whose board code fits in 64 bits.
pub const KEY3_MAX_MOVES: usize = 33;

#[derive(Clone, Copy, Debug, PartialEq, Eq)]
pub enum BookFormatError {
    /// Fewer than six bytes.
    ShortHeader,
    /// The board is not seven columns of six rows.
    Dimensions,
    /// Keys are not two bytes or values not one byte.
    EntrySizes,
    /// The image does not hold exactly the keys and values announced.
    Length,
}

/// Slots of a book whose header holds `log_size` (below 63; a table of
/// `2^63` slots or more cannot fit in memory).
pub open spec fn book_slots(log_size: u8) -> int {
    table_size((1u64 << log_size as u64) as int)
}

/// Whether `data` is a well-formed book image, and if not, why.
pub open spec fn book_status(data: Seq<u8>) -> Result<(), BookFormatError> {
    if data.len() < 6 {
        Err(BookFormatError::ShortHeader)
    } else if data[0] != 7 || data[1] != 6 {
        Err(BookFormatError::Dimensions)
    } else if data[3] != 2 || data[4] != 1 {
        Err(BookFormatError::EntrySizes)
    } else if data[5] >= 63 || data.len() != 6 + 3 * book_slots(data[5]) {
        Err(BookFormatError::Length)
    } else {
        Ok(())
    }
}

/// Key of slot `i` in a book image of `n` slots.
pub open spec fn book_key(data: Seq<u8>, i: int) -> u32 {
    (data[6 + 2 * i] as int + 256 * data[6 + 2 * i + 1] as int) as u32
}

/// Scores of positions lie from -21 to 21.
pub open spec fn score_in_range(s: int) -> bool {
    -21 <= s <= 21
}

/// Score held by a book value: the unsigned byte less 19.
pub open spec fn book_score(v: u8) -> int {
    v as int - 19
}

pub struct OpeningBook {
    table: MRUTable,
    depth: usize,
}

impl OpeningBook {
    pub closed spec fn wf(self) -> bool {
        self.table.wf()
    }

    /// Positions of more stones than this are not in the book.
    pub closed spec fn depth(self) -> nat {
        self.depth as nat
    }

    pub closed spec fn table(self) -> MRUTable {
        self.table
    }

    /// A book that holds no position.
    pub fn empty() -> (r: OpeningBook)
        ensures
            r.wf(),
            forall|k: u64| #[trigger] r.table().lookup(k) is None,
    {
        proof {
            assert((1u64 << 1u64) == 2) by (bit_vector);
            assert(usize::MAX >= 0xffff_ffff);
        }
        let r = OpeningBook { table: MRUTable::new(1), depth: 0 };
        proof {
            assert forall|k: u64| #[trigger] r.table().lookup(k) is None by {
                assert(r.table.slots()[r.table.slot_of(k)] is None);
            }
        }
        r
    }

    /// Reads a book image.
    pub fn from_bytes(data: &[u8]) -> (r: Result<OpeningBook, BookFormatError>)
        ensures
            r matches Err(e) ==> book_status(data@) == Err::<(), BookFormatError>(e),
            r matches Ok(book) ==> book_status(data@) is Ok && book.wf() && book.depth() == data@[2]
                && book.table().narrow_keys()
                && book.table().slots() == Seq::new(
                book_slots(data@[5]) as nat,
                |i: int| Some((book_key(data@, i), data@[6 + 2 * book_slots(data@[5]) + i])),
            ),
            book_status(data@) is Ok ==> r is Ok,
    {
        if data.len() < 6 {
            return Err(BookFormatError::ShortHeader);
        }
        if data[0] != 7 || data[1] != 6 {
            return Err(BookFormatError::Dimensions);
        }
        if data[3] != 2 || data[4] != 1 {
            return Err(BookFormatError::EntrySizes);
        }
        let log_size = data[5];
        if log_size >= 63 {
            return Err(BookFormatError::Length);
        }
        let ls = log_size as u64;
        proof {
            assert(ls < 63 ==> 1 <= (1u64 << ls) <= 0x4000_0000_0000_0000) by (bit_vector);
        }
        let n0 = 1u64 << ls;
        if n0 > ((usize::MAX - 1) / 2) as u64 {
            proof {
                // every slot takes three bytes, more than a slice can hold
                lemma_table_size_at_least(n0 as int);
            }
            return Err(BookFormatError::Length);
        }
        let n = slot_count(n0 as usize);
        if (data.len() as u128) != 6 + 3 * (n as u128) {
            return Err(BookFormatError::Length);
        }
        let ghost d = data@;
        let mut keys: Vec<u32> = Vec::new();
        let mut values: Vec<u8> = Vec::new();
        let mut i: usize = 0;
        while i < n
            invariant
                d == data@,
                data@.len() <= usize::MAX,
                n == book_slots(d[5]),
                d.len() == 6 + 3 * n,
                i <= n,
                keys@ == Seq::new(i as nat, |j: int| book_key(d, j)),
                values@ == Seq::new(i as nat, |j: int| d[6 + 2 * n + j]),
            decreases n - i,
        {
            let lo = data[6 + 2 * i] as u32;
            let hi = data[6 + 2 * i + 1] as u32;
            keys.push(lo + 256 * hi);
            values.push(data[6 + 2 * n + i]);
            i = i + 1;
            proof {
                assert(keys@ =~= Seq::new(i as nat, |j: int| book_key(d, j)));
                assert(values@ =~= Seq::new(i as nat, |j: int| d[6 + 2 * n + j]));
            }
        }
        let table = MRUTable::from_entries(keys, values, true);
        Ok(OpeningBook { table, depth: data[2] as usize })
    }

    /// The score of `position` if the book holds it.
    pub fn get(&self, position: &Position) -> (r: Option<i32>)
        requires
            self.wf(),
            position.wf(),
        ensures
            r == (if position.spec_n_moves() > self.depth() || position.spec_n_moves() > 33 {
                None
            } else {
                match self.table().lookup(symmetric_code(position@) as u64) {
                    Some(v) => Some(book_score(v) as i32),
                    None => None,
                }
            }),
    {
        let n = position.n_moves();
        if n > self.depth || n > KEY3_MAX_MOVES {
            None
        } else {
            let key = position.key3();
            proof {
                self.table.lemma_slot_in_range(key);
            }
            match self.table.get(key) {
                Some(v) => Some(v as i32 - 19),
                None => None,
            }
        }
    }
}

} // verus!
