//! The sstable files.
//!
//! An sstable is the number of its records, in eight bytes, and then the
//! records, compressed with zstd.
use crate::config::Config;
use crate::ordered_map::OrderedMap;
use crate::outside::{compress, decompress, zstd_compressed, zstd_decompressed};
use crate::record::{
    bytes_of_records, fields_of, intact, law_cut_records_are_a_prefix,
    law_records_are_written_one_after_the_other, law_records_read_back,
    law_records_stand_one_after_the_other, lemma_bytes_of_records_len, lemma_intact_len,
    push_record, read_records, record_at, record_bytes, record_len, records_of,
};
use vstd::prelude::*;

verus! {

/// The number of bytes of an sstable before its first record.
pub const COUNT_LEN: usize = 8;

/// The bytes of a number, least significant first.
pub open spec fn le64(x: u64) -> Seq<u8> {
    seq![
        x as u8,
        (x >> 8) as u8,
        (x >> 16) as u8,
        (x >> 24) as u8,
        (x >> 32) as u8,
        (x >> 40) as u8,
        (x >> 48) as u8,
        (x >> 56) as u8,
    ]
}

/// The number with the given bytes, least significant first.
pub open spec fn from_le64(s: Seq<u8>) -> u64 {
    (s[0] as u64) | ((s[1] as u64) << 8) | ((s[2] as u64) << 16) | ((s[3] as u64) << 24) | ((
    s[4] as u64) << 32) | ((s[5] as u64) << 40) | ((s[6] as u64) << 48) | ((s[7] as u64) << 56)
}

/// A number is read back from its bytes.
pub proof fn lemma_le64(x: u64)
    ensures
        from_le64(le64(x)) == x,
{
    assert((x as u8 as u64) | (((x >> 8) as u8 as u64) << 8) | (((x >> 16) as u8 as u64) << 16) | (((
    x >> 24) as u8 as u64) << 24) | (((x >> 32) as u8 as u64) << 32) | (((x >> 40) as u8 as u64)
        << 40) | (((x >> 48) as u8 as u64) << 48) | (((x >> 56) as u8 as u64) << 56) == x)
        by (bit_vector);
}

/// The contents of an sstable before compression.
pub open spec fn sstable_bytes<const K: usize, const V: usize>(
    entries: Seq<([u8; K], Option<[u8; V]>)>,
) -> Seq<u8> {
    le64(entries.len() as u64) + bytes_of_records(entries)
}

/// The number of bytes of an sstable of `n` records, before compression.
pub open spec fn sstable_len<const K: usize, const V: usize>(n: nat) -> nat {
    COUNT_LEN as nat + n * record_len::<K, V>()
}

/// Why the contents of an sstable could not be read or made.
#[derive(Debug)]
pub enum Error {
    /// The sstable ends before the number of its records.
    Truncated,
    /// The compression stream failed.
    Zstd(std::io::Error),
    /// The size of the database does not fit in 64 bits.
    TooLarge,
}

/// What is read from an sstable.
pub struct Sstable<const K: usize, const V: usize> {
    /// The records up to the first that is not intact or not whole.
    pub entries: Vec<([u8; K], Option<[u8; V]>)>,
    /// The number of records that the sstable was written with.
    pub expected_len: u64,
    /// The number of bytes that the records read take, with their number and
    /// before compression.
    pub size: u64,
    /// Whether the reading ended at a whole record that is not intact.
    pub torn: bool,
}

impl<const K: usize, const V: usize> Sstable<K, V> {
    /// This is what the uncompressed contents `bytes` hold.
    pub open spec fn is_read_from(self, bytes: Seq<u8>) -> bool {
        &&& bytes.len() >= COUNT_LEN
        &&& self.entries@ == records_of::<K, V>(bytes.skip(COUNT_LEN as int))
        &&& self.expected_len == from_le64(bytes.take(COUNT_LEN as int))
        &&& self.size == sstable_len::<K, V>(self.entries@.len())
        &&& self.torn <==> COUNT_LEN + (self.entries@.len() + 1) * record_len::<K, V>()
            <= bytes.len()
    }
}

/// The contents of an sstable before compression.
pub fn encode_sstable<const K: usize, const V: usize>(
    items: &OrderedMap<K, Option<[u8; V]>>,
) -> (r: Vec<u8>)
    requires
        items.wf(),
    ensures
        r@ == sstable_bytes(items.spec_entries()),
{
    let entries = items.entries();
    let n: u64 = entries.len() as u64;
    let mut r: Vec<u8> = Vec::new();
    r.push(n as u8);
    r.push((n >> 8) as u8);
    r.push((n >> 16) as u8);
    r.push((n >> 24) as u8);
    r.push((n >> 32) as u8);
    r.push((n >> 40) as u8);
    r.push((n >> 48) as u8);
    r.push((n >> 56) as u8);
    assert(r@ =~= le64(n));
    let mut i: usize = 0;
    assert(r@ =~= le64(n) + bytes_of_records(entries@.take(0)));
    while i < entries.len()
        invariant
            i <= entries.len(),
            r@ == le64(n) + bytes_of_records(entries@.take(i as int)),
        decreases entries.len() - i,
    {
        let ghost before = r@;
        push_record(&mut r, &entries[i].0, &entries[i].1);
        proof {
            let next = entries@.take(i + 1);
            assert(next.drop_last() =~= entries@.take(i as int));
            assert(r@ =~= le64(n) + bytes_of_records(next));
        }
        i = i + 1;
    }
    assert(entries@.take(i as int) =~= entries@);
    r
}

/// The file contents of an sstable that holds `items`.
pub fn write_sstable<const K: usize, const V: usize>(
    items: &OrderedMap<K, Option<[u8; V]>>,
    config: &Config,
) -> (r: Result<Vec<u8>, Error>)
    requires
        items.wf(),
    ensures
        match r {
            Ok(file) => {
                &&& file@ == zstd_compressed(
                    sstable_bytes(items.spec_entries()),
                    config.zstd_sstable_compression_level as i32,
                )
                &&& zstd_decompressed(file@) == sstable_bytes(items.spec_entries())
            },
            Err(e) => e is Zstd,
        },
{
    let bytes = encode_sstable(items);
    match compress(bytes.as_slice(), config.zstd_sstable_compression_level as i32) {
        Ok(file) => Ok(file),
        Err(e) => Err(Error::Zstd(e)),
    }
}

/// Reads the uncompressed contents of an sstable.
pub fn decode_sstable<const K: usize, const V: usize>(bytes: &[u8]) -> (r: Result<
    Sstable<K, V>,
    Error,
>)
    ensures
        match r {
            Ok(table) => table.is_read_from(bytes@),
            Err(e) => e is Truncated && bytes@.len() < COUNT_LEN,
        },
{
    if bytes.len() < COUNT_LEN {
        return Err(Error::Truncated);
    }
    let expected_len: u64 = (bytes[0] as u64) | ((bytes[1] as u64) << 8) | ((bytes[2] as u64) << 16)
        | ((bytes[3] as u64) << 24) | ((bytes[4] as u64) << 32) | ((bytes[5] as u64) << 40) | ((
    bytes[6] as u64) << 48) | ((bytes[7] as u64) << 56);
    let scan = read_records::<K, V>(bytes, COUNT_LEN);
    proof {
        let m = scan.entries@.len();
        let n = record_len::<K, V>();
        assert((m + 1) * n == m * n + n) by (nonlinear_arith);
    }
    let size: u64 = (COUNT_LEN + scan.valid_len) as u64;
    Ok(Sstable { entries: scan.entries, expected_len, size, torn: scan.torn })
}

/// Reads the file contents of an sstable.
pub fn read_sstable<const K: usize, const V: usize>(file: &[u8]) -> (r: Result<
    Sstable<K, V>,
    Error,
>)
    ensures
        match r {
            Ok(table) => table.is_read_from(zstd_decompressed(file@)),
            Err(Error::Truncated) => zstd_decompressed(file@).len() < COUNT_LEN,
            Err(Error::Zstd(_)) => true,
            Err(Error::TooLarge) => false,
        },
{
    match decompress(file) {
        Ok(bytes) => decode_sstable(bytes.as_slice()),
        Err(e) => Err(Error::Zstd(e)),
    }
}

/// The records of an sstable are read back as they were written, and the
/// number of records tells that none is missing.
pub proof fn law_sstable_read_back<const K: usize, const V: usize>(
    entries: Seq<([u8; K], Option<[u8; V]>)>,
    file: Seq<u8>,
)
    requires
        entries.len() <= u64::MAX,
        zstd_decompressed(file) == sstable_bytes(entries),
    ensures
        zstd_decompressed(file).len() >= COUNT_LEN,
        records_of::<K, V>(zstd_decompressed(file).skip(COUNT_LEN as int)) == entries,
        from_le64(zstd_decompressed(file).take(COUNT_LEN as int)) == entries.len(),
        forall|table: Sstable<K, V>|
            #![trigger table.is_read_from(zstd_decompressed(file))]
            table.is_read_from(zstd_decompressed(file)) ==> table.entries@ == entries
                && table.expected_len == entries.len() && !table.torn,
{
    let bytes = sstable_bytes(entries);
    let none = Seq::<u8>::empty();
    lemma_le64(entries.len() as u64);
    assert(bytes.take(COUNT_LEN as int) =~= le64(entries.len() as u64));
    assert(bytes.skip(COUNT_LEN as int) =~= bytes_of_records(entries) + none);
    law_records_read_back(entries, none);
    assert(entries + records_of::<K, V>(none) =~= entries);
    lemma_bytes_of_records_len(entries);
    let m = entries.len();
    let n = record_len::<K, V>();
    assert((m + 1) * n == m * n + n) by (nonlinear_arith);
}

/// The contents of an sstable have the size that it counts with.
pub proof fn law_sstable_size<const K: usize, const V: usize>(
    entries: Seq<([u8; K], Option<[u8; V]>)>,
)
    ensures
        sstable_bytes(entries).len() == sstable_len::<K, V>(entries.len()),
{
    lemma_bytes_of_records_len(entries);
}

/// Of an sstable that was not written to its end, the first records are read,
/// and the number of records tells that some are missing.
pub proof fn law_cut_sstable_is_told<const K: usize, const V: usize>(
    entries: Seq<([u8; K], Option<[u8; V]>)>,
    len: nat,
)
    requires
        entries.len() <= u64::MAX,
        COUNT_LEN <= len < sstable_bytes(entries).len(),
    ensures
        ({
            let cut = sstable_bytes(entries).take(len as int);
            let n = record_len::<K, V>() as int;
            let read = records_of::<K, V>(cut.skip(COUNT_LEN as int));
            &&& read == entries.take((len - COUNT_LEN) / n)
            &&& read.len() < entries.len()
            &&& from_le64(cut.take(COUNT_LEN as int)) == entries.len()
        }),
{
    let bytes = bytes_of_records(entries);
    let none = Seq::<u8>::empty();
    let n = record_len::<K, V>() as int;
    let cut = sstable_bytes(entries).take(len as int);
    let rest = (len - COUNT_LEN) as nat;
    lemma_bytes_of_records_len(entries);
    lemma_le64(entries.len() as u64);
    law_records_read_back(entries, none);
    assert(bytes + none =~= bytes);
    assert(entries + records_of::<K, V>(none) =~= entries);
    law_cut_records_are_a_prefix::<K, V>(bytes, rest);
    assert(cut.take(COUNT_LEN as int) =~= le64(entries.len() as u64));
    assert(cut.skip(COUNT_LEN as int) =~= bytes.take(rest as int));
    let count = entries.len();
    let whole = rest as int / n;
    assert(0 <= whole < count) by (nonlinear_arith)
        requires
            whole == rest as int / n,
            n > 0,
            0 <= rest < count * n,
    ;
}

/// Each byte of a number counts 256 times as much as the one before.
pub proof fn lemma_from_le64(s: Seq<u8>)
    ensures
        from_le64(s) == s[0] + 0x100 * s[1] + 0x1_0000 * s[2] + 0x100_0000 * s[3] + 0x1_0000_0000
            * s[4] + 0x100_0000_0000 * s[5] + 0x1_0000_0000_0000 * s[6] + 0x100_0000_0000_0000
            * s[7],
{
    let (a, b, c, d) = (s[0], s[1], s[2], s[3]);
    let (e, f, g, h) = (s[4], s[5], s[6], s[7]);
    assert((a as u64) | ((b as u64) << 8) | ((c as u64) << 16) | ((d as u64) << 24) | ((e as u64)
        << 32) | ((f as u64) << 40) | ((g as u64) << 48) | ((h as u64) << 56) == a + 0x100 * b
        + 0x1_0000 * c + 0x100_0000 * d + 0x1_0000_0000 * e + 0x100_0000_0000 * f
        + 0x1_0000_0000_0000 * g + 0x100_0000_0000_0000 * h) by (bit_vector);
}

/// The contents of an sstable in their places: the number of its records in
/// eight bytes, the lowest first, and then the records, one after the other.
pub proof fn law_sstable_layout<const K: usize, const V: usize>(
    entries: Seq<([u8; K], Option<[u8; V]>)>,
)
    requires
        entries.len() <= u64::MAX,
    ensures
        ({
            let bytes = sstable_bytes(entries);
            &&& bytes.len() == 8 + entries.len() * (5 + K + V)
            &&& entries.len() == bytes[0] + 0x100 * bytes[1] + 0x1_0000 * bytes[2] + 0x100_0000
                * bytes[3] + 0x1_0000_0000 * bytes[4] + 0x100_0000_0000 * bytes[5]
                + 0x1_0000_0000_0000 * bytes[6] + 0x100_0000_0000_0000 * bytes[7]
            &&& forall|i: int|
                0 <= i < entries.len() ==> #[trigger] record_at::<K, V>(bytes.skip(8), i)
                    == record_bytes(entries[i].0, entries[i].1)
        }),
{
    let bytes = sstable_bytes(entries);
    let count = le64(entries.len() as u64);
    lemma_bytes_of_records_len(entries);
    lemma_le64(entries.len() as u64);
    lemma_from_le64(count);
    assert(bytes.skip(8) =~= bytes_of_records(entries));
    assert forall|i: int| 0 <= i < entries.len() implies #[trigger] record_at::<K, V>(
        bytes.skip(8),
        i,
    ) == record_bytes(entries[i].0, entries[i].1) by {
        law_records_are_written_one_after_the_other(entries, i);
    }
}

/// What is read from an sstable: the number that it was written with, and the
/// intact records from the front up to one that is not intact or not whole.
pub proof fn law_what_is_read_from_an_sstable<const K: usize, const V: usize>(
    table: Sstable<K, V>,
    bytes: Seq<u8>,
)
    requires
        table.is_read_from(bytes),
    ensures
        bytes.len() >= 8,
        table.expected_len == bytes[0] + 0x100 * bytes[1] + 0x1_0000 * bytes[2] + 0x100_0000
            * bytes[3] + 0x1_0000_0000 * bytes[4] + 0x100_0000_0000 * bytes[5] + 0x1_0000_0000_0000
            * bytes[6] + 0x100_0000_0000_0000 * bytes[7],
        table.size == 8 + table.entries@.len() * (5 + K + V),
        table.size <= bytes.len(),
        forall|i: int|
            0 <= i < table.entries@.len() ==> intact::<K, V>(
                #[trigger] record_at::<K, V>(bytes.skip(8), i),
            ) && fields_of::<K, V>(record_at::<K, V>(bytes.skip(8), i)) == table.entries@[i],
        table.torn <==> table.size + 5 + K + V <= bytes.len(),
        table.torn ==> !intact::<K, V>(
            record_at::<K, V>(bytes.skip(8), table.entries@.len() as int),
        ),
{
    let m = table.entries@.len();
    let n = record_len::<K, V>();
    assert((m + 1) * n == m * n + n) by (nonlinear_arith);
    lemma_from_le64(bytes.take(8));
    lemma_intact_len::<K, V>(bytes.skip(8));
    law_records_stand_one_after_the_other::<K, V>(bytes.skip(8));
}

} // verus!
