//! The records of the log and of the sstables.
//!
//! A record holds one key with its value, or with the mark that the key was
//! removed: a checksum of four bytes, a tag byte, the key, and the value or as
//! many zero bytes.
use crate::checksum::law_crc32_tells_one_byte;
use crate::outside::{checksum, crc32};
use vstd::prelude::*;

verus! {

broadcast use vstd::array::group_array_axioms;

/// The number of bytes of a record before its key.
pub const HEADER_LEN: usize = 5;

/// The bytes of a number, least significant first.
pub open spec fn le32(x: u32) -> Seq<u8> {
    seq![x as u8, (x >> 8) as u8, (x >> 16) as u8, (x >> 24) as u8]
}

/// The number with the given bytes, least significant first.
pub open spec fn from_le32(s: Seq<u8>) -> u32 {
    (s[0] as u32) | ((s[1] as u32) << 8) | ((s[2] as u32) << 16) | ((s[3] as u32) << 24)
}

/// A number is read back from its bytes.
pub proof fn lemma_le32(x: u32)
    ensures
        from_le32(le32(x)) == x,
{
    assert((x as u8 as u32) | (((x >> 8) as u8 as u32) << 8) | (((x >> 16) as u8 as u32) << 16) | (((
    x >> 24) as u8 as u32) << 24) == x) by (bit_vector);
}

/// The array of the given bytes.
pub open spec fn array_of<const N: usize>(bytes: Seq<u8>) -> [u8; N] {
    choose|a: [u8; N]| #[trigger] a@ == bytes
}

proof fn lemma_some_array<const N: usize>(bytes: Seq<u8>, n: nat)
    requires
        bytes.len() == N,
        n <= N,
    ensures
        exists|a: [u8; N]| #![trigger a@] a@.take(n as int) == bytes.take(n as int),
    decreases n,
{
    if n == 0 {
        let a = vstd::array::spec_array_fill_for_copy_type::<u8, N>(0);
        assert(a@.take(0) =~= bytes.take(0));
    } else {
        lemma_some_array::<N>(bytes, (n - 1) as nat);
        let a = choose|a: [u8; N]| #![trigger a@] a@.take(n - 1) == bytes.take(n - 1);
        let b = vstd::array::spec_array_update(a, n - 1, bytes[n - 1]);
        assert forall|i: int| 0 <= i < n implies b@[i] == bytes[i] by {
            if i < n - 1 {
                assert(a@.take(n - 1)[i] == bytes.take(n - 1)[i]);
            }
        }
        assert(b@.take(n as int) =~= bytes.take(n as int));
    }
}

/// The array of some bytes has these bytes.
pub proof fn lemma_array_of<const N: usize>(bytes: Seq<u8>)
    requires
        bytes.len() == N,
    ensures
        array_of::<N>(bytes)@ == bytes,
{
    lemma_some_array::<N>(bytes, N as nat);
    let a = choose|a: [u8; N]| #![trigger a@] a@.take(N as int) == bytes.take(N as int);
    assert(a@.take(N as int) =~= a@);
    assert(bytes.take(N as int) =~= bytes);
    assert(a@ == bytes);
}

/// An array is determined by its bytes.
pub proof fn lemma_array_of_view<const N: usize>(a: [u8; N])
    ensures
        array_of::<N>(a@) == a,
{
    lemma_array_of::<N>(a@);
    let b = array_of::<N>(a@);
    assert forall|i: int| 0 <= i < N implies a[i] == b[i] by {
        assert(a@[i] == b@[i]);
    }
    assert(b =~= a);
}

/// The bytes that stand for a value in a record.
pub open spec fn value_bytes<const V: usize>(value: Option<[u8; V]>) -> Seq<u8> {
    match value {
        Some(v) => v@,
        None => Seq::new(V as nat, |i: int| 0u8),
    }
}

/// A record without its checksum.
pub open spec fn record_body<const K: usize, const V: usize>(
    key: [u8; K],
    value: Option<[u8; V]>,
) -> Seq<u8> {
    seq![if value is Some { 1u8 } else { 0u8 }] + key@ + value_bytes(value)
}

/// The checksum of a record.
pub open spec fn record_hash<const K: usize, const V: usize>(
    key: [u8; K],
    value: Option<[u8; V]>,
) -> u32 {
    crc32(record_body(key, value)) ^ 0xFF
}

/// The bytes of a record.
pub open spec fn record_bytes<const K: usize, const V: usize>(
    key: [u8; K],
    value: Option<[u8; V]>,
) -> Seq<u8> {
    le32(record_hash(key, value)) + record_body(key, value)
}

/// The number of bytes of a record.
pub open spec fn record_len<const K: usize, const V: usize>() -> nat {
    (HEADER_LEN + K + V) as nat
}

/// The key and value that the bytes of a record hold, whatever its checksum.
pub open spec fn fields_of<const K: usize, const V: usize>(bytes: Seq<u8>) -> (
    [u8; K],
    Option<[u8; V]>,
) {
    (
        array_of::<K>(bytes.subrange(HEADER_LEN as int, HEADER_LEN + K)),
        if bytes[4] == 1 {
            Some(array_of::<V>(bytes.subrange(HEADER_LEN + K, HEADER_LEN + K + V)))
        } else {
            None
        },
    )
}

/// The bytes of a record hold a known tag, and the checksum of their fields.
pub open spec fn intact<const K: usize, const V: usize>(bytes: Seq<u8>) -> bool {
    let fields = fields_of::<K, V>(bytes);
    &&& bytes[4] <= 1
    &&& from_le32(bytes.subrange(0, 4)) == record_hash(fields.0, fields.1)
}

/// The records at the front of `bytes`, up to the first that is not intact or
/// not whole.
pub open spec fn records_of<const K: usize, const V: usize>(bytes: Seq<u8>) -> Seq<
    ([u8; K], Option<[u8; V]>),
>
    decreases bytes.len(),
{
    let n = record_len::<K, V>() as int;
    if bytes.len() < n || !intact::<K, V>(bytes.take(n)) {
        Seq::empty()
    } else {
        seq![fields_of::<K, V>(bytes.take(n))] + records_of::<K, V>(bytes.skip(n))
    }
}

/// The number of bytes of the records that are read from `bytes`.
pub open spec fn intact_len<const K: usize, const V: usize>(bytes: Seq<u8>) -> nat {
    records_of::<K, V>(bytes).len() * record_len::<K, V>()
}

/// The bytes of a sequence of records.
pub open spec fn bytes_of_records<const K: usize, const V: usize>(
    entries: Seq<([u8; K], Option<[u8; V]>)>,
) -> Seq<u8>
    decreases entries.len(),
{
    if entries.len() == 0 {
        Seq::empty()
    } else {
        bytes_of_records(entries.drop_last()) + record_bytes(entries.last().0, entries.last().1)
    }
}

/// The body of a record as bytes.
fn body<const K: usize, const V: usize>(key: &[u8; K], value: &Option<[u8; V]>) -> (r: Vec<u8>)
    ensures
        r@ == record_body(*key, *value),
{
    let mut r: Vec<u8> = Vec::new();
    r.push(if value.is_some() { 1u8 } else { 0u8 });
    r.extend_from_slice(key);
    match value {
        Some(v) => {
            r.extend_from_slice(v);
        },
        None => {
            let zeros: [u8; V] = [0u8; V];
            r.extend_from_slice(&zeros);
            assert(zeros@ =~= value_bytes(*value));
        },
    }
    assert(r@ =~= record_body(*key, *value));
    r
}

/// The checksum of a record.
pub fn hash<const K: usize, const V: usize>(key: &[u8; K], value: &Option<[u8; V]>) -> (r: u32)
    ensures
        r == record_hash(*key, *value),
        *value matches Some(v) ==> r == crc32(seq![1u8] + key@ + v@) ^ 0xFF,
        *value is None ==> r == crc32(seq![0u8] + key@ + Seq::new(V as nat, |i: int| 0u8)) ^ 0xFF,
{
    let bytes = body(key, value);
    // the low byte is flipped so that no checksum is zero by accident
    checksum(bytes.as_slice()) ^ 0xFF
}

/// Appends a record to a buffer.
pub fn push_record<const K: usize, const V: usize>(
    out: &mut Vec<u8>,
    key: &[u8; K],
    value: &Option<[u8; V]>,
)
    ensures
        final(out)@ == old(out)@ + record_bytes(*key, *value),
{
    let ghost before = out@;
    let crc: u32 = hash(key, value);
    out.push(crc as u8);
    out.push((crc >> 8) as u8);
    out.push((crc >> 16) as u8);
    out.push((crc >> 24) as u8);
    let mut rest = body(key, value);
    out.append(&mut rest);
    assert(out@ =~= before + record_bytes(*key, *value));
}

/// The array of `N` bytes that starts at position `from`.
fn array_at<const N: usize>(bytes: &[u8], from: usize) -> (r: [u8; N])
    requires
        from + N <= bytes@.len(),
    ensures
        r@ == bytes@.subrange(from as int, from + N),
        r == array_of::<N>(bytes@.subrange(from as int, from + N)),
{
    let len: usize = bytes.len();
    let mut r: [u8; N] = [0u8; N];
    let mut i: usize = 0;
    while i < N
        invariant
            i <= N,
            from + N <= len,
            len == bytes@.len(),
            forall|j: int| 0 <= j < i ==> r@[j] == bytes@[from + j],
        decreases N - i,
    {
        r[i] = bytes[from + i];
        i = i + 1;
    }
    assert(r@ =~= bytes@.subrange(from as int, from + N));
    proof {
        lemma_array_of_view(r);
    }
    r
}

/// What is found when bytes are read as a sequence of records.
pub struct RecordScan<const K: usize, const V: usize> {
    /// The intact records before the first that is not.
    pub entries: Vec<([u8; K], Option<[u8; V]>)>,
    /// The number of bytes that they take.
    pub valid_len: usize,
    /// Whether the reading ended at a whole record that is not intact, rather
    /// than at the end of the bytes.
    pub torn: bool,
}

/// Reads the records of `bytes` from position `from` on.
pub fn read_records<const K: usize, const V: usize>(bytes: &[u8], from: usize) -> (r: RecordScan<
    K,
    V,
>)
    requires
        from <= bytes@.len(),
    ensures
        r.entries@ == records_of::<K, V>(bytes@.skip(from as int)),
        r.valid_len == r.entries@.len() * record_len::<K, V>(),
        from + r.valid_len <= bytes@.len(),
        r.torn <==> from + r.valid_len + record_len::<K, V>() <= bytes@.len(),
{
    let ghost n = record_len::<K, V>();
    let len: usize = bytes.len();
    let mut entries: Vec<([u8; K], Option<[u8; V]>)> = Vec::new();
    let mut pos: usize = from;
    assert(records_of::<K, V>(bytes@.skip(from as int)) =~= entries@ + records_of::<K, V>(
        bytes@.skip(pos as int),
    ));
    while len - pos >= HEADER_LEN && len - pos - HEADER_LEN >= K && len - pos - HEADER_LEN - K >= V
        invariant
            from <= pos <= len,
            len == bytes@.len(),
            n == record_len::<K, V>(),
            pos - from == entries@.len() * n,
            records_of::<K, V>(bytes@.skip(from as int)) == entries@ + records_of::<K, V>(
                bytes@.skip(pos as int),
            ),
        decreases len - pos,
    {
        let ghost rest = bytes@.skip(pos as int);
        let ghost window = rest.take(n as int);
        proof {
            assert(window.subrange(0, 4) =~= seq![window[0], window[1], window[2], window[3]]);
            assert(window.subrange(HEADER_LEN as int, HEADER_LEN + K) =~= bytes@.subrange(
                pos + HEADER_LEN,
                pos + HEADER_LEN + K,
            ));
            assert(window.subrange(HEADER_LEN + K, HEADER_LEN + K + V) =~= bytes@.subrange(
                pos + HEADER_LEN + K,
                pos + HEADER_LEN + K + V,
            ));
        }
        let expected: u32 = (bytes[pos] as u32) | ((bytes[pos + 1] as u32) << 8) | ((bytes[pos
            + 2] as u32) << 16) | ((bytes[pos + 3] as u32) << 24);
        let tag: u8 = bytes[pos + 4];
        let key: [u8; K] = array_at(bytes, pos + HEADER_LEN);
        let value: Option<[u8; V]> = if tag == 1 {
            Some(array_at(bytes, pos + HEADER_LEN + K))
        } else {
            None
        };
        if tag > 1 || expected != hash(&key, &value) {
            assert(!intact::<K, V>(window));
            assert(entries@ + records_of::<K, V>(rest) =~= entries@);
            return RecordScan { entries, valid_len: pos - from, torn: true };
        }
        let ghost before = entries@;
        entries.push((key, value));
        pos = pos + HEADER_LEN + K + V;
        proof {
            assert(fields_of::<K, V>(window) == (key, value));
            assert(rest.skip(n as int) =~= bytes@.skip(pos as int));
            assert(before + records_of::<K, V>(rest) =~= entries@ + records_of::<K, V>(
                bytes@.skip(pos as int),
            ));
            assert((before.len() + 1) * n == before.len() * n + n) by (nonlinear_arith);
        }
    }
    assert(entries@ + records_of::<K, V>(bytes@.skip(pos as int)) =~= entries@);
    RecordScan { entries, valid_len: pos - from, torn: false }
}

/// A record that was written is intact and is read back as it was.
pub proof fn law_record_read_back<const K: usize, const V: usize>(
    key: [u8; K],
    value: Option<[u8; V]>,
)
    ensures
        record_bytes(key, value).len() == record_len::<K, V>(),
        intact::<K, V>(record_bytes(key, value)),
        fields_of::<K, V>(record_bytes(key, value)) == (key, value),
{
    let bytes = record_bytes(key, value);
    let crc = record_hash(key, value);
    lemma_le32(crc);
    assert(bytes.subrange(0, 4) =~= le32(crc));
    assert(bytes.subrange(HEADER_LEN as int, HEADER_LEN + K) =~= key@);
    assert(bytes.subrange(HEADER_LEN + K, HEADER_LEN + K + V) =~= value_bytes(value));
    lemma_array_of_view(key);
    if let Some(v) = value {
        lemma_array_of_view(v);
    }
}

/// Records that were written are read back in order, whatever bytes follow
/// them; reading goes on with these bytes.
pub proof fn law_records_read_back<const K: usize, const V: usize>(
    entries: Seq<([u8; K], Option<[u8; V]>)>,
    tail: Seq<u8>,
)
    ensures
        records_of::<K, V>(bytes_of_records(entries) + tail) == entries + records_of::<K, V>(tail),
    decreases entries.len(),
{
    if entries.len() == 0 {
        assert(bytes_of_records(entries) + tail =~= tail);
        assert(entries + records_of::<K, V>(tail) =~= records_of::<K, V>(tail));
    } else {
        let front = entries.drop_last();
        let (key, value) = entries.last();
        let record = record_bytes(key, value);
        let n = record_len::<K, V>() as int;
        law_records_read_back(front, record + tail);
        law_record_read_back(key, value);
        assert(bytes_of_records(entries) + tail =~= bytes_of_records(front) + (record + tail));
        assert((record + tail).take(n) =~= record);
        assert((record + tail).skip(n) =~= tail);
        assert(front + (seq![(key, value)] + records_of::<K, V>(tail)) =~= entries
            + records_of::<K, V>(tail));
    }
}

/// What follows the records that were written is ignored if it is shorter
/// than a record, or if a record that is not intact comes first: then the
/// entries read back are those written, no more and no fewer.
pub proof fn law_torn_tail_is_dropped<const K: usize, const V: usize>(
    entries: Seq<([u8; K], Option<[u8; V]>)>,
    tail: Seq<u8>,
)
    requires
        tail.len() < record_len::<K, V>() || !intact::<K, V>(
            tail.take(record_len::<K, V>() as int),
        ),
    ensures
        records_of::<K, V>(bytes_of_records(entries) + tail) == entries,
{
    law_records_read_back(entries, tail);
    assert(entries + records_of::<K, V>(tail) =~= entries);
}

/// The number of bytes that records take.
pub proof fn lemma_bytes_of_records_len<const K: usize, const V: usize>(
    entries: Seq<([u8; K], Option<[u8; V]>)>,
)
    ensures
        bytes_of_records(entries).len() == entries.len() * record_len::<K, V>(),
    decreases entries.len(),
{
    if entries.len() > 0 {
        let n = record_len::<K, V>();
        lemma_bytes_of_records_len(entries.drop_last());
        law_record_read_back(entries.last().0, entries.last().1);
        let m = entries.drop_last().len();
        assert((m + 1) * n == m * n + n) by (nonlinear_arith);
    }
}

/// The records read take no more bytes than there are.
pub proof fn lemma_intact_len<const K: usize, const V: usize>(bytes: Seq<u8>)
    ensures
        intact_len::<K, V>(bytes) <= bytes.len(),
        records_of::<K, V>(bytes).len() > 0 ==> intact_len::<K, V>(bytes) == record_len::<K, V>()
            + intact_len::<K, V>(bytes.skip(record_len::<K, V>() as int)),
    decreases bytes.len(),
{
    let n = record_len::<K, V>();
    if bytes.len() >= n && intact::<K, V>(bytes.take(n as int)) {
        let rest = bytes.skip(n as int);
        lemma_intact_len::<K, V>(rest);
        let m = records_of::<K, V>(rest).len();
        assert((1 + m) * n == n + m * n) by (nonlinear_arith);
    } else {
        assert(0 * n == 0) by (nonlinear_arith);
    }
}

/// What is appended to a log of intact records is read after them.
pub proof fn law_appended_bytes_are_read_after<const K: usize, const V: usize>(
    log: Seq<u8>,
    tail: Seq<u8>,
)
    requires
        log.len() == intact_len::<K, V>(log),
    ensures
        records_of::<K, V>(log + tail) == records_of::<K, V>(log) + records_of::<K, V>(tail),
    decreases log.len(),
{
    let n = record_len::<K, V>() as int;
    lemma_intact_len::<K, V>(log);
    if records_of::<K, V>(log).len() == 0 {
        assert(0 * n == 0) by (nonlinear_arith);
        assert(log + tail =~= tail);
        assert(records_of::<K, V>(log) + records_of::<K, V>(tail) =~= records_of::<K, V>(tail));
    } else {
        law_appended_bytes_are_read_after::<K, V>(log.skip(n), tail);
        assert((log + tail).take(n) =~= log.take(n));
        assert((log + tail).skip(n) =~= log.skip(n) + tail);
        assert(records_of::<K, V>(log + tail) =~= records_of::<K, V>(log) + records_of::<K, V>(
            tail,
        ));
    }
}

/// A log that is cut off behind its intact records still has all of them.
pub proof fn law_cut_behind_intact_records<const K: usize, const V: usize>(bytes: Seq<u8>)
    ensures
        intact_len::<K, V>(bytes) <= bytes.len(),
        records_of::<K, V>(bytes.take(intact_len::<K, V>(bytes) as int)) == records_of::<K, V>(
            bytes,
        ),
    decreases bytes.len(),
{
    let n = record_len::<K, V>() as int;
    let len = intact_len::<K, V>(bytes) as int;
    let cut = bytes.take(len);
    lemma_intact_len::<K, V>(bytes);
    if records_of::<K, V>(bytes).len() == 0 {
        assert(0 * n == 0) by (nonlinear_arith);
        assert(records_of::<K, V>(cut) =~= records_of::<K, V>(bytes));
    } else {
        law_cut_behind_intact_records::<K, V>(bytes.skip(n));
        assert(cut.take(n) =~= bytes.take(n));
        assert(cut.skip(n) =~= bytes.skip(n).take(len - n));
    }
}

/// Of records that are cut off at some byte, those that are still whole are
/// read, and no others.
pub proof fn law_cut_records_are_a_prefix<const K: usize, const V: usize>(
    bytes: Seq<u8>,
    len: nat,
)
    requires
        len <= intact_len::<K, V>(bytes),
    ensures
        records_of::<K, V>(bytes.take(len as int)) == records_of::<K, V>(bytes).take(
            len as int / record_len::<K, V>() as int,
        ),
    decreases bytes.len(),
{
    let n = record_len::<K, V>() as int;
    let cut = bytes.take(len as int);
    lemma_intact_len::<K, V>(bytes);
    if len < n {
        assert(len as int / n == 0) by (nonlinear_arith)
            requires
                0 <= len < n,
        ;
        assert(records_of::<K, V>(cut) =~= records_of::<K, V>(bytes).take(0));
    } else {
        if records_of::<K, V>(bytes).len() == 0 {
            assert(0 * n == 0) by (nonlinear_arith);
        }
        law_cut_records_are_a_prefix::<K, V>(bytes.skip(n), (len - n) as nat);
        assert(cut.take(n) =~= bytes.take(n));
        assert(cut.skip(n) =~= bytes.skip(n).take(len - n));
        let m = (len - n) / n;
        let count = records_of::<K, V>(bytes.skip(n)).len();
        assert(len as int / n == m + 1 && 0 <= m <= count) by (nonlinear_arith)
            requires
                m == (len - n) / n,
                n > 0,
                n <= len <= n + count * n,
        ;
        assert(records_of::<K, V>(cut) =~= records_of::<K, V>(bytes).take(m + 1));
    }
}

/// The bytes of a record in their places: the checksum from the lowest byte to
/// the highest, the tag, the key, and the value or zeros.
pub proof fn law_record_layout<const K: usize, const V: usize>(
    key: [u8; K],
    value: Option<[u8; V]>,
)
    ensures
        ({
            let bytes = record_bytes(key, value);
            &&& bytes.len() == 5 + K + V
            &&& record_hash(key, value) == bytes[0] + 0x100 * bytes[1] + 0x1_0000 * bytes[2]
                + 0x100_0000 * bytes[3]
            &&& bytes[4] == if value is Some {
                1u8
            } else {
                0u8
            }
            &&& forall|i: int| 0 <= i < K ==> bytes[5 + i] == #[trigger] key@[i]
            &&& value matches Some(v) ==> forall|i: int| 0 <= i < V ==> bytes[5 + K + i]
                == #[trigger] v@[i]
            &&& value is None ==> forall|i: int| 5 + K <= i < 5 + K + V ==> #[trigger] bytes[i] == 0
        }),
{
    let x = record_hash(key, value);
    assert(x == (x as u8) + 0x100 * ((x >> 8) as u8) + 0x1_0000 * ((x >> 16) as u8) + 0x100_0000 * ((
    x >> 24) as u8)) by (bit_vector);
    let bytes = record_bytes(key, value);
    assert(bytes.len() == 5 + K + V);
    if let Some(v) = value {
        assert forall|i: int| 0 <= i < V implies bytes[5 + K + i] == #[trigger] v@[i] by {}
    }
}

/// Bodies that differ in one byte have different checksums.
proof fn lemma_hashes_differ<const K: usize, const V: usize>(
    key: [u8; K],
    value: Option<[u8; V]>,
    other_key: [u8; K],
    other_value: Option<[u8; V]>,
    i: int,
)
    requires
        0 <= i < 1 + K + V,
        record_body(key, value)[i] != record_body(other_key, other_value)[i],
        forall|j: int|
            0 <= j < 1 + K + V && j != i ==> record_body(key, value)[j] == record_body(
                other_key,
                other_value,
            )[j],
    ensures
        record_hash(key, value) != record_hash(other_key, other_value),
{
    law_crc32_tells_one_byte(
        record_body(key, value),
        record_body(other_key, other_value),
        i,
    );
    let a = crc32(record_body(key, value));
    let b = crc32(record_body(other_key, other_value));
    assert(a ^ 0xFF != b ^ 0xFF) by (bit_vector)
        requires
            a != b,
    ;
}

/// The checksum depends on every byte of the key: keys that differ in one byte
/// have different checksums beside the same value.
pub proof fn law_checksum_covers_the_key<const K: usize, const V: usize>(
    key: [u8; K],
    other: [u8; K],
    value: Option<[u8; V]>,
    i: int,
)
    requires
        0 <= i < K,
        key@[i] != other@[i],
        forall|j: int| 0 <= j < K && j != i ==> key@[j] == other@[j],
    ensures
        record_hash(key, value) != record_hash(other, value),
{
    let a = record_body(key, value);
    let b = record_body(other, value);
    assert forall|j: int| 0 <= j < 1 + K + V && j != 1 + i implies a[j] == b[j] by {
        if 1 <= j < 1 + K {
            assert(a[j] == key@[j - 1] && b[j] == other@[j - 1]);
        }
    }
    assert(a[1 + i] == key@[i] && b[1 + i] == other@[i]);
    lemma_hashes_differ(key, value, other, value, 1 + i);
}

/// The checksum depends on every byte of the value: values that differ in one
/// byte have different checksums beside the same key.
pub proof fn law_checksum_covers_the_value<const K: usize, const V: usize>(
    key: [u8; K],
    value: [u8; V],
    other: [u8; V],
    i: int,
)
    requires
        0 <= i < V,
        value@[i] != other@[i],
        forall|j: int| 0 <= j < V && j != i ==> value@[j] == other@[j],
    ensures
        record_hash(key, Some(value)) != record_hash(key, Some(other)),
{
    let a = record_body(key, Some(value));
    let b = record_body(key, Some(other));
    assert forall|j: int| 0 <= j < 1 + K + V && j != 1 + K + i implies a[j] == b[j] by {
        if 1 + K <= j {
            assert(a[j] == value@[j - 1 - K] && b[j] == other@[j - 1 - K]);
        }
    }
    assert(a[1 + K + i] == value@[i] && b[1 + K + i] == other@[i]);
    lemma_hashes_differ(key, Some(value), key, Some(other), 1 + K + i);
}

/// Numbers with one other byte are other numbers.
proof fn lemma_from_le32_differs(s: Seq<u8>, i: int, b: u8)
    requires
        s.len() == 4,
        0 <= i < 4,
        s[i] != b,
    ensures
        from_le32(s.update(i, b)) != from_le32(s),
{
    let (p, q, r, t) = (s[0], s[1], s[2], s[3]);
    let u = s.update(i, b);
    let (w, x, y, z) = (u[0], u[1], u[2], u[3]);
    assert((p as u32) | ((q as u32) << 8) | ((r as u32) << 16) | ((t as u32) << 24) != (w as u32) | ((
    x as u32) << 8) | ((y as u32) << 16) | ((z as u32) << 24)) by (bit_vector)
        requires
            p != w || q != x || r != y || t != z,
    ;
}

/// A record in which one byte was changed is never taken as intact: neither in
/// its checksum, nor in its key, nor in its value; nor if the tag is none that
/// is known, or if that of a removal was changed.
pub proof fn law_changed_record_is_not_intact<const K: usize, const V: usize>(
    key: [u8; K],
    value: Option<[u8; V]>,
    i: int,
    b: u8,
)
    requires
        0 <= i < 5 + K + V,
        record_bytes(key, value)[i] != b,
        i == 4 ==> value is None || b > 1,
        i >= 5 + K ==> value is Some,
    ensures
        !intact::<K, V>(record_bytes(key, value).update(i, b)),
{
    let bytes = record_bytes(key, value);
    let changed = bytes.update(i, b);
    let head = bytes.subrange(0, 4);
    let (new_key, new_value) = fields_of::<K, V>(changed);
    law_record_read_back(key, value);
    lemma_le32(record_hash(key, value));
    assert(head =~= le32(record_hash(key, value)));
    lemma_array_of::<K>(changed.subrange(5, 5 + K));
    lemma_array_of::<V>(changed.subrange(5 + K, 5 + K + V));
    lemma_array_of_view(key);
    if let Some(v) = value {
        lemma_array_of_view(v);
    }
    if i < 4 {
        lemma_from_le32_differs(head, i, b);
        assert(changed.subrange(0, 4) =~= head.update(i, b));
        assert(changed.subrange(5, 5 + K) =~= key@);
        assert(changed.subrange(5 + K, 5 + K + V) =~= value_bytes(value));
        assert(new_key == key && new_value == value);
    } else {
        assert(changed.subrange(0, 4) =~= head);
        if i == 4 {
            if b <= 1 {
                assert(changed.subrange(5, 5 + K) =~= key@);
                assert(changed.subrange(5 + K, 5 + K + V) =~= value_bytes(value));
                assert(new_key == key);
                assert(record_body(new_key, new_value) =~= record_body(key, value).update(0, b));
                lemma_hashes_differ(key, value, new_key, new_value, 0);
            }
        } else if i < 5 + K {
            assert(changed.subrange(5 + K, 5 + K + V) =~= value_bytes(value));
            assert(new_value == value);
            assert(new_key@ =~= key@.update(i - 5, b));
            law_checksum_covers_the_key(key, new_key, value, i - 5);
        } else {
            assert(changed.subrange(5, 5 + K) =~= key@);
            assert(new_key == key);
            let v = value->0;
            let w = new_value->0;
            assert(w@ =~= v@.update(i - 5 - K, b));
            law_checksum_covers_the_value(key, v, w, i - 5 - K);
        }
    }
}

/// A log in which one byte of a record was changed is read up to that record
/// and no further, so it counts as torn there.
pub proof fn law_changed_log_is_read_up_to_the_change<const K: usize, const V: usize>(
    entries: Seq<([u8; K], Option<[u8; V]>)>,
    key: [u8; K],
    value: Option<[u8; V]>,
    i: int,
    b: u8,
    tail: Seq<u8>,
)
    requires
        0 <= i < 5 + K + V,
        record_bytes(key, value)[i] != b,
        i == 4 ==> value is None || b > 1,
        i >= 5 + K ==> value is Some,
    ensures
        records_of::<K, V>(
            bytes_of_records(entries) + record_bytes(key, value).update(i, b) + tail,
        ) == entries,
{
    let changed = record_bytes(key, value).update(i, b);
    law_changed_record_is_not_intact(key, value, i, b);
    law_record_read_back(key, value);
    assert((changed + tail).take(record_len::<K, V>() as int) =~= changed);
    law_torn_tail_is_dropped(entries, changed + tail);
    assert(bytes_of_records(entries) + changed + tail =~= bytes_of_records(entries) + (changed
        + tail));
}

/// What stands in the place of the value does not count in the record of a
/// removal.
pub proof fn law_value_of_a_removal_does_not_count<const K: usize, const V: usize>(
    key: [u8; K],
    junk: Seq<u8>,
)
    requires
        junk.len() == V,
    ensures
        ({
            let bytes = record_bytes::<K, V>(key, None).take(5 + K) + junk;
            &&& intact::<K, V>(bytes)
            &&& fields_of::<K, V>(bytes) == (key, None::<[u8; V]>)
        }),
{
    let clean = record_bytes::<K, V>(key, None);
    let bytes = clean.take(5 + K) + junk;
    law_record_read_back::<K, V>(key, None);
    assert(bytes.subrange(0, 4) =~= clean.subrange(0, 4));
    assert(bytes.subrange(5, 5 + K) =~= clean.subrange(5, 5 + K));
    assert(bytes[4] == clean[4]);
}

/// The bytes in the place of record `i`, where records stand one after the
/// other.
pub open spec fn record_at<const K: usize, const V: usize>(bytes: Seq<u8>, i: int) -> Seq<u8> {
    bytes.skip(i * (record_len::<K, V>() as int)).take(record_len::<K, V>() as int)
}

/// The next record stands in the first place behind the first.
proof fn lemma_record_at<const K: usize, const V: usize>(bytes: Seq<u8>, i: int)
    requires
        0 <= i,
        record_len::<K, V>() + i * (record_len::<K, V>() as int) <= bytes.len(),
    ensures
        record_at::<K, V>(bytes, i + 1) == record_at::<K, V>(
            bytes.skip(record_len::<K, V>() as int),
            i,
        ),
{
    let n = record_len::<K, V>() as int;
    assert((i + 1) * n == i * n + n) by (nonlinear_arith);
    assert(0 <= i * n) by (nonlinear_arith)
        requires
            0 <= i,
            0 <= n,
    ;
    assert(bytes.skip((i + 1) * n) =~= bytes.skip(n).skip(i * n));
}

/// The records that are read stand one after the other from the front, each
/// intact; what comes next is less than a record, or not intact.
pub proof fn law_records_stand_one_after_the_other<const K: usize, const V: usize>(
    bytes: Seq<u8>,
)
    ensures
        record_len::<K, V>() == 5 + K + V,
        intact_len::<K, V>(bytes) <= bytes.len(),
        forall|i: int|
            0 <= i < records_of::<K, V>(bytes).len() ==> intact::<K, V>(
                #[trigger] record_at::<K, V>(bytes, i),
            ) && fields_of::<K, V>(record_at::<K, V>(bytes, i)) == records_of::<K, V>(bytes)[i],
        intact_len::<K, V>(bytes) + record_len::<K, V>() <= bytes.len() ==> !intact::<K, V>(
            record_at::<K, V>(bytes, records_of::<K, V>(bytes).len() as int),
        ),
    decreases bytes.len(),
{
    let n = record_len::<K, V>() as int;
    let read = records_of::<K, V>(bytes);
    lemma_intact_len::<K, V>(bytes);
    assert(record_at::<K, V>(bytes, 0) == bytes.take(n)) by {
        assert(0 * n == 0) by (nonlinear_arith);
        assert(bytes.skip(0) =~= bytes);
    }
    if bytes.len() >= n && intact::<K, V>(bytes.take(n)) {
        let rest = bytes.skip(n);
        let tail = records_of::<K, V>(rest);
        law_records_stand_one_after_the_other::<K, V>(rest);
        assert forall|i: int| 0 <= i <= tail.len() implies record_at::<K, V>(bytes, i + 1)
            == #[trigger] record_at::<K, V>(rest, i) by {
            assert(i * n <= tail.len() * n) by (nonlinear_arith)
                requires
                    i <= tail.len(),
                    0 <= n,
            ;
            lemma_record_at::<K, V>(bytes, i);
        }
        assert forall|i: int| 0 <= i < read.len() implies intact::<K, V>(
            #[trigger] record_at::<K, V>(bytes, i),
        ) && fields_of::<K, V>(record_at::<K, V>(bytes, i)) == read[i] by {
            if i > 0 {
                assert(record_at::<K, V>(bytes, i - 1 + 1) == record_at::<K, V>(rest, i - 1));
                assert(read[i] == tail[i - 1]);
            }
        }
        let m = tail.len() as int;
        assert(record_at::<K, V>(bytes, m + 1) == record_at::<K, V>(rest, m));
    }
}

/// The checksum of a record is that of its tag, its key, and its value or
/// zeros, with the low byte flipped.
pub proof fn law_checksum_of_a_record<const K: usize, const V: usize>(key: [u8; K], value: [u8; V])
    ensures
        record_hash(key, Some(value)) == crc32(seq![1u8] + key@ + value@) ^ 0xFF,
        record_hash::<K, V>(key, None) == crc32(
            seq![0u8] + key@ + Seq::new(V as nat, |i: int| 0u8),
        ) ^ 0xFF,
{
}

/// The bytes of an intact record are those that are written for what is read
/// from them, but for what a removal holds in the place of the value.
pub proof fn law_intact_records_are_as_written<const K: usize, const V: usize>(bytes: Seq<u8>)
    requires
        bytes.len() == 5 + K + V,
        intact::<K, V>(bytes),
    ensures
        ({
            let (key, value) = fields_of::<K, V>(bytes);
            let written = record_bytes(key, value);
            &&& value is Some ==> bytes == written
            &&& value is None ==> bytes.take(5 + K) == written.take(5 + K)
        }),
{
    let (key, value) = fields_of::<K, V>(bytes);
    let written = record_bytes(key, value);
    let head = bytes.subrange(0, 4);
    let (p, q, r, t) = (head[0], head[1], head[2], head[3]);
    let x = from_le32(head);
    assert(x as u8 == p && (x >> 8) as u8 == q && (x >> 16) as u8 == r && (x >> 24) as u8 == t)
        by (bit_vector)
        requires
            x == (p as u32) | ((q as u32) << 8) | ((r as u32) << 16) | ((t as u32) << 24),
    ;
    lemma_array_of::<K>(bytes.subrange(5, 5 + K));
    assert forall|i: int| 0 <= i < 5 + K implies bytes[i] == written[i] by {
        if i < 4 {
            assert(bytes[i] == head[i]);
            assert(written[i] == le32(x)[i]);
        } else if i > 4 {
            assert(bytes[i] == bytes.subrange(5, 5 + K)[i - 5]);
            assert(written[i] == key@[i - 5]);
        }
    }
    if value is Some {
        lemma_array_of::<V>(bytes.subrange(5 + K, 5 + K + V));
        assert(bytes =~= written) by {
            assert forall|i: int| 5 + K <= i < 5 + K + V implies bytes[i] == written[i] by {
                assert(bytes[i] == bytes.subrange(5 + K, 5 + K + V)[i - 5 - K]);
                assert(written[i] == value_bytes(value)[i - 5 - K]);
            }
        }
    } else {
        assert(bytes.take(5 + K) =~= written.take(5 + K));
    }
}

/// What follows does not change the bytes in the place of a record, and the
/// first record that follows stands in the next place.
proof fn lemma_record_at_front<const K: usize, const V: usize>(
    head: Seq<u8>,
    tail: Seq<u8>,
    i: int,
    count: int,
)
    requires
        0 <= i <= count,
        head.len() == count * (record_len::<K, V>() as int),
        tail.len() == record_len::<K, V>(),
    ensures
        i < count ==> record_at::<K, V>(head + tail, i) == record_at::<K, V>(head, i),
        i == count ==> record_at::<K, V>(head + tail, i) == tail,
{
    let n = record_len::<K, V>() as int;
    if i < count {
        assert(0 <= i * n && i * n + n <= count * n) by (nonlinear_arith)
            requires
                0 <= i < count,
                0 <= n,
        ;
        assert(record_at::<K, V>(head + tail, i) =~= record_at::<K, V>(head, i));
    } else {
        assert(record_at::<K, V>(head + tail, i) =~= tail);
    }
}

/// Records are written one after the other.
pub proof fn law_records_are_written_one_after_the_other<const K: usize, const V: usize>(
    entries: Seq<([u8; K], Option<[u8; V]>)>,
    i: int,
)
    requires
        0 <= i < entries.len(),
    ensures
        bytes_of_records(entries).len() == entries.len() * (5 + K + V),
        record_at::<K, V>(bytes_of_records(entries), i) == record_bytes(entries[i].0, entries[i].1),
    decreases entries.len(),
{
    let front = entries.drop_last();
    let last = record_bytes(entries.last().0, entries.last().1);
    lemma_bytes_of_records_len(entries);
    lemma_bytes_of_records_len(front);
    law_record_layout(entries.last().0, entries.last().1);
    lemma_record_at_front::<K, V>(bytes_of_records(front), last, i, front.len() as int);
    if i < front.len() {
        law_records_are_written_one_after_the_other(front, i);
    }
}

} // verus!
