//! Decoding of a whole configuration stream.
//!
//! Layout: a big-endian JTAG identifier (4 bytes), a mode byte, then
//! `rows` rows of `bytes_per_row` bytes each, every row closed by its
//! error-check byte. Bytes after the last row are not read.
use vstd::prelude::*;
use crate::device::{Device, lemma_device_catalog};
use crate::ecb::{ecb, ecb_of_range, row_valid};

verus! {

/// A data mode that a stream may declare and that is not supported.
#[derive(Clone, Copy, Debug, PartialEq, Eq, Structural)]
pub enum ModeFlag {
    /// Mode bit 0: test data.
    TestData,
    /// Mode bit 1: encrypted data.
    Encrypted,
    /// Mode bit 2: compressed data.
    Compressed,
}

/// Why a stream was rejected.
#[derive(Clone, Copy, Debug, PartialEq, Eq, Structural)]
pub enum BitstreamError {
    /// The stream ended inside the identifier, the mode byte or a row.
    TruncatedInput,
    /// The identifier names no known device.
    UnknownDevice(u32),
    /// The mode byte asks for a data mode that is not supported.
    UnsupportedMode(ModeFlag),
    /// One of the must-be-zero bits 3 to 7 of the mode byte is set.
    ReservedBitsSet,
    /// The check byte of row `row` is wrong: `expected` is the one computed
    /// from the payload, `actual` the one stored in the stream.
    ChecksumMismatch { row: usize, expected: u8, actual: u8 },
}

/// One set configuration bit: bit `bit` (0 is the least significant) of
/// payload byte `column` in row `row`.
#[derive(Clone, Copy, Debug, PartialEq, Eq, Structural)]
pub struct BitCoordinate {
    pub row: usize,
    pub column: usize,
    pub bit: u8,
}

/// A decoded stream: its device, its mode byte, and the set bits of all rows
/// in row, then column, then bit order.
#[derive(Debug)]
pub struct Bitstream {
    pub device: Device,
    pub data_type: u8,
    pub bits: Vec<BitCoordinate>,
}

/// The big-endian 32-bit value of the first four bytes.
pub open spec fn be_u32(s: Seq<u8>) -> u32
    recommends
        s.len() >= 4,
{
    (s[0] as int * 0x1000000 + s[1] as int * 0x10000 + s[2] as int * 0x100 + s[3] as int) as u32
}

/// What is wrong with a mode byte, checked in bit order, if anything.
pub open spec fn mode_error(m: u8) -> Option<BitstreamError> {
    if m & 1 != 0 {
        Some(BitstreamError::UnsupportedMode(ModeFlag::TestData))
    } else if m & 2 != 0 {
        Some(BitstreamError::UnsupportedMode(ModeFlag::Encrypted))
    } else if m & 4 != 0 {
        Some(BitstreamError::UnsupportedMode(ModeFlag::Compressed))
    } else if m & 0xf8 != 0 {
        Some(BitstreamError::ReservedBitsSet)
    } else {
        None
    }
}

/// Whether bit `k` of `b` is set.
pub open spec fn bit_set(b: u8, k: u8) -> bool {
    (b >> k) & 1 == 1
}

/// The set bits among bits `0..k` of byte `b`, at column `col` of row `row`,
/// in ascending order.
pub open spec fn byte_bits(row: usize, col: usize, b: u8, k: nat) -> Seq<BitCoordinate>
    decreases k,
{
    if k == 0 {
        seq![]
    } else {
        let prev = byte_bits(row, col, b, (k - 1) as nat);
        if bit_set(b, (k - 1) as u8) {
            prev.push(BitCoordinate { row, column: col, bit: (k - 1) as u8 })
        } else {
            prev
        }
    }
}

/// The set bits of the first `c` bytes of payload `p` of row `row`, column by
/// column.
pub open spec fn columns_bits(row: usize, p: Seq<u8>, c: nat) -> Seq<BitCoordinate>
    decreases c,
{
    if c == 0 {
        seq![]
    } else {
        columns_bits(row, p, (c - 1) as nat) + byte_bits(row, (c - 1) as usize, p[c - 1], 8)
    }
}

/// The set bits of payload `p` of row `row`.
pub open spec fn row_bits(row: usize, p: Seq<u8>) -> Seq<BitCoordinate> {
    columns_bits(row, p, p.len())
}

/// Offset of row `i` of a stream for device `d`.
pub open spec fn row_start(d: Device, i: nat) -> nat {
    5 + i * d.spec_bytes_per_row()
}

/// Length of a complete stream for device `d`.
pub open spec fn stream_len(d: Device) -> nat {
    row_start(d, d.spec_rows())
}

/// Row `i` of stream `s` for device `d`, check byte included.
pub open spec fn row_of(s: Seq<u8>, d: Device, i: nat) -> Seq<u8> {
    s.subrange(row_start(d, i) as int, (row_start(d, i) + d.spec_bytes_per_row()) as int)
}

/// Decoding of the first `n` rows: the set bits of all of them, or the error
/// of the first row that is cut short or fails its check byte.
pub open spec fn decode_rows(s: Seq<u8>, d: Device, n: nat) -> Result<
    Seq<BitCoordinate>,
    BitstreamError,
>
    decreases n,
{
    if n == 0 {
        Ok(seq![])
    } else {
        let i = (n - 1) as nat;
        match decode_rows(s, d, i) {
            Err(e) => Err(e),
            Ok(bits) => {
                if s.len() < row_start(d, n) {
                    Err(BitstreamError::TruncatedInput)
                } else {
                    let row = row_of(s, d, i);
                    if row_valid(row) {
                        Ok(bits + row_bits(i as usize, row.drop_last()))
                    } else {
                        Err(
                            BitstreamError::ChecksumMismatch {
                                row: i as usize,
                                expected: ecb(row.drop_last()),
                                actual: row.last(),
                            },
                        )
                    }
                }
            },
        }
    }
}

/// Decoding of a whole stream: device, mode byte and set bits, or the first
/// error met in stream order.
pub open spec fn decode_spec(s: Seq<u8>) -> Result<(Device, u8, Seq<BitCoordinate>), BitstreamError> {
    if s.len() < 4 {
        Err(BitstreamError::TruncatedInput)
    } else {
        match Device::from_jtag_spec(be_u32(s)) {
            None => Err(BitstreamError::UnknownDevice(be_u32(s))),
            Some(d) => {
                if s.len() < 5 {
                    Err(BitstreamError::TruncatedInput)
                } else {
                    match mode_error(s[4]) {
                        Some(e) => Err(e),
                        None => match decode_rows(s, d, d.spec_rows()) {
                            Ok(bits) => Ok((d, s[4], bits)),
                            Err(e) => Err(e),
                        },
                    }
                }
            },
        }
    }
}

proof fn lemma_row_start_step(d: Device, i: nat)
    ensures
        row_start(d, i + 1) == row_start(d, i) + d.spec_bytes_per_row(),
{
    assert((i + 1) * d.spec_bytes_per_row() == i * d.spec_bytes_per_row()
        + d.spec_bytes_per_row()) by (nonlinear_arith);
}

proof fn lemma_row_start_mono(d: Device, i: nat, j: nat)
    requires
        i <= j,
    ensures
        row_start(d, i) <= row_start(d, j),
{
    assert(i * d.spec_bytes_per_row() <= j * d.spec_bytes_per_row()) by (nonlinear_arith)
        requires
            i <= j,
    ;
}

/// Once a row fails, decoding more rows gives the same error.
proof fn lemma_decode_rows_err_persists(s: Seq<u8>, d: Device, n: nat, m: nat)
    requires
        n <= m,
        decode_rows(s, d, n) is Err,
    ensures
        decode_rows(s, d, m) == decode_rows(s, d, n),
    decreases m - n,
{
    if n < m {
        lemma_decode_rows_err_persists(s, d, n, (m - 1) as nat);
    }
}

fn read_be_u32(input: &[u8]) -> (r: u32)
    requires
        input@.len() >= 4,
    ensures
        r == be_u32(input@),
{
    (input[0] as u32) * 0x1000000 + (input[1] as u32) * 0x10000 + (input[2] as u32) * 0x100
        + (input[3] as u32)
}

fn check_mode(m: u8) -> (r: Option<BitstreamError>)
    ensures
        r == mode_error(m),
{
    if m & 1 != 0 {
        Some(BitstreamError::UnsupportedMode(ModeFlag::TestData))
    } else if m & 2 != 0 {
        Some(BitstreamError::UnsupportedMode(ModeFlag::Encrypted))
    } else if m & 4 != 0 {
        Some(BitstreamError::UnsupportedMode(ModeFlag::Compressed))
    } else if m & 0xf8 != 0 {
        Some(BitstreamError::ReservedBitsSet)
    } else {
        None
    }
}

/// Appends the set bits of payload `data[start..end]` of row `row`.
fn push_row_bits(bits: &mut Vec<BitCoordinate>, data: &[u8], start: usize, end: usize, row: usize)
    requires
        start <= end <= data@.len(),
    ensures
        final(bits)@ == old(bits)@ + row_bits(row, data@.subrange(start as int, end as int)),
{
    let ghost p = data@.subrange(start as int, end as int);
    let mut col: usize = 0;
    while col < end - start
        invariant
            start <= end <= data@.len(),
            p == data@.subrange(start as int, end as int),
            col <= end - start,
            bits@ == old(bits)@ + columns_bits(row, p, col as nat),
        decreases end - start - col,
    {
        let b: u8 = data[start + col];
        assert(b == p[col as int]);
        let mut k: u8 = 0;
        while k < 8
            invariant
                k <= 8,
                bits@ == old(bits)@ + columns_bits(row, p, col as nat) + byte_bits(row, col, b, k as nat),
            decreases 8 - k,
        {
            if (b >> k) & 1 == 1 {
                bits.push(BitCoordinate { row, column: col, bit: k });
            }
            k = k + 1;
        }
        assert(old(bits)@ + columns_bits(row, p, col as nat) + byte_bits(row, col, b, 8)
            =~= old(bits)@ + columns_bits(row, p, (col + 1) as nat));
        col = col + 1;
    }
    assert(p.len() == end - start);
}

impl Bitstream {
    /// Decodes a stream held in `input`.
    ///
    /// Checks, in stream order: that the identifier is there and names a known
    /// device, that the mode byte is there and declares no unsupported mode
    /// and no reserved bit, then for each row that it is complete and that its
    /// check byte matches. The first failure is returned; on success the set
    /// bits of all rows are listed in order.
    pub fn new(input: &[u8]) -> (r: Result<Bitstream, BitstreamError>)
        ensures
            match r {
                Ok(b) => decode_spec(input@) == Ok::<_, BitstreamError>((b.device, b.data_type, b.bits@)),
                Err(e) => decode_spec(input@) == Err::<(Device, u8, Seq<BitCoordinate>), _>(e),
            },
    {
        if input.len() < 4 {
            return Err(BitstreamError::TruncatedInput);
        }
        let idcode = read_be_u32(input);
        let device = match Device::try_from_jtag(idcode) {
            Some(d) => d,
            None => {
                return Err(BitstreamError::UnknownDevice(idcode));
            },
        };
        if input.len() < 5 {
            return Err(BitstreamError::TruncatedInput);
        }
        let data_type: u8 = input[4];
        if let Some(e) = check_mode(data_type) {
            return Err(e);
        }
        let rows: usize = device.rows();
        let bpr: usize = device.bytes_per_row();
        proof {
            lemma_device_catalog(device);
        }
        let mut bits: Vec<BitCoordinate> = Vec::new();
        let mut row_index: usize = 0;
        let mut start: usize = 5;
        while row_index < rows
            invariant
                input@.len() >= 5,
                Device::from_jtag_spec(be_u32(input@)) == Some(device),
                mode_error(input@[4]) is None,
                data_type == input@[4],
                rows == device.spec_rows(),
                bpr == device.spec_bytes_per_row(),
                2 <= bpr <= 170,
                rows <= 227,
                row_index <= rows,
                start == row_start(device, row_index as nat),
                decode_rows(input@, device, row_index as nat) == Ok::<_, BitstreamError>(bits@),
            decreases rows - row_index,
        {
            proof {
                lemma_row_start_step(device, row_index as nat);
                assert((row_index + 1) * bpr <= 227 * 170) by (nonlinear_arith)
                    requires
                        row_index < 227,
                        bpr <= 170,
                ;
            }
            let end: usize = start + bpr;
            if input.len() < end {
                proof {
                    lemma_decode_rows_err_persists(input@, device, (row_index + 1) as nat, rows as nat);
                }
                return Err(BitstreamError::TruncatedInput);
            }
            let ghost row = row_of(input@, device, row_index as nat);
            assert(row.drop_last() =~= input@.subrange(start as int, end - 1));
            assert(row.last() == input@[end - 1]);
            let expected = ecb_of_range(input, start, end - 1);
            let actual = input[end - 1];
            if expected != actual {
                proof {
                    lemma_decode_rows_err_persists(input@, device, (row_index + 1) as nat, rows as nat);
                }
                return Err(BitstreamError::ChecksumMismatch { row: row_index, expected, actual });
            }
            push_row_bits(&mut bits, input, start, end - 1, row_index);
            row_index = row_index + 1;
            start = end;
        }
        Ok(Bitstream { device, data_type, bits })
    }
}

/// Rows that decode successfully are all present and all valid.
proof fn lemma_decode_rows_ok(s: Seq<u8>, d: Device, n: nat)
    requires
        decode_rows(s, d, n) is Ok,
    ensures
        n > 0 ==> s.len() >= row_start(d, n),
        forall|i: nat| i < n ==> #[trigger] row_valid(row_of(s, d, i)),
    decreases n,
{
    if n > 0 {
        lemma_decode_rows_ok(s, d, (n - 1) as nat);
    }
}

/// Decoding `n` rows reads nothing past the end of row `n - 1`.
proof fn lemma_decode_rows_agree(s: Seq<u8>, t: Seq<u8>, d: Device, n: nat)
    requires
        s.len() >= row_start(d, n),
        t.len() >= row_start(d, n),
        s.subrange(0, row_start(d, n) as int) == t.subrange(0, row_start(d, n) as int),
    ensures
        decode_rows(s, d, n) == decode_rows(t, d, n),
    decreases n,
{
    if n > 0 {
        let i = (n - 1) as nat;
        lemma_row_start_step(d, i);
        lemma_row_start_mono(d, i, n);
        let end = row_start(d, n) as int;
        assert(s.subrange(0, row_start(d, i) as int) =~= s.subrange(0, end).subrange(
            0,
            row_start(d, i) as int,
        ));
        assert(t.subrange(0, row_start(d, i) as int) =~= t.subrange(0, end).subrange(
            0,
            row_start(d, i) as int,
        ));
        lemma_decode_rows_agree(s, t, d, i);
        assert(row_of(s, d, i) =~= s.subrange(0, end).subrange(row_start(d, i) as int, end));
        assert(row_of(t, d, i) =~= t.subrange(0, end).subrange(row_start(d, i) as int, end));
    }
}

/// A stream whose identifier names no device fails with `UnknownDevice`
/// carrying that identifier, and the result is decided by the first four
/// bytes alone: nothing after them is read.
pub proof fn lemma_unknown_device(s: Seq<u8>)
    requires
        s.len() >= 4,
        Device::from_jtag_spec(be_u32(s)) is None,
    ensures
        decode_spec(s) == Err::<(Device, u8, Seq<BitCoordinate>), _>(
            BitstreamError::UnknownDevice(be_u32(s)),
        ),
        decode_spec(s.subrange(0, 4)) == decode_spec(s),
{
    assert(be_u32(s.subrange(0, 4)) == be_u32(s));
}

/// A stream of a known device whose mode byte sets bit 0, 1 or 2 fails with
/// `UnsupportedMode` naming the lowest such bit's flag, and the result is
/// decided by the identifier and the mode byte alone: no row is read.
pub proof fn lemma_unsupported_mode(s: Seq<u8>)
    requires
        s.len() >= 5,
        Device::from_jtag_spec(be_u32(s)) is Some,
        s[4] & 7 != 0,
    ensures
        decode_spec(s) == Err::<(Device, u8, Seq<BitCoordinate>), _>(
            BitstreamError::UnsupportedMode(
                if s[4] & 1 != 0 {
                    ModeFlag::TestData
                } else if s[4] & 2 != 0 {
                    ModeFlag::Encrypted
                } else {
                    ModeFlag::Compressed
                },
            ),
        ),
        decode_spec(s.subrange(0, 5)) == decode_spec(s),
{
    let m = s[4];
    assert(m & 7 != 0 ==> (m & 1 != 0 || m & 2 != 0 || m & 4 != 0)) by (bit_vector);
    assert(be_u32(s.subrange(0, 5)) == be_u32(s));
    assert(s.subrange(0, 5)[4] == m);
}

/// Whether `c` names a payload bit of a stream for device `d`: an existing
/// row, a column before the check byte, and a bit of a byte.
pub open spec fn in_payload(c: BitCoordinate, d: Device) -> bool {
    c.row < d.spec_rows() && c.column + 1 < d.spec_bytes_per_row() && c.bit < 8
}

proof fn lemma_byte_bits_range(row: usize, col: usize, b: u8, k: nat)
    requires
        k <= 8,
    ensures
        forall|j: int|
            0 <= j < byte_bits(row, col, b, k).len() ==> {
                let c = #[trigger] byte_bits(row, col, b, k)[j];
                c.row == row && c.column == col && c.bit < k
            },
    decreases k,
{
    if k > 0 {
        let k1 = (k - 1) as nat;
        lemma_byte_bits_range(row, col, b, k1);
        let a = byte_bits(row, col, b, k1);
        assert forall|j: int| 0 <= j < byte_bits(row, col, b, k).len() implies {
            let c = #[trigger] byte_bits(row, col, b, k)[j];
            c.row == row && c.column == col && c.bit < k
        } by {
            if j < a.len() {
                assert(byte_bits(row, col, b, k)[j] == a[j]);
            }
        }
    }
}

proof fn lemma_columns_bits_range(row: usize, p: Seq<u8>, c: nat)
    requires
        c <= p.len(),
        c <= 256,
    ensures
        forall|j: int|
            0 <= j < columns_bits(row, p, c).len() ==> {
                let x = #[trigger] columns_bits(row, p, c)[j];
                x.row == row && x.column < c && x.bit < 8
            },
    decreases c,
{
    if c > 0 {
        let c1 = (c - 1) as nat;
        lemma_columns_bits_range(row, p, c1);
        lemma_byte_bits_range(row, c1 as usize, p[c1 as int], 8);
        let a = columns_bits(row, p, c1);
        let b = byte_bits(row, c1 as usize, p[c1 as int], 8);
        assert forall|j: int| 0 <= j < columns_bits(row, p, c).len() implies {
            let x = #[trigger] columns_bits(row, p, c)[j];
            x.row == row && x.column < c && x.bit < 8
        } by {
            if j >= a.len() {
                assert(columns_bits(row, p, c)[j] == b[j - a.len()]);
            } else {
                assert(columns_bits(row, p, c)[j] == a[j]);
            }
        }
    }
}

proof fn lemma_decode_rows_range(s: Seq<u8>, d: Device, n: nat)
    requires
        decode_rows(s, d, n) is Ok,
        n <= d.spec_rows(),
    ensures
        forall|j: int|
            0 <= j < decode_rows(s, d, n)->Ok_0.len() ==> {
                let x = #[trigger] decode_rows(s, d, n)->Ok_0[j];
                x.row < n && in_payload(x, d)
            },
    decreases n,
{
    if n > 0 {
        let i = (n - 1) as nat;
        lemma_device_catalog(d);
        lemma_decode_rows_range(s, d, i);
        let a = decode_rows(s, d, i)->Ok_0;
        let p = row_of(s, d, i).drop_last();
        lemma_row_start_step(d, i);
        lemma_columns_bits_range(i as usize, p, p.len());
        let b = row_bits(i as usize, p);
        assert forall|j: int| 0 <= j < decode_rows(s, d, n)->Ok_0.len() implies {
            let x = #[trigger] decode_rows(s, d, n)->Ok_0[j];
            x.row < n && in_payload(x, d)
        } by {
            if j >= a.len() {
                assert(decode_rows(s, d, n)->Ok_0[j] == b[j - a.len()]);
            } else {
                assert(decode_rows(s, d, n)->Ok_0[j] == a[j]);
            }
        }
    }
}

/// A stream that decodes holds all `rows` rows of `bytes_per_row` bytes each
/// after its five header bytes, every one of them valid, and decoding reads
/// exactly those bytes: whatever follows them does not change the result.
/// Every listed bit lies in the payload of one of those rows.
pub proof fn lemma_decode_reads_whole_rows(s: Seq<u8>)
    requires
        decode_spec(s) is Ok,
    ensures
        ({
            let d = decode_spec(s)->Ok_0.0;
            &&& s.len() >= stream_len(d)
            &&& stream_len(d) == 5 + d.spec_rows() * d.spec_bytes_per_row()
            &&& forall|i: nat| i < d.spec_rows() ==> #[trigger] row_valid(row_of(s, d, i))
            &&& forall|i: nat| i < d.spec_rows() ==> #[trigger] row_of(s, d, i).len() == d.spec_bytes_per_row()
            &&& decode_spec(s.subrange(0, stream_len(d) as int)) == decode_spec(s)
            &&& forall|j: int|
                0 <= j < decode_spec(s)->Ok_0.2.len() ==> in_payload(
                    #[trigger] decode_spec(s)->Ok_0.2[j],
                    d,
                )
        }),
{
    let d = Device::from_jtag_spec(be_u32(s))->Some_0;
    let n = d.spec_rows();
    let len = stream_len(d);
    lemma_decode_rows_ok(s, d, n);
    lemma_device_catalog(d);
    let t = s.subrange(0, len as int);
    assert forall|i: nat| i < n implies #[trigger] row_of(s, d, i).len() == d.spec_bytes_per_row() by {
        lemma_row_start_step(d, i);
        lemma_row_start_mono(d, i + 1, n);
    }
    lemma_row_start_mono(d, 1, n);
    lemma_row_start_step(d, 0);
    assert(be_u32(t) == be_u32(s));
    assert(t[4] == s[4]);
    assert(t.subrange(0, len as int) =~= s.subrange(0, len as int));
    lemma_decode_rows_agree(s, t, d, n);
    lemma_decode_rows_range(s, d, n);
}

/// Changing the check byte of one row of a stream that decodes makes the
/// stream fail with `ChecksumMismatch` for that row, reporting the computed
/// byte and the stored one.
pub proof fn lemma_altered_check_byte(s: Seq<u8>, i: nat, v: u8)
    requires
        decode_spec(s) is Ok,
        i < decode_spec(s)->Ok_0.0.spec_rows(),
        v != s[row_start(decode_spec(s)->Ok_0.0, i + 1) - 1],
    ensures
        ({
            let d = decode_spec(s)->Ok_0.0;
            let pos = row_start(d, i + 1) - 1;
            decode_spec(s.update(pos, v)) == Err::<(Device, u8, Seq<BitCoordinate>), _>(
                BitstreamError::ChecksumMismatch {
                    row: i as usize,
                    expected: ecb(row_of(s, d, i).drop_last()),
                    actual: v,
                },
            )
        }),
{
    let d = Device::from_jtag_spec(be_u32(s))->Some_0;
    let n = d.spec_rows();
    let pos = row_start(d, i + 1) - 1;
    let t = s.update(pos, v);
    lemma_device_catalog(d);
    lemma_decode_rows_ok(s, d, n);
    lemma_row_start_step(d, i);
    lemma_row_start_mono(d, i + 1, n);
    lemma_row_start_mono(d, 1, i + 1);
    lemma_row_start_step(d, 0);
    assert(be_u32(t) == be_u32(s));
    assert(t[4] == s[4]);
    assert(t.subrange(0, row_start(d, i) as int) =~= s.subrange(0, row_start(d, i) as int));
    lemma_decode_rows_agree(s, t, d, i);
    if decode_rows(s, d, i) is Err {
        lemma_decode_rows_err_persists(s, d, i, n);
    }
    assert(row_valid(row_of(s, d, i)));
    assert(row_of(t, d, i).drop_last() =~= row_of(s, d, i).drop_last());
    assert(row_of(t, d, i).last() == v);
    lemma_decode_rows_err_persists(t, d, i + 1, n);
}

} // verus!
