//! MIDI variable-length quantities: big-endian base-128 integers of one to
//! four bytes, where every byte but the last has its high bit set.

use crate::midi::MidiError;
use vstd::prelude::*;

verus! {

/// The largest value that the four-byte form can hold.
pub const VLQ_MAX: u32 = 0x0FFF_FFFF;

/// The seven payload bits of a byte.
pub open spec fn low7(b: u8) -> int {
    b as int % 128
}

/// The base-128 number spelled by the payload bits of the `n` bytes from `pos` on.
pub open spec fn prefix_value(data: Seq<u8>, pos: int, n: nat) -> int
    decreases n,
{
    if n == 0 {
        0
    } else {
        prefix_value(data, pos, (n - 1) as nat) * 128 + low7(data[pos + n - 1])
    }
}

/// The quantity that starts at `pos` and ends before `end`, with the number of
/// bytes it takes. `None` when the window `[pos, end)` closes before a byte
/// with a clear high bit is met, or when four bytes pass without one.
pub open spec fn vlq_at(data: Seq<u8>, pos: int, end: int) -> Option<(int, int)> {
    if pos < end && data[pos] < 0x80 {
        Some((prefix_value(data, pos, 1), 1))
    } else if pos + 1 < end && data[pos + 1] < 0x80 {
        Some((prefix_value(data, pos, 2), 2))
    } else if pos + 2 < end && data[pos + 2] < 0x80 {
        Some((prefix_value(data, pos, 3), 3))
    } else if pos + 3 < end && data[pos + 3] < 0x80 {
        Some((prefix_value(data, pos, 4), 4))
    } else {
        None
    }
}

/// How many bytes of the window `[pos, end)` a failed read of a quantity uses up.
pub open spec fn vlq_overrun(pos: int, end: int) -> int {
    if end - pos < 4 {
        end - pos
    } else {
        4
    }
}

/// The number of bytes in the shortest form of `value`.
pub open spec fn vlq_width(value: int) -> int {
    if value < 0x80 {
        1
    } else if value < 0x4000 {
        2
    } else if value < 0x20_0000 {
        3
    } else {
        4
    }
}

/// The shortest form of `value`.
pub open spec fn vlq_encoding(value: int) -> Seq<u8>
    recommends
        0 <= value <= VLQ_MAX,
{
    if value < 0x80 {
        seq![value as u8]
    } else if value < 0x4000 {
        seq![(0x80 + value / 0x80) as u8, (value % 0x80) as u8]
    } else if value < 0x20_0000 {
        seq![(0x80 + value / 0x4000) as u8, (0x80 + value / 0x80 % 0x80) as u8, (value % 0x80) as u8]
    } else {
        seq![
            (0x80 + value / 0x20_0000) as u8,
            (0x80 + value / 0x4000 % 0x80) as u8,
            (0x80 + value / 0x80 % 0x80) as u8,
            (value % 0x80) as u8,
        ]
    }
}

/// Every quantity lies in `[0, VLQ_MAX]`.
pub proof fn lemma_vlq_range(data: Seq<u8>, pos: int, end: int)
    ensures
        vlq_at(data, pos, end) matches Some((value, width)) ==> 0 <= value <= VLQ_MAX && 1 <= width
            <= 4 && pos + width <= end,
{
    reveal_with_fuel(prefix_value, 5);
}

proof fn lemma_encoding_bytes(value: int)
    requires
        0 <= value <= VLQ_MAX,
    ensures
        vlq_encoding(value).len() == vlq_width(value),
        value < 0x80 ==> vlq_encoding(value)[0] == value,
        0x80 <= value < 0x4000 ==> vlq_encoding(value)[0] == 0x80 + value / 0x80 && vlq_encoding(
            value,
        )[1] == value % 0x80,
        0x4000 <= value < 0x20_0000 ==> vlq_encoding(value)[0] == 0x80 + value / 0x4000
            && vlq_encoding(value)[1] == 0x80 + value / 0x80 % 0x80 && vlq_encoding(value)[2]
            == value % 0x80,
        0x20_0000 <= value ==> vlq_encoding(value)[0] == 0x80 + value / 0x20_0000 && vlq_encoding(
            value,
        )[1] == 0x80 + value / 0x4000 % 0x80 && vlq_encoding(value)[2] == 0x80 + value / 0x80
            % 0x80 && vlq_encoding(value)[3] == value % 0x80,
{
}

proof fn lemma_reads_back(data: Seq<u8>, a: int, b: int, c: int, d: int, width: int)
    requires
        1 <= width <= 4,
        data.len() == width,
        0 <= a < 0x80 && 0 <= b < 0x80 && 0 <= c < 0x80 && 0 <= d < 0x80,
        width == 1 ==> data[0] == d,
        width == 2 ==> data[0] == 0x80 + c && data[1] == d,
        width == 3 ==> data[0] == 0x80 + b && data[1] == 0x80 + c && data[2] == d,
        width == 4 ==> data[0] == 0x80 + a && data[1] == 0x80 + b && data[2] == 0x80 + c && data[3]
            == d,
    ensures
        width == 1 ==> vlq_at(data, 0, width) == Some((d, width)),
        width == 2 ==> vlq_at(data, 0, width) == Some((c * 128 + d, width)),
        width == 3 ==> vlq_at(data, 0, width) == Some(((b * 128 + c) * 128 + d, width)),
        width == 4 ==> vlq_at(data, 0, width) == Some(
            (((a * 128 + b) * 128 + c) * 128 + d, width),
        ),
{
    let d0 = low7(data[0]);
    assert(prefix_value(data, 0, 0) == 0);
    assert(prefix_value(data, 0, 1) == d0);
    if width == 1 {
        assert(d0 == d);
    } else {
        let d1 = low7(data[1]);
        assert(prefix_value(data, 0, 2) == d0 * 128 + d1);
        if width == 2 {
            assert(d0 == c && d1 == d);
        } else {
            let d2 = low7(data[2]);
            assert(prefix_value(data, 0, 3) == (d0 * 128 + d1) * 128 + d2);
            if width == 3 {
                assert(d0 == b && d1 == c && d2 == d);
            } else {
                let d3 = low7(data[3]);
                assert(prefix_value(data, 0, 4) == ((d0 * 128 + d1) * 128 + d2) * 128 + d3);
                assert(d0 == a && d1 == b && d2 == c && d3 == d);
            }
        }
    }
}

/// Round trip: the encoding of a value in `[0, VLQ_MAX]` decodes to that value
/// and is read to its last byte, and it has the minimal width.
pub proof fn lemma_vlq_round_trip(value: int)
    requires
        0 <= value <= VLQ_MAX,
    ensures
        vlq_encoding(value).len() == vlq_width(value),
        vlq_at(vlq_encoding(value), 0, vlq_width(value)) == Some((value, vlq_width(value))),
{
    lemma_encoding_bytes(value);
    lemma_reads_back(
        vlq_encoding(value),
        value / 0x20_0000,
        value / 0x4000 % 0x80,
        value / 0x80 % 0x80,
        value % 0x80,
        vlq_width(value),
    );
}

/// Minimality: no byte string decodes to a value in fewer bytes than its encoding has.
pub proof fn lemma_vlq_minimal(data: Seq<u8>, pos: int, end: int)
    ensures
        vlq_at(data, pos, end) matches Some((value, width)) ==> vlq_width(value) <= width,
{
    reveal_with_fuel(prefix_value, 5);
}

/// Encodes `value` in its shortest form; `None` when it does not fit four bytes.
pub fn encode_vlq(value: u32) -> (r: Option<Vec<u8>>)
    ensures
        value <= VLQ_MAX ==> (r matches Some(bytes) && bytes@ == vlq_encoding(value as int)),
        value > VLQ_MAX ==> r is None,
{
    if value > VLQ_MAX {
        return None;
    }
    let mut bytes: Vec<u8> = Vec::new();
    if value >= 0x20_0000 {
        bytes.push((0x80 + value / 0x20_0000) as u8);
    }
    if value >= 0x4000 {
        bytes.push((0x80 + value / 0x4000 % 0x80) as u8);
    }
    if value >= 0x80 {
        bytes.push((0x80 + value / 0x80 % 0x80) as u8);
    }
    bytes.push((value % 0x80) as u8);
    assert(bytes@ =~= vlq_encoding(value as int));
    Some(bytes)
}

/// Reads the quantity at `pos` inside the window `[pos, end)` of `data`.
pub(crate) fn decode_vlq_in(data: &[u8], pos: usize, end: usize) -> (r: Result<
    (u32, usize),
    MidiError,
>)
    requires
        pos <= end <= data@.len(),
    ensures
        match vlq_at(data@, pos as int, end as int) {
            Some((value, width)) => r == Ok::<(u32, usize), MidiError>(
                (value as u32, width as usize),
            ) && 0 <= value <= VLQ_MAX && 1 <= width <= 4 && pos + width <= end,
            None => r == Err::<(u32, usize), MidiError>(MidiError::UnexpectedEof),
        },
{
    let mut val: u32 = 0;
    let mut i: usize = 0;
    proof {
        lemma_vlq_range(data@, pos as int, end as int);
    }
    while i < 4
        invariant
            i <= 4,
            pos <= end <= data@.len(),
            pos + i <= end,
            forall|j: int| pos <= j < pos + i ==> data@[j] >= 0x80,
            val == prefix_value(data@, pos as int, i as nat),
            i == 0 ==> val == 0,
            i == 1 ==> val < 0x80,
            i == 2 ==> val < 0x4000,
            i == 3 ==> val < 0x20_0000,
        decreases 4 - i,
    {
        if pos + i >= end {
            return Err(MidiError::UnexpectedEof);
        }
        let b = data[pos + i];
        assert(((val << 7) | ((b & 0x7F) as u32)) == val * 128 + (b % 128) as u32) by (bit_vector)
            requires
                val < 0x20_0000,
        ;
        assert((b & 0x80 == 0) <==> b < 0x80) by (bit_vector);
        val = (val << 7) | ((b & 0x7F) as u32);
        assert(val == prefix_value(data@, pos as int, (i + 1) as nat)) by {
            reveal_with_fuel(prefix_value, 2);
        }
        if b & 0x80 == 0 {
            return Ok((val, i + 1));
        }
        i = i + 1;
    }
    Err(MidiError::UnexpectedEof)
}

/// Reads the quantity at the start of `data`: its value and the number of
/// bytes it takes. Fails with `UnexpectedEof` when `data` ends, or four bytes
/// pass, before a byte with a clear high bit.
pub fn decode_vlq(data: &[u8]) -> (r: Result<(u32, usize), MidiError>)
    ensures
        match vlq_at(data@, 0, data@.len() as int) {
            Some((value, width)) => r == Ok::<(u32, usize), MidiError>(
                (value as u32, width as usize),
            ),
            None => r == Err::<(u32, usize), MidiError>(MidiError::UnexpectedEof),
        },
{
    decode_vlq_in(data, 0, data.len())
}

} // verus!
