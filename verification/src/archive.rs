//! The frame archive: entries that follow each other without padding, each a
//! name and a payload behind their lengths.
//!
//! ```text
//! name length   1 byte
//! name          UTF-8, as many bytes as the name length says
//! data length   4 bytes, little-endian
//! data          as many bytes as the data length says
//! ```

use vstd::prelude::*;
use vstd::string::StringSliceAdditionalSpecFns;
use vstd::utf8::valid_utf8;

verus! {

/// The error of `core::str::from_utf8`; nothing of it is looked at.
#[verifier::external_type_specification]
#[verifier::external_body]
pub struct ExUtf8Error(core::str::Utf8Error);

/// `core::str::from_utf8` succeeds on exactly the byte strings that are
/// UTF-8, and the string it then returns is made of the bytes it was given.
pub assume_specification[ core::str::from_utf8 ](v: &[u8]) -> (r: Result<
    &str,
    core::str::Utf8Error,
>)
    ensures
        r is Ok <==> valid_utf8(v@),
        r matches Ok(s) ==> s.spec_bytes() == v@,
;

/// The longest name that an entry can have.
pub const MAX_NAME_LEN: usize = 255;

/// One entry of an archive.
pub struct Entry {
    /// The bytes of the name.
    pub name: Seq<u8>,
    /// The payload.
    pub payload: Seq<u8>,
}

/// The little-endian number in the four bytes at `pos`.
pub open spec fn le32(data: Seq<u8>, pos: int) -> int {
    data[pos] + data[pos + 1] * 0x100 + data[pos + 2] * 0x1_0000 + data[pos + 3] * 0x100_0000
}

/// The four bytes of the little-endian form of `n`.
pub open spec fn le32_bytes(n: int) -> Seq<u8> {
    seq![
        (n % 0x100) as u8,
        (n / 0x100 % 0x100) as u8,
        (n / 0x1_0000 % 0x100) as u8,
        (n / 0x100_0000 % 0x100) as u8,
    ]
}

/// The name of the entry that starts at `pos`. `None` where `data` ends at
/// `pos` or inside the name.
pub open spec fn name_at(data: Seq<u8>, pos: int) -> Option<Seq<u8>> {
    if pos < 0 || pos >= data.len() || pos + 1 + data[pos] > data.len() {
        None
    } else {
        Some(data.subrange(pos + 1, pos + 1 + data[pos]))
    }
}

/// The entry that starts at `pos`, with the place behind it. `None` where
/// `data` ends at `pos` or inside the entry.
pub open spec fn framed(data: Seq<u8>, pos: int) -> Option<(Entry, int)> {
    if pos < 0 || pos >= data.len() {
        None
    } else {
        let name_start = pos + 1;
        let name_end = name_start + data[pos];
        if name_end + 4 > data.len() {
            None
        } else {
            let start = name_end + 4;
            let end = start + le32(data, name_end);
            if end > data.len() {
                None
            } else {
                Some(
                    (
                        Entry {
                            name: data.subrange(name_start, name_end),
                            payload: data.subrange(start, end),
                        },
                        end,
                    ),
                )
            }
        }
    }
}

/// The bytes of an entry in an archive.
pub open spec fn entry_encoding(e: Entry) -> Seq<u8>
    recommends
        e.name.len() <= MAX_NAME_LEN,
        e.payload.len() <= u32::MAX,
{
    seq![e.name.len() as u8] + e.name + le32_bytes(e.payload.len() as int) + e.payload
}

/// Whether an entry fits the format: its name in 255 bytes, the length of its
/// payload in four bytes.
pub open spec fn encodable(e: Entry) -> bool {
    e.name.len() <= MAX_NAME_LEN && e.payload.len() <= u32::MAX
}

/// The archive that holds `entries` in their order.
pub open spec fn archive_of(entries: Seq<Entry>) -> Seq<u8>
    decreases entries.len(),
{
    if entries.len() == 0 {
        Seq::empty()
    } else {
        entry_encoding(entries.first()) + archive_of(entries.drop_first())
    }
}

/// The entries that are read from `data` from `pos` on, until none is left.
pub open spec fn entries_from(data: Seq<u8>, pos: int) -> Seq<Entry>
    decreases data.len() - pos,
{
    match framed(data, pos) {
        Some((entry, next)) => seq![entry] + entries_from(data, next),
        None => Seq::empty(),
    }
}

proof fn lemma_le32_round_trip(n: int)
    requires
        0 <= n <= u32::MAX,
    ensures
        le32_bytes(n).len() == 4,
        le32(le32_bytes(n), 0) == n,
{
}

/// An entry that is read back from where its encoding stands in `data`.
proof fn lemma_framed_encoding(before: Seq<u8>, e: Entry, after: Seq<u8>)
    requires
        encodable(e),
    ensures
        framed(before + entry_encoding(e) + after, before.len() as int) == Some(
            (e, (before.len() + entry_encoding(e).len()) as int),
        ),
        entry_encoding(e).len() == 5 + e.name.len() + e.payload.len(),
{
    let enc = entry_encoding(e);
    let data = before + enc + after;
    let pos = before.len() as int;
    lemma_le32_round_trip(e.payload.len() as int);
    let size = le32_bytes(e.payload.len() as int);
    assert(enc.len() == 5 + e.name.len() + e.payload.len());
    assert(data[pos] == enc[0]);
    assert(enc[0] == e.name.len());
    let name_end = pos + 1 + e.name.len();
    assert forall|k: int| 0 <= k < 4 implies data[name_end + k] == size[k] by {
        assert(data[name_end + k] == enc[1 + e.name.len() + k]);
    }
    assert(le32(data, name_end) == le32(size, 0));
    assert(data.subrange(pos + 1, name_end) =~= e.name);
    assert(data.subrange(name_end + 4, name_end + 4 + e.payload.len()) =~= e.payload);
}

proof fn lemma_entries_behind(before: Seq<u8>, entries: Seq<Entry>)
    requires
        forall|i: int| 0 <= i < entries.len() ==> encodable(#[trigger] entries[i]),
    ensures
        entries_from(before + archive_of(entries), before.len() as int) == entries,
    decreases entries.len(),
{
    let data = before + archive_of(entries);
    if entries.len() == 0 {
        assert(data =~= before);
        assert(entries_from(data, before.len() as int) =~= entries);
    } else {
        let e = entries.first();
        let rest = entries.drop_first();
        let tail = archive_of(rest);
        assert(encodable(entries[0]));
        assert(data =~= before + entry_encoding(e) + tail);
        lemma_framed_encoding(before, e, tail);
        assert forall|i: int| 0 <= i < rest.len() implies encodable(#[trigger] rest[i]) by {
            assert(rest[i] == entries[i + 1]);
        }
        lemma_entries_behind(before + entry_encoding(e), rest);
        assert(before + entry_encoding(e) + tail =~= (before + entry_encoding(e)) + tail);
        assert(seq![e] + rest =~= entries);
    }
}

/// Round trip: reading the archive that holds `entries` gives `entries` back,
/// each with its name and its payload, in their order, and nothing more.
pub proof fn lemma_archive_round_trip(entries: Seq<Entry>)
    requires
        forall|i: int| 0 <= i < entries.len() ==> encodable(#[trigger] entries[i]),
    ensures
        entries_from(archive_of(entries), 0) == entries,
{
    lemma_entries_behind(Seq::empty(), entries);
    assert(Seq::<u8>::empty() + archive_of(entries) =~= archive_of(entries));
}

/// The bytes of the entry with this name and this payload, ready to be
/// appended to an archive. `None` where the name is longer than 255 bytes or
/// the payload's length does not fit four bytes.
pub fn encode_entry(name: &str, payload: &[u8]) -> (r: Option<Vec<u8>>)
    ensures
        match r {
            Some(bytes) => name.spec_bytes().len() <= MAX_NAME_LEN && payload@.len() <= u32::MAX
                && bytes@ == entry_encoding(Entry { name: name.spec_bytes(), payload: payload@ }),
            None => name.spec_bytes().len() > MAX_NAME_LEN || payload@.len() > u32::MAX,
        },
{
    let name_bytes = name.as_bytes();
    if name_bytes.len() > MAX_NAME_LEN || payload.len() > u32::MAX as usize {
        return None;
    }
    let size = payload.len();
    let mut bytes: Vec<u8> = Vec::new();
    bytes.push(name_bytes.len() as u8);
    bytes.extend_from_slice(name_bytes);
    bytes.push((size % 0x100) as u8);
    bytes.push((size / 0x100 % 0x100) as u8);
    bytes.push((size / 0x1_0000 % 0x100) as u8);
    bytes.push((size / 0x100_0000 % 0x100) as u8);
    bytes.extend_from_slice(payload);
    assert(bytes@ =~= entry_encoding(Entry { name: name.spec_bytes(), payload: payload@ }));
    Some(bytes)
}

/// Reads the entries of an archive one after the other.
#[derive(Debug, Clone, Copy)]
pub struct ArchiveReader<'a> {
    data: &'a [u8],
    position: usize,
}

impl<'a> ArchiveReader<'a> {
    /// The bytes of the archive.
    pub closed spec fn data(&self) -> Seq<u8> {
        self.data@
    }

    /// The place of the next entry.
    pub closed spec fn offset(&self) -> int {
        self.position as int
    }

    /// A reader at the first entry of `data`.
    pub fn new(data: &'a [u8]) -> (reader: Self)
        ensures
            reader.data() == data@,
            reader.offset() == 0,
    {
        ArchiveReader { data, position: 0 }
    }

    /// The place of the next entry, in bytes from the start of the archive.
    pub fn position(&self) -> (pos: usize)
        ensures
            pos == self.offset(),
    {
        self.position
    }

    /// Reads the next entry: its name and its payload, borrowed from the
    /// archive.
    ///
    /// `None` where the name at the reader's place is not UTF-8, and the
    /// reader then moves on by one byte; `None` also where the archive ends at
    /// the reader's place or inside the entry there, and the reader then stays
    /// where it is.
    pub fn next_file(&mut self) -> (r: Option<(&'a str, &'a [u8])>)
        ensures
            final(self).data() == old(self).data(),
            match name_at(old(self).data(), old(self).offset()) {
                Some(name) => if !valid_utf8(name) {
                    r is None && final(self).offset() == old(self).offset() + 1
                } else {
                    match framed(old(self).data(), old(self).offset()) {
                        Some((entry, next)) => r matches Some((name, payload))
                            && name.spec_bytes() == entry.name && payload@ == entry.payload
                            && final(self).offset() == next,
                        None => r is None && final(self).offset() == old(self).offset(),
                    }
                },
                None => r is None && final(self).offset() == old(self).offset(),
            },
    {
        let data = self.data;
        let len = data.len();
        if self.position >= len {
            return None;
        }
        let name_len = data[self.position] as usize;
        let name_start = self.position + 1;
        if name_len > len - name_start {
            return None;
        }
        let name_end = name_start + name_len;
        let name = match core::str::from_utf8(vstd::slice::slice_subrange(data, name_start, name_end)) {
            Ok(name) => name,
            Err(_) => {
                self.position = name_start;
                return None;
            },
        };
        if len - name_end < 4 {
            return None;
        }
        let a = data[name_end];
        let b = data[name_end + 1];
        let c = data[name_end + 2];
        let d = data[name_end + 3];
        assert(((a as u32) | ((b as u32) << 8) | ((c as u32) << 16) | ((d as u32) << 24)) == a + b
            * 0x100 + c * 0x1_0000 + d * 0x100_0000) by (bit_vector);
        let data_len = ((a as u32) | ((b as u32) << 8) | ((c as u32) << 16) | ((d as u32)
            << 24)) as usize;
        let start = name_end + 4;
        if data_len > len - start {
            return None;
        }
        let end = start + data_len;
        let payload = vstd::slice::slice_subrange(data, start, end);
        self.position = end;
        Some((name, payload))
    }
}

} // verus!
