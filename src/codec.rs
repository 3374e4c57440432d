//! Fixed-width, big-endian records at the start of an image.

use vstd::prelude::*;

verus! {

/// Size in bytes of the header record.
pub const HEADER_SIZE: usize = 10;

/// Size in bytes of one directory entry.
pub const ENTRY_SIZE: usize = 8;

/// The format's signature, the ASCII text "SimpleFS".
pub const SIGNATURE: u64 = 0x53696d706c654653;

/// Big-endian bytes of a 16-bit value.
pub open spec fn u16_be(v: u16) -> Seq<u8> {
    seq![(v >> 8u16) as u8, v as u8]
}

/// Big-endian bytes of a 32-bit value.
pub open spec fn u32_be(v: u32) -> Seq<u8> {
    seq![(v >> 24u32) as u8, (v >> 16u32) as u8, (v >> 8u32) as u8, v as u8]
}

/// Big-endian bytes of a 64-bit value.
pub open spec fn u64_be(v: u64) -> Seq<u8> {
    seq![
        (v >> 56u64) as u8,
        (v >> 48u64) as u8,
        (v >> 40u64) as u8,
        (v >> 32u64) as u8,
        (v >> 24u64) as u8,
        (v >> 16u64) as u8,
        (v >> 8u64) as u8,
        v as u8,
    ]
}

/// The 16-bit value stored big-endian in `s` at `at`.
pub open spec fn u16_at(s: Seq<u8>, at: int) -> u16 {
    ((s[at] as u16) << 8u16) | (s[at + 1] as u16)
}

/// The 32-bit value stored big-endian in `s` at `at`.
pub open spec fn u32_at(s: Seq<u8>, at: int) -> u32 {
    ((s[at] as u32) << 24u32) | ((s[at + 1] as u32) << 16u32) | ((s[at + 2] as u32) << 8u32) | (
    s[at + 3] as u32)
}

/// The 64-bit value stored big-endian in `s` at `at`.
pub open spec fn u64_at(s: Seq<u8>, at: int) -> u64 {
    ((s[at] as u64) << 56u64) | ((s[at + 1] as u64) << 48u64) | ((s[at + 2] as u64) << 40u64) | ((
    s[at + 3] as u64) << 32u64) | ((s[at + 4] as u64) << 24u64) | ((s[at + 5] as u64) << 16u64)
        | ((s[at + 6] as u64) << 8u64) | (s[at + 7] as u64)
}

proof fn lemma_u16_round_trip(v: u16)
    ensures
        u16_at(u16_be(v), 0) == v,
{
    let b = u16_be(v);
    let (b0, b1) = (b[0], b[1]);
    assert(b0 == (v >> 8u16) as u8 && b1 == v as u8);
    assert((((b0 as u16) << 8u16) | (b1 as u16)) == v) by (bit_vector)
        requires
            b0 == (v >> 8u16) as u8,
            b1 == v as u8,
    ;
}

proof fn lemma_u32_round_trip(v: u32)
    ensures
        u32_at(u32_be(v), 0) == v,
{
    let b = u32_be(v);
    let (b0, b1, b2, b3) = (b[0], b[1], b[2], b[3]);
    assert(b0 == (v >> 24u32) as u8 && b1 == (v >> 16u32) as u8 && b2 == (v >> 8u32) as u8 && b3
        == v as u8);
    assert((((b0 as u32) << 24u32) | ((b1 as u32) << 16u32) | ((b2 as u32) << 8u32) | (b3 as u32))
        == v) by (bit_vector)
        requires
            b0 == (v >> 24u32) as u8,
            b1 == (v >> 16u32) as u8,
            b2 == (v >> 8u32) as u8,
            b3 == v as u8,
    ;
}

proof fn lemma_u64_round_trip(v: u64)
    ensures
        u64_at(u64_be(v), 0) == v,
{
    let b = u64_be(v);
    let (b0, b1, b2, b3, b4, b5, b6, b7) = (b[0], b[1], b[2], b[3], b[4], b[5], b[6], b[7]);
    assert(b0 == (v >> 56u64) as u8 && b1 == (v >> 48u64) as u8 && b2 == (v >> 40u64) as u8 && b3
        == (v >> 32u64) as u8 && b4 == (v >> 24u64) as u8 && b5 == (v >> 16u64) as u8 && b6 == (v
        >> 8u64) as u8 && b7 == v as u8);
    assert((((b0 as u64) << 56u64) | ((b1 as u64) << 48u64) | ((b2 as u64) << 40u64) | ((
    b3 as u64) << 32u64) | ((b4 as u64) << 24u64) | ((b5 as u64) << 16u64) | ((b6 as u64) << 8u64)
        | (b7 as u64)) == v) by (bit_vector)
        requires
            b0 == (v >> 56u64) as u8,
            b1 == (v >> 48u64) as u8,
            b2 == (v >> 40u64) as u8,
            b3 == (v >> 32u64) as u8,
            b4 == (v >> 24u64) as u8,
            b5 == (v >> 16u64) as u8,
            b6 == (v >> 8u64) as u8,
            b7 == v as u8,
    ;
}

/// The header, stored once at offset 0 of an image.
pub struct FilesystemHeader {
    pub signature: u64,
    pub num_files: u16,
}

/// The header that the first `HEADER_SIZE` bytes of `s` hold.
pub open spec fn header_of(s: Seq<u8>) -> FilesystemHeader {
    FilesystemHeader { signature: u64_at(s, 0), num_files: u16_at(s, 8) }
}

/// The bytes of a header with these fields.
pub open spec fn header_bytes(signature: u64, num_files: u16) -> Seq<u8> {
    u64_be(signature) + u16_be(num_files)
}

/// Decoding what was encoded gives the fields back, whatever follows.
pub proof fn lemma_header_round_trip(signature: u64, num_files: u16, rest: Seq<u8>)
    ensures
        (header_bytes(signature, num_files) + rest).len() == HEADER_SIZE + rest.len(),
        header_of(header_bytes(signature, num_files) + rest) == (FilesystemHeader {
            signature,
            num_files,
        }),
{
    let s = header_bytes(signature, num_files) + rest;
    lemma_u64_round_trip(signature);
    lemma_u16_round_trip(num_files);
    assert(s.subrange(0, 8) == u64_be(signature));
    assert(s.subrange(8, 10) == u16_be(num_files));
    assert(u64_at(s, 0) == u64_at(s.subrange(0, 8), 0));
    assert(u16_at(s, 8) == u16_at(s.subrange(8, 10), 0));
}

impl FilesystemHeader {
    /// Reads a header from the front of `reader` and moves `reader` past it;
    /// with fewer than `HEADER_SIZE` bytes left, gives `None` and leaves it.
    pub fn from_bytes(reader: &mut &[u8]) -> (r: Option<Self>)
        ensures
            old(reader)@.len() < HEADER_SIZE ==> r is None && final(reader)@ == old(reader)@,
            old(reader)@.len() >= HEADER_SIZE ==> r == Some(header_of(old(reader)@))
                && final(reader)@ == old(reader)@.subrange(
                HEADER_SIZE as int,
                old(reader)@.len() as int,
            ),
    {
        if reader.len() < HEADER_SIZE {
            return None;
        }
        let (head, rest) = reader.split_at(HEADER_SIZE);
        let signature = read_u64(head, 0);
        let num_files = read_u16(head, 8);
        *reader = rest;
        Some(FilesystemHeader { signature, num_files })
    }

    /// Appends the header's bytes to `writer`.
    pub fn to_bytes(&self, writer: &mut Vec<u8>)
        ensures
            final(writer)@ == old(writer)@ + header_bytes(self.signature, self.num_files),
    {
        put_u64(writer, self.signature);
        put_u16(writer, self.num_files);
        assert(final(writer)@ =~= old(writer)@ + header_bytes(self.signature, self.num_files));
    }
}

/// One directory entry: where a file's data starts in the image, and its length.
pub struct DirEntry {
    pub offset: u32,
    pub length: u32,
}

/// The entry that `s` holds at `at`.
pub open spec fn entry_at(s: Seq<u8>, at: int) -> DirEntry {
    DirEntry { offset: u32_at(s, at), length: u32_at(s, at + 4) }
}

/// The bytes of an entry with these fields.
pub open spec fn entry_bytes(offset: u32, length: u32) -> Seq<u8> {
    u32_be(offset) + u32_be(length)
}

/// Decoding an encoded entry gives its fields back.
pub proof fn lemma_entry_round_trip(offset: u32, length: u32)
    ensures
        entry_bytes(offset, length).len() == ENTRY_SIZE,
        entry_at(entry_bytes(offset, length), 0) == (DirEntry { offset, length }),
{
    let s = entry_bytes(offset, length);
    lemma_u32_round_trip(offset);
    lemma_u32_round_trip(length);
    assert(s.subrange(0, 4) == u32_be(offset));
    assert(s.subrange(4, 8) == u32_be(length));
    assert(u32_at(s, 0) == u32_at(s.subrange(0, 4), 0));
    assert(u32_at(s, 4) == u32_at(s.subrange(4, 8), 0));
}

impl DirEntry {
    /// Reads an entry from the front of `reader` and moves `reader` past it;
    /// with fewer than `ENTRY_SIZE` bytes left, gives `None` and leaves it.
    pub fn from_bytes(reader: &mut &[u8]) -> (r: Option<Self>)
        ensures
            old(reader)@.len() < ENTRY_SIZE ==> r is None && final(reader)@ == old(reader)@,
            old(reader)@.len() >= ENTRY_SIZE ==> r == Some(entry_at(old(reader)@, 0))
                && final(reader)@ == old(reader)@.subrange(
                ENTRY_SIZE as int,
                old(reader)@.len() as int,
            ),
    {
        if reader.len() < ENTRY_SIZE {
            return None;
        }
        let (head, rest) = reader.split_at(ENTRY_SIZE);
        let offset = read_u32(head, 0);
        let length = read_u32(head, 4);
        *reader = rest;
        Some(DirEntry { offset, length })
    }

    /// Appends the entry's bytes to `writer`.
    pub fn to_bytes(&self, writer: &mut Vec<u8>)
        ensures
            final(writer)@ == old(writer)@ + entry_bytes(self.offset, self.length),
    {
        put_u32(writer, self.offset);
        put_u32(writer, self.length);
        assert(final(writer)@ =~= old(writer)@ + entry_bytes(self.offset, self.length));
    }
}

fn read_u16(s: &[u8], at: usize) -> (r: u16)
    requires
        at + 2 <= s@.len(),
    ensures
        r == u16_at(s@, at as int),
{
    ((s[at] as u16) << 8u16) | (s[at + 1] as u16)
}

fn read_u32(s: &[u8], at: usize) -> (r: u32)
    requires
        at + 4 <= s@.len(),
    ensures
        r == u32_at(s@, at as int),
{
    ((s[at] as u32) << 24u32) | ((s[at + 1] as u32) << 16u32) | ((s[at + 2] as u32) << 8u32) | (
    s[at + 3] as u32)
}

fn read_u64(s: &[u8], at: usize) -> (r: u64)
    requires
        at + 8 <= s@.len(),
    ensures
        r == u64_at(s@, at as int),
{
    ((s[at] as u64) << 56u64) | ((s[at + 1] as u64) << 48u64) | ((s[at + 2] as u64) << 40u64) | ((
    s[at + 3] as u64) << 32u64) | ((s[at + 4] as u64) << 24u64) | ((s[at + 5] as u64) << 16u64)
        | ((s[at + 6] as u64) << 8u64) | (s[at + 7] as u64)
}

fn put_u16(w: &mut Vec<u8>, v: u16)
    ensures
        final(w)@ == old(w)@ + u16_be(v),
{
    w.push((v >> 8u16) as u8);
    w.push(v as u8);
    assert(w@ =~= old(w)@ + u16_be(v));
}

fn put_u32(w: &mut Vec<u8>, v: u32)
    ensures
        final(w)@ == old(w)@ + u32_be(v),
{
    w.push((v >> 24u32) as u8);
    w.push((v >> 16u32) as u8);
    w.push((v >> 8u32) as u8);
    w.push(v as u8);
    assert(w@ =~= old(w)@ + u32_be(v));
}

fn put_u64(w: &mut Vec<u8>, v: u64)
    ensures
        final(w)@ == old(w)@ + u64_be(v),
{
    w.push((v >> 56u64) as u8);
    w.push((v >> 48u64) as u8);
    w.push((v >> 40u64) as u8);
    w.push((v >> 32u64) as u8);
    w.push((v >> 24u64) as u8);
    w.push((v >> 16u64) as u8);
    w.push((v >> 8u64) as u8);
    w.push(v as u8);
    assert(w@ =~= old(w)@ + u64_be(v));
}

} // verus!
