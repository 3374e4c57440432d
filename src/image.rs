//! What a built image holds, and how the mounter reads it back.

use vstd::prelude::*;
use crate::builder::{
    build_fault, concat, data_start, directory_bytes, image_of, layout_fault, total_len,
};
use crate::codec::{
    entry_at, entry_bytes, header_bytes, header_of, lemma_entry_round_trip,
    lemma_header_round_trip, FilesystemHeader, ENTRY_SIZE, HEADER_SIZE, SIGNATURE,
};
use crate::fs::{entry_of, mount_fault, open_fault, read_len, Error};

verus! {

/// Each payload sits in the concatenation right after the ones before it.
proof fn lemma_concat(files: Seq<Seq<u8>>)
    ensures
        concat(files).len() == total_len(files),
        forall|i: int|
            0 <= i < files.len() ==> total_len(#[trigger] files.take(i)) + files[i].len()
                <= total_len(files) && concat(files).subrange(
                total_len(files.take(i)) as int,
                (total_len(files.take(i)) + files[i].len()) as int,
            ) == files[i],
    decreases files.len(),
{
    if files.len() > 0 {
        let p = files.drop_last();
        lemma_concat(p);
        assert forall|i: int| 0 <= i < files.len() implies total_len(#[trigger] files.take(i))
            + files[i].len() <= total_len(files) && concat(files).subrange(
            total_len(files.take(i)) as int,
            (total_len(files.take(i)) + files[i].len()) as int,
        ) == files[i] by {
            if i < files.len() - 1 {
                assert(p.take(i) =~= files.take(i));
                assert(p[i] == files[i]);
                assert(concat(files).subrange(
                    total_len(files.take(i)) as int,
                    (total_len(files.take(i)) + files[i].len()) as int,
                ) =~= concat(p).subrange(
                    total_len(p.take(i)) as int,
                    (total_len(p.take(i)) + p[i].len()) as int,
                ));
            } else {
                assert(files.take(i) =~= p);
                assert(concat(files).subrange(
                    total_len(files.take(i)) as int,
                    (total_len(files.take(i)) + files[i].len()) as int,
                ) =~= files[i]);
            }
        }
    }
}

/// Entry `i` of the directory describes payload `i` at its running offset.
proof fn lemma_directory(files: Seq<Seq<u8>>, start: nat)
    ensures
        directory_bytes(files, start).len() == ENTRY_SIZE * files.len(),
        forall|i: int|
            0 <= i < files.len() ==> directory_bytes(files, start).subrange(
                ENTRY_SIZE * i,
                ENTRY_SIZE * i + ENTRY_SIZE,
            ) == entry_bytes(
                (start + total_len(#[trigger] files.take(i))) as u32,
                files[i].len() as u32,
            ),
    decreases files.len(),
{
    if files.len() > 0 {
        let p = files.drop_last();
        lemma_directory(p, start);
        let o = (start + total_len(p)) as u32;
        let l = files.last().len() as u32;
        lemma_entry_round_trip(o, l);
        assert forall|i: int| 0 <= i < files.len() implies directory_bytes(files, start).subrange(
            ENTRY_SIZE * i,
            ENTRY_SIZE * i + ENTRY_SIZE,
        ) == entry_bytes(
            (start + total_len(#[trigger] files.take(i))) as u32,
            files[i].len() as u32,
        ) by {
            if i < files.len() - 1 {
                assert(p.take(i) =~= files.take(i));
                assert(directory_bytes(files, start).subrange(
                    ENTRY_SIZE * i,
                    ENTRY_SIZE * i + ENTRY_SIZE,
                ) =~= directory_bytes(p, start).subrange(
                    ENTRY_SIZE * i,
                    ENTRY_SIZE * i + ENTRY_SIZE,
                ));
            } else {
                assert(files.take(i) =~= p);
                assert(directory_bytes(files, start).subrange(
                    ENTRY_SIZE * i,
                    ENTRY_SIZE * i + ENTRY_SIZE,
                ) =~= entry_bytes(o, l));
            }
        }
    }
}

/// Without a fault, every offset and length fits its field and every payload
/// ends within the capacity.
proof fn lemma_no_fault(files: Seq<Seq<u8>>, start: nat, cap: nat)
    requires
        layout_fault(files, start, cap) is None,
    ensures
        forall|i: int|
            0 <= i < files.len() ==> start + total_len(#[trigger] files.take(i)) <= u32::MAX
                && files[i].len() <= u32::MAX && start + total_len(files.take(i))
                + files[i].len() <= cap,
    decreases files.len(),
{
    if files.len() > 0 {
        let p = files.drop_last();
        lemma_no_fault(p, start, cap);
        assert forall|i: int| 0 <= i < files.len() implies start + total_len(
            #[trigger] files.take(i),
        ) <= u32::MAX && files[i].len() <= u32::MAX && start + total_len(files.take(i))
            + files[i].len() <= cap by {
            if i < files.len() - 1 {
                assert(p.take(i) =~= files.take(i));
            } else {
                assert(files.take(i) =~= p);
            }
        }
    }
}

/// An image of up to `u16::MAX` payloads is a header with the signature and
/// the payload count, the directory, and the payloads: an image of no payloads
/// is the header alone.
pub proof fn lemma_image_header(files: Seq<Seq<u8>>)
    requires
        files.len() <= u16::MAX,
    ensures
        image_of(files).len() == HEADER_SIZE + ENTRY_SIZE * files.len() + total_len(files),
        header_of(image_of(files)) == (FilesystemHeader {
            signature: SIGNATURE,
            num_files: files.len() as u16,
        }),
        files.len() == 0 ==> image_of(files).len() == HEADER_SIZE,
{
    let n = files.len();
    let dir = directory_bytes(files, data_start(n));
    lemma_concat(files);
    lemma_directory(files, data_start(n));
    assert(image_of(files) =~= header_bytes(SIGNATURE, n as u16) + (dir + concat(files)));
    lemma_header_round_trip(SIGNATURE, n as u16, dir + concat(files));
}

/// An image built without a fault mounts, reports the number of payloads,
/// and file `i` opens onto exactly payload `i`.
pub proof fn lemma_round_trip<E>(files: Seq<Seq<u8>>, cap: nat)
    requires
        build_fault(files, cap) is None,
    ensures
        mount_fault::<E>(image_of(files)) is None,
        header_of(image_of(files)).num_files == files.len(),
        forall|i: int|
            0 <= i < files.len() ==> open_fault::<E>(image_of(files), files.len() as u16, i) is None
                && image_of(files).subrange(
                #[trigger] entry_of(image_of(files), i).offset as int,
                entry_of(image_of(files), i).offset + entry_of(image_of(files), i).length,
            ) == files[i],
{
    let n = files.len();
    let start = data_start(n);
    let d = image_of(files);
    let h = header_bytes(SIGNATURE, n as u16);
    let dir = directory_bytes(files, start);
    let c = concat(files);
    lemma_image_header(files);
    lemma_concat(files);
    lemma_directory(files, start);
    lemma_no_fault(files, start, cap);
    assert forall|i: int| 0 <= i < files.len() implies open_fault::<E>(d, n as u16, i) is None
        && d.subrange(
        #[trigger] entry_of(d, i).offset as int,
        entry_of(d, i).offset + entry_of(d, i).length,
    ) == files[i] by {
        let before = total_len(files.take(i));
        let o = (start + before) as u32;
        let l = files[i].len() as u32;
        let at = HEADER_SIZE + ENTRY_SIZE * i;
        lemma_entry_round_trip(o, l);
        assert(d.subrange(at, at + ENTRY_SIZE) =~= dir.subrange(
            ENTRY_SIZE * i,
            ENTRY_SIZE * i + ENTRY_SIZE,
        ));
        let sub = d.subrange(at, at + ENTRY_SIZE);
        assert(entry_at(d, at) == entry_at(sub, 0));
        assert(entry_of(d, i) == entry_at(d, at));
        assert(d.subrange(o as int, o + l) =~= c.subrange(before as int, before + l));
    }
}

/// A file index at or past the count is refused as an invalid index.
pub proof fn lemma_index_bounds<E>(d: Seq<u8>, n: u16, index: int)
    requires
        index >= n,
    ensures
        open_fault::<E>(d, n, index) == Some(Error::<E>::InvalidFileIndex),
{
}

/// Bytes too short for a header, a wrong signature, or a directory that does
/// not fit are each refused, with the matching error.
pub proof fn lemma_corruption_rejected<E>(d: Seq<u8>)
    ensures
        d.len() < HEADER_SIZE ==> mount_fault::<E>(d) == Some(Error::<E>::CorruptedFileSystem),
        d.len() >= HEADER_SIZE && header_of(d).signature != SIGNATURE ==> mount_fault::<E>(d)
            == Some(Error::<E>::InvalidSignature),
        d.len() >= HEADER_SIZE && header_of(d).signature == SIGNATURE && d.len() < HEADER_SIZE
            + ENTRY_SIZE * header_of(d).num_files ==> mount_fault::<E>(d) == Some(
            Error::<E>::CorruptedFileSystem,
        ),
{
}

/// Two reads that follow one another on a file, from `position` on, return
/// consecutive pieces of its data that together are what one read over both
/// spans returns; the cursor never passes the end, a read with a buffer as
/// long as what is left reaches the end, and at the end a read returns nothing.
pub proof fn lemma_sequential_reads(data: Seq<u8>, position: nat, first: nat, second: nat)
    requires
        position <= data.len(),
    ensures
        ({
            let p = position as int;
            let n1 = read_len(first, data.len(), position) as int;
            let n2 = read_len(second, data.len(), (p + n1) as nat) as int;
            &&& p + n1 + n2 <= data.len()
            &&& data.subrange(p, p + n1) + data.subrange(p + n1, p + n1 + n2) == data.subrange(
                p,
                p + n1 + n2,
            )
        }),
        first >= data.len() - position ==> position + read_len(first, data.len(), position)
            == data.len(),
        read_len(first, data.len(), data.len()) == 0,
{
    let p = position as int;
    let n1 = read_len(first, data.len(), position) as int;
    let n2 = read_len(second, data.len(), (p + n1) as nat) as int;
    assert(data.subrange(p, p + n1) + data.subrange(p + n1, p + n1 + n2) =~= data.subrange(
        p,
        p + n1 + n2,
    ));
}

} // verus!
