//! Packs an ordered list of payloads into one image.

use vstd::prelude::*;
use crate::buffer::{bytes_content, bytes_from_vec};
use crate::codec::{
    entry_bytes, header_bytes, DirEntry, FilesystemHeader, ENTRY_SIZE, HEADER_SIZE, SIGNATURE,
};

verus! {

/// Why a build was abandoned.
#[derive(Debug, Clone, Copy, PartialEq, Eq, Structural)]
pub enum BuilderError {
    /// The image would exceed the capacity, or an offset does not fit in 32 bits.
    OutOfSpace,
    /// The file count does not fit in 16 bits.
    TooManyFiles,
    /// A payload's length does not fit in 32 bits.
    FileTooBig,
}

impl BuilderError {
    /// A short human-readable description.
    pub fn message(&self) -> (r: &'static str)
        ensures
            *self == BuilderError::OutOfSpace ==> r@ == "capacity exceeded"@,
            *self == BuilderError::TooManyFiles ==> r@ == "too many files"@,
            *self == BuilderError::FileTooBig ==> r@ == "file too big"@,
    {
        match self {
            BuilderError::OutOfSpace => "capacity exceeded",
            BuilderError::TooManyFiles => "too many files",
            BuilderError::FileTooBig => "file too big",
        }
    }
}

/// Offset of the first payload in an image of `n` files.
pub open spec fn data_start(n: nat) -> nat {
    (HEADER_SIZE + n * ENTRY_SIZE) as nat
}

/// Sum of the payload lengths.
pub open spec fn total_len(files: Seq<Seq<u8>>) -> nat
    decreases files.len(),
{
    if files.len() == 0 {
        0
    } else {
        total_len(files.drop_last()) + files.last().len()
    }
}

/// The payloads one after another.
pub open spec fn concat(files: Seq<Seq<u8>>) -> Seq<u8>
    decreases files.len(),
{
    if files.len() == 0 {
        seq![]
    } else {
        concat(files.drop_last()) + files.last()
    }
}

/// The directory for payloads laid out from `start` on.
pub open spec fn directory_bytes(files: Seq<Seq<u8>>, start: nat) -> Seq<u8>
    decreases files.len(),
{
    if files.len() == 0 {
        seq![]
    } else {
        let prefix = files.drop_last();
        directory_bytes(prefix, start) + entry_bytes(
            (start + total_len(prefix)) as u32,
            files.last().len() as u32,
        )
    }
}

/// The first fault, in index order, of payloads laid out from `start` on
/// under capacity `cap`.
pub open spec fn layout_fault(files: Seq<Seq<u8>>, start: nat, cap: nat) -> Option<BuilderError>
    decreases files.len(),
{
    if files.len() == 0 {
        None
    } else {
        let prefix = files.drop_last();
        let offset = start + total_len(prefix);
        match layout_fault(prefix, start, cap) {
            Some(e) => Some(e),
            None => if offset > u32::MAX {
                Some(BuilderError::OutOfSpace)
            } else if files.last().len() > u32::MAX {
                Some(BuilderError::FileTooBig)
            } else if offset + files.last().len() > cap {
                Some(BuilderError::OutOfSpace)
            } else {
                None
            },
        }
    }
}

/// Why building `files` under capacity `cap` fails, if it does.
pub open spec fn build_fault(files: Seq<Seq<u8>>, cap: nat) -> Option<BuilderError> {
    if files.len() > u16::MAX {
        Some(BuilderError::TooManyFiles)
    } else {
        layout_fault(files, data_start(files.len()), cap)
    }
}

/// The image of `files`: header, directory, then the payloads in order.
pub open spec fn image_of(files: Seq<Seq<u8>>) -> Seq<u8> {
    header_bytes(SIGNATURE, files.len() as u16) + directory_bytes(
        files,
        data_start(files.len()),
    ) + concat(files)
}

/// A fault among the first `k` payloads is the fault of the whole list.
proof fn lemma_fault_of_prefix(files: Seq<Seq<u8>>, k: int, start: nat, cap: nat)
    requires
        0 <= k <= files.len(),
        layout_fault(files.take(k), start, cap) is Some,
    ensures
        layout_fault(files, start, cap) == layout_fault(files.take(k), start, cap),
    decreases files.len(),
{
    if k == files.len() {
        assert(files.take(k) =~= files);
    } else {
        assert(files.drop_last().take(k) =~= files.take(k));
        lemma_fault_of_prefix(files.drop_last(), k, start, cap);
    }
}

struct FileInfo {
    data: Vec<u8>,
}

/// Collects payloads, then lays them out as an image.
pub struct SimpleFsBuilder {
    capacity: usize,
    files: Vec<FileInfo>,
}

impl SimpleFsBuilder {
    /// The largest image size allowed.
    pub closed spec fn capacity_limit(&self) -> nat {
        self.capacity as nat
    }

    /// The payloads added so far, in order.
    pub closed spec fn payloads(&self) -> Seq<Seq<u8>> {
        self.files@.map_values(|f: FileInfo| f.data@)
    }

    pub fn new(capacity: usize) -> (r: Self)
        ensures
            r.capacity_limit() == capacity,
            r.payloads() == Seq::<Seq<u8>>::empty(),
    {
        let r = SimpleFsBuilder { capacity, files: Vec::new() };
        assert(r.payloads() =~= Seq::<Seq<u8>>::empty());
        r
    }

    /// Appends a payload; it gets the next index.
    pub fn add_file(&mut self, data: Vec<u8>)
        ensures
            final(self).capacity_limit() == old(self).capacity_limit(),
            final(self).payloads() == old(self).payloads().push(data@),
    {
        self.files.push(FileInfo { data });
        assert(self.payloads() =~= old(self).payloads().push(data@));
    }

    /// Lays the payloads out as an image: header, directory, then the payloads
    /// in index order, with no gaps. Fails with the first fault found.
    pub fn finalize(self) -> (r: Result<bytes::Bytes, BuilderError>)
        ensures
            match r {
                Ok(b) => build_fault(self.payloads(), self.capacity_limit()) is None
                    && bytes_content(b) == image_of(self.payloads()),
                Err(e) => build_fault(self.payloads(), self.capacity_limit()) == Some(e),
            },
    {
        let ghost files = self.payloads();
        let ghost cap = self.capacity_limit();
        let n = self.files.len();
        if n > u16::MAX as usize {
            return Err(BuilderError::TooManyFiles);
        }
        let num_files: u16 = n as u16;
        let dir_size: usize = n * ENTRY_SIZE;
        let mut writer: Vec<u8> = Vec::new();
        let header = FilesystemHeader { signature: SIGNATURE, num_files };
        header.to_bytes(&mut writer);
        let ghost start = data_start(n as nat);
        let mut current_offset: usize = HEADER_SIZE + dir_size;
        let mut i: usize = 0;
        assert(files.take(0) =~= Seq::<Seq<u8>>::empty());
        assert(writer@ =~= header_bytes(SIGNATURE, n as u16) + directory_bytes(files.take(0), start));
        while i < n
            invariant
                i <= n,
                n == self.files.len(),
                n <= u16::MAX,
                files == self.payloads(),
                cap == self.capacity_limit(),
                start == data_start(n as nat),
                current_offset == start + total_len(files.take(i as int)),
                layout_fault(files.take(i as int), start, cap) is None,
                writer@ == header_bytes(SIGNATURE, n as u16) + directory_bytes(
                    files.take(i as int),
                    start,
                ),
            decreases n - i,
        {
            let len = self.files[i].data.len();
            let ghost next = files.take(i + 1);
            assert(next.drop_last() =~= files.take(i as int));
            assert(next.last() == files[i as int]);
            if current_offset > u32::MAX as usize {
                proof { lemma_fault_of_prefix(files, i + 1, start, cap); }
                return Err(BuilderError::OutOfSpace);
            }
            if len > u32::MAX as usize {
                proof { lemma_fault_of_prefix(files, i + 1, start, cap); }
                return Err(BuilderError::FileTooBig);
            }
            let entry = DirEntry { offset: current_offset as u32, length: len as u32 };
            match current_offset.checked_add(len) {
                None => {
                    proof { lemma_fault_of_prefix(files, i + 1, start, cap); }
                    return Err(BuilderError::OutOfSpace);
                },
                Some(end) => {
                    current_offset = end;
                },
            }
            if current_offset > self.capacity {
                proof { lemma_fault_of_prefix(files, i + 1, start, cap); }
                return Err(BuilderError::OutOfSpace);
            }
            entry.to_bytes(&mut writer);
            i += 1;
            assert(writer@ =~= header_bytes(SIGNATURE, n as u16) + directory_bytes(
                files.take(i as int),
                start,
            ));
        }
        assert(files.take(n as int) =~= files);
        let ghost front = writer@;
        let mut j: usize = 0;
        assert(writer@ =~= front + concat(files.take(0)));
        while j < n
            invariant
                j <= n,
                n == self.files.len(),
                files == self.payloads(),
                writer@ == front + concat(files.take(j as int)),
            decreases n - j,
        {
            let ghost next = files.take(j + 1);
            assert(next.drop_last() =~= files.take(j as int));
            writer.extend_from_slice(self.files[j].data.as_slice());
            j += 1;
            assert(writer@ =~= front + concat(files.take(j as int)));
        }
        Ok(bytes_from_vec(writer))
    }
}

} // verus!
