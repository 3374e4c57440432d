//! Mounting an image from a storage backend and reading its files by index.

use vstd::prelude::*;
use crate::codec::{
    entry_at, header_of, DirEntry, FilesystemHeader, ENTRY_SIZE, HEADER_SIZE, SIGNATURE,
};

verus! {

/// A read-only, byte-addressable storage medium.
pub trait Storage {
    /// The backend's own failure kind.
    type Error;

    /// The bytes the medium holds.
    spec fn contents(&self) -> Seq<u8>;

    /// Whether reads of this medium within its bounds always succeed.
    spec fn infallible(&self) -> bool;

    /// Total size in bytes.
    fn capacity(&self) -> (r: usize)
        ensures
            r == self.contents().len(),
    ;

    /// Fills `buf` with the bytes at `off`, or fails. Never called past the end.
    fn read(&self, off: usize, buf: &mut [u8]) -> (r: Result<(), Self::Error>)
        requires
            off + old(buf)@.len() <= self.contents().len(),
        ensures
            final(buf)@.len() == old(buf)@.len(),
            self.infallible() ==> r is Ok,
            r is Ok ==> final(buf)@ == self.contents().subrange(
                off as int,
                off + old(buf)@.len(),
            ),
    ;
}

/// Why a mount, an open or a read failed.
#[derive(Debug, Clone, Copy, PartialEq, Eq, PartialOrd, Ord)]
pub enum Error<E> {
    /// The header does not carry the format's signature.
    InvalidSignature,
    /// The header, the directory or an entry does not fit the storage.
    CorruptedFileSystem,
    /// No file has this index.
    InvalidFileIndex,
    /// The backend failed.
    Storage(E),
}

impl<E> From<E> for Error<E> {
    /// Wraps a backend failure.
    fn from(error: E) -> (r: Self)
        ensures
            r == Error::Storage(error),
    {
        Error::Storage(error)
    }
}

impl<E> vstd::std_specs::convert::FromSpecImpl<E> for Error<E> {
    open spec fn obeys_from_spec() -> bool {
        true
    }

    open spec fn from_spec(v: E) -> Error<E> {
        Error::Storage(v)
    }
}

/// Why an image with these bytes does not mount, if it does not.
pub open spec fn mount_fault<E>(d: Seq<u8>) -> Option<Error<E>> {
    if d.len() < HEADER_SIZE {
        Some(Error::CorruptedFileSystem)
    } else if header_of(d).signature != SIGNATURE {
        Some(Error::InvalidSignature)
    } else if d.len() < HEADER_SIZE + header_of(d).num_files * ENTRY_SIZE {
        Some(Error::CorruptedFileSystem)
    } else {
        None
    }
}

/// The directory entry of file `index` in image bytes `d`.
pub open spec fn entry_of(d: Seq<u8>, index: int) -> DirEntry {
    entry_at(d, HEADER_SIZE + index * ENTRY_SIZE)
}

/// Why file `index` of a mounted image with bytes `d` and `n` files does not
/// open, if it does not.
pub open spec fn open_fault<E>(d: Seq<u8>, n: u16, index: int) -> Option<Error<E>> {
    if index >= n {
        Some(Error::InvalidFileIndex)
    } else if entry_of(d, index).offset + entry_of(d, index).length > d.len() {
        Some(Error::CorruptedFileSystem)
    } else {
        None
    }
}

/// A mounted image.
pub struct FileSystem<S: Storage> {
    storage: S,
    num_files: u16,
}

impl<S: Storage> FileSystem<S> {
    /// The backend.
    pub closed spec fn backend(&self) -> S {
        self.storage
    }

    /// The file count read at mount time.
    pub closed spec fn file_count(&self) -> u16 {
        self.num_files
    }

    #[verifier::type_invariant]
    closed spec fn inv(&self) -> bool {
        &&& mount_fault::<S::Error>(self.storage.contents()) is None
        &&& self.num_files == header_of(self.storage.contents()).num_files
    }

    /// Checks the header and that the directory fits, and keeps the file count.
    pub fn mount(storage: S) -> (r: Result<Self, Error<S::Error>>)
        ensures
            match r {
                Ok(fs) => mount_fault::<S::Error>(storage.contents()) is None && fs.backend()
                    == storage && fs.file_count() == header_of(storage.contents()).num_files,
                Err(Error::Storage(_)) => !storage.infallible() && storage.contents().len()
                    >= HEADER_SIZE,
                Err(e) => mount_fault::<S::Error>(storage.contents()) == Some(e),
            },
            storage.infallible() ==> (r is Ok <==> mount_fault::<S::Error>(storage.contents()) is None),
    {
        if storage.capacity() < HEADER_SIZE {
            return Err(Error::CorruptedFileSystem);
        }
        let mut buf: [u8; 10] = [0u8; 10];
        match storage.read(0, &mut buf) {
            Ok(()) => {},
            Err(e) => return Err(Error::Storage(e)),
        }
        let mut reader: &[u8] = buf.as_slice();
        let header = match FilesystemHeader::from_bytes(&mut reader) {
            Some(h) => h,
            None => return Err(Error::CorruptedFileSystem),
        };
        assert(header == header_of(storage.contents()));
        if header.signature != SIGNATURE {
            return Err(Error::InvalidSignature);
        }
        if storage.capacity() < HEADER_SIZE + header.num_files as usize * ENTRY_SIZE {
            return Err(Error::CorruptedFileSystem);
        }
        Ok(FileSystem { storage, num_files: header.num_files })
    }

    /// The number of files in the image.
    pub fn get_num_files(&self) -> (r: u16)
        ensures
            r == self.file_count(),
    {
        self.num_files
    }

    /// Opens file `index`, reading its directory entry again and checking that
    /// its data lies inside the storage.
    pub fn open(&self, index: usize) -> (r: Result<File<'_, S>, Error<S::Error>>)
        ensures
            match r {
                Ok(f) => open_fault::<S::Error>(
                    self.backend().contents(),
                    self.file_count(),
                    index as int,
                ) is None && f.backend() == self.backend()
                    && f.offset() == entry_of(self.backend().contents(), index as int).offset
                    && f.size() == entry_of(self.backend().contents(), index as int).length
                    && f.position() == 0,
                Err(Error::Storage(_)) => !self.backend().infallible() && index
                    < self.file_count(),
                Err(e) => open_fault::<S::Error>(
                    self.backend().contents(),
                    self.file_count(),
                    index as int,
                ) == Some(e),
            },
            self.backend().infallible() ==> (r is Ok <==> open_fault::<S::Error>(
                self.backend().contents(),
                self.file_count(),
                index as int,
            ) is None),
    {
        proof { use_type_invariant(self); }
        if index >= self.num_files as usize {
            return Err(Error::InvalidFileIndex);
        }
        let mut buf: [u8; 8] = [0u8; 8];
        let at: usize = HEADER_SIZE + index * ENTRY_SIZE;
        match self.storage.read(at, &mut buf) {
            Ok(()) => {},
            Err(e) => return Err(Error::Storage(e)),
        }
        let mut reader: &[u8] = buf.as_slice();
        let direntry = match DirEntry::from_bytes(&mut reader) {
            Some(d) => d,
            None => return Err(Error::CorruptedFileSystem),
        };
        assert(direntry == entry_of(self.storage.contents(), index as int));
        if direntry.offset as usize > self.storage.capacity() || direntry.length as usize
            > self.storage.capacity() - direntry.offset as usize {
            return Err(Error::CorruptedFileSystem);
        }
        Ok(File::new(&self.storage, &direntry))
    }
}

/// A read cursor over one file of a mounted image.
#[derive(Debug)]
pub struct File<'a, S: Storage> {
    storage: &'a S,
    file_offset: usize,
    file_size: usize,
    read_position: usize,
}

/// How many bytes a read into a buffer of `buf_len` bytes returns when
/// `size` bytes of the file remain from `position` on.
pub open spec fn read_len(buf_len: nat, size: nat, position: nat) -> nat {
    let left = (size - position) as nat;
    if buf_len < left {
        buf_len
    } else {
        left
    }
}

impl<'a, S: Storage> File<'a, S> {
    /// The backend.
    pub closed spec fn backend(&self) -> S {
        *self.storage
    }

    /// Where the file's data starts in the storage.
    pub closed spec fn offset(&self) -> nat {
        self.file_offset as nat
    }

    /// The file's length.
    pub closed spec fn size(&self) -> nat {
        self.file_size as nat
    }

    /// How many bytes have been read so far.
    pub closed spec fn position(&self) -> nat {
        self.read_position as nat
    }

    /// The file's bytes.
    pub open spec fn data(&self) -> Seq<u8> {
        self.backend().contents().subrange(self.offset() as int, (self.offset() + self.size()) as int)
    }

    #[verifier::type_invariant]
    closed spec fn inv(&self) -> bool {
        &&& self.file_offset + self.file_size <= self.storage.contents().len()
        &&& self.read_position <= self.file_size
        &&& self.storage.contents().len() <= usize::MAX
    }

    fn new(storage: &'a S, direntry: &DirEntry) -> (r: Self)
        requires
            direntry.offset + direntry.length <= storage.contents().len(),
            storage.contents().len() <= usize::MAX,
        ensures
            r.backend() == *storage,
            r.offset() == direntry.offset,
            r.size() == direntry.length,
            r.position() == 0,
    {
        File {
            storage,
            file_offset: direntry.offset as usize,
            file_size: direntry.length as usize,
            read_position: 0,
        }
    }

    pub fn total_size(&self) -> (r: usize)
        ensures
            r == self.size(),
    {
        self.file_size
    }

    /// Reads the next bytes of the file into the front of `buf`, as many as
    /// fit and remain, and moves the cursor past them. Gives 0 at the end.
    pub fn read(&mut self, buf: &mut [u8]) -> (r: Result<usize, Error<S::Error>>)
        ensures
            final(self).backend() == old(self).backend(),
            final(self).offset() == old(self).offset(),
            final(self).size() == old(self).size(),
            final(buf)@.len() == old(buf)@.len(),
            match r {
                Ok(n) => {
                    &&& n == read_len(old(buf)@.len(), old(self).size(), old(self).position())
                    &&& final(self).position() == old(self).position() + n
                    &&& final(buf)@.take(n as int) == old(self).data().subrange(
                        old(self).position() as int,
                        old(self).position() + n,
                    )
                    &&& final(buf)@.skip(n as int) == old(buf)@.skip(n as int)
                },
                Err(e) => e is Storage && !old(self).backend().infallible() && final(self).position()
                    == old(self).position()
                    && read_len(old(buf)@.len(), old(self).size(), old(self).position()) > 0,
            },
    {
        proof { use_type_invariant(&*self); }
        let max_read = self.file_size - self.read_position;
        let bytes_to_read = if buf.len() < max_read { buf.len() } else { max_read };
        let ghost data = self.data();
        let ghost pos = self.read_position as int;
        if bytes_to_read > 0 {
            let (head, _tail) = buf.split_at_mut(bytes_to_read);
            match self.storage.read(self.file_offset + self.read_position, head) {
                Ok(()) => {},
                Err(e) => return Err(Error::Storage(e)),
            }
            self.read_position = self.read_position + bytes_to_read;
        }
        assert(buf@.take(bytes_to_read as int) =~= data.subrange(pos, pos + bytes_to_read));
        assert(buf@.skip(bytes_to_read as int) =~= old(buf)@.skip(bytes_to_read as int));
        Ok(bytes_to_read)
    }
}

} // verus!
