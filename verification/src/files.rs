//! Files as the store sees them: a sequence of bytes that can be appended
//! to, or one that is fixed and can be read at any offset.

use vstd::prelude::*;
use vstd::slice::{slice_subrange, slice_to_vec};

verus! {

/// Why a read of a file failed.
#[derive(Debug, Clone, Copy, PartialEq, Eq)]
pub enum FileError {
    /// The read would go past the end of the file.
    UnexpectedEof,
}

/// A file that grows at its end.
#[derive(Debug)]
pub struct AppendableFile {
    data: Vec<u8>,
}

impl View for AppendableFile {
    type V = Seq<u8>;

    closed spec fn view(&self) -> Seq<u8> {
        self.data@
    }
}

impl AppendableFile {
    /// A file that holds `data`; new bytes go after them.
    pub fn new(data: Vec<u8>) -> (f: AppendableFile)
        ensures
            f@ == data@,
    {
        AppendableFile { data }
    }

    /// The number of bytes in the file.
    pub fn size(&self) -> (n: u64)
        ensures
            n == self@.len(),
    {
        self.data.len() as u64
    }

    /// Puts `buffer` at the end of the file.
    pub fn append(&mut self, buffer: &[u8])
        ensures
            final(self)@ == old(self)@ + buffer@,
    {
        self.data.extend_from_slice(buffer);
        assert(self.data@ =~= old(self).data@ + buffer@);
    }

    /// A copy of the bytes of the file.
    pub fn bytes(&self) -> (b: Vec<u8>)
        ensures
            b@ == self@,
    {
        slice_to_vec(self.data.as_slice())
    }

    /// Empties the file.
    pub fn clear(&mut self)
        ensures
            final(self)@ == Seq::<u8>::empty(),
    {
        self.data.clear();
    }

    /// Ends the writing: the bytes of the file, as a file that no longer
    /// changes.
    pub fn close(self) -> (f: ImmutableFile)
        ensures
            f@ == self@,
    {
        ImmutableFile { data: self.data }
    }
}

/// A file whose bytes are fixed.
#[derive(Debug)]
pub struct ImmutableFile {
    data: Vec<u8>,
}

impl View for ImmutableFile {
    type V = Seq<u8>;

    closed spec fn view(&self) -> Seq<u8> {
        self.data@
    }
}

impl ImmutableFile {
    /// A file that holds `data`.
    pub fn create(data: Vec<u8>) -> (f: ImmutableFile)
        ensures
            f@ == data@,
    {
        ImmutableFile { data }
    }

    /// The number of bytes in the file.
    pub fn size(&self) -> (n: u64)
        ensures
            n == self@.len(),
    {
        self.data.len() as u64
    }

    /// A reader of this file. Any number of readers may exist at once.
    pub fn new_reader(&self) -> (r: FileReader<'_>)
        ensures
            r@ == self@,
    {
        FileReader::new(self)
    }

    /// The bytes of the file.
    pub fn into_bytes(self) -> (data: Vec<u8>)
        ensures
            data@ == self@,
    {
        self.data
    }
}

/// Reads an immutable file at chosen offsets.
#[derive(Debug)]
pub struct FileReader<'a> {
    owner: &'a ImmutableFile,
}

impl<'a> View for FileReader<'a> {
    type V = Seq<u8>;

    closed spec fn view(&self) -> Seq<u8> {
        self.owner@
    }
}

impl<'a> FileReader<'a> {
    pub fn new(owner: &'a ImmutableFile) -> (r: FileReader<'a>)
        ensures
            r@ == owner@,
    {
        FileReader { owner }
    }

    /// The number of bytes in the file.
    pub fn size(&self) -> (n: u64)
        ensures
            n == self@.len(),
    {
        self.owner.size()
    }

    /// The `size` bytes that start at `offset`, where the file holds them all.
    pub fn read(&self, offset: u64, size: u64) -> (r: Result<Vec<u8>, FileError>)
        ensures
            match r {
                Ok(bytes) => offset + size <= self@.len() && bytes@ == self@.subrange(
                    offset as int,
                    offset + size,
                ),
                Err(e) => offset + size > self@.len() && e == FileError::UnexpectedEof,
            },
    {
        let len = self.owner.data.len() as u64;
        if offset > len || size > len - offset {
            return Err(FileError::UnexpectedEof);
        }
        let from = offset as usize;
        let to = (offset + size) as usize;
        Ok(slice_to_vec(slice_subrange(self.owner.data.as_slice(), from, to)))
    }

    /// The `N` bytes that start at `offset`, where the file holds them all.
    pub fn read_fixed<const N: usize>(&self, offset: u64) -> (r: Result<[u8; N], FileError>)
        ensures
            match r {
                Ok(bytes) => offset + N <= self@.len() && bytes@ == self@.subrange(
                    offset as int,
                    offset + N,
                ),
                Err(e) => offset + N > self@.len() && e == FileError::UnexpectedEof,
            },
    {
        let len = self.owner.data.len();
        if offset > len as u64 || N > len - offset as usize {
            return Err(FileError::UnexpectedEof);
        }
        let from = offset as usize;
        let mut buffer: [u8; N] = [0; N];
        let mut i: usize = 0;
        while i < N
            invariant
                i <= N,
                from + N <= self.owner.data@.len() <= usize::MAX,
                forall|j: int| 0 <= j < i ==> buffer@[j] == self.owner.data@[from + j],
            decreases N - i,
        {
            buffer[i] = self.owner.data[from + i];
            i += 1;
        }
        assert(buffer@ =~= self@.subrange(offset as int, offset + N));
        Ok(buffer)
    }

    /// All the bytes of the file.
    pub fn read_all(&self) -> (bytes: Vec<u8>)
        ensures
            bytes@ == self@,
    {
        slice_to_vec(self.owner.data.as_slice())
    }
}

} // verus!
