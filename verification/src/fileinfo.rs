use vstd::prelude::*;

verus! {

/// The tree a file was discovered in, when two trees are compared.
#[derive(Clone, Copy, Debug, PartialEq, Eq, Structural)]
pub enum FileSource {
    Staging,
    Target,
}

/// The mathematical value of a [`FileInfo`].
pub struct FileRecord {
    pub path: Seq<char>,
    pub size: u64,
    pub source: Option<FileSource>,
    pub processed: bool,
}

/// A discovered file: where it is, how long it is, which tree it came from,
/// and whether the hash stage has already taken it up.
#[derive(Debug)]
pub struct FileInfo {
    pub path: String,
    pub size: u64,
    pub source: Option<FileSource>,
    pub processed: bool,
}

impl View for FileInfo {
    type V = FileRecord;

    open spec fn view(&self) -> FileRecord {
        FileRecord {
            path: self.path@,
            size: self.size,
            source: self.source,
            processed: self.processed,
        }
    }
}

impl DeepView for FileInfo {
    type V = FileRecord;

    open spec fn deep_view(&self) -> FileRecord {
        self@
    }
}

impl Clone for FileInfo {
    fn clone(&self) -> (copy: Self)
        ensures
            copy == *self,
    {
        FileInfo {
            path: self.path.clone(),
            size: self.size,
            source: self.source,
            processed: self.processed,
        }
    }
}

impl FileInfo {
    /// A file that no stage has touched yet and that belongs to no tree.
    pub fn new(path: String, size: u64) -> (file: FileInfo)
        ensures
            file@ == (FileRecord { path: path@, size, source: None, processed: false }),
    {
        FileInfo { path, size, source: None, processed: false }
    }

    /// Whether the hash stage has taken this file up.
    pub fn is_sw_processed(&self) -> (done: bool)
        ensures
            done == self@.processed,
    {
        self.processed
    }

    /// Records that the hash stage has taken this file up.
    pub fn sw_processed(&mut self)
        ensures
            final(self)@ == (FileRecord { processed: true, ..old(self)@ }),
    {
        self.processed = true;
    }
}

} // verus!
