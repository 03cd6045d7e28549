//! Plain records of what a directory scan sees: one `FileRecord` per regular
//! file, carrying its name, absolute path, last-modified time and size.
//! The scan itself is filesystem I/O and happens outside the library; every
//! decision made on its results is verified here against the `FileRecordV`
//! model.

use vstd::prelude::*;

verus! {

/// Mathematical model of one scanned file.
pub ghost struct FileRecordV {
    pub name: Seq<char>,
    pub path: Seq<char>,
    pub modified: u64,
    pub size: u64,
}

/// One regular file seen by a directory scan: file name (with extension),
/// absolute path, last-modified timestamp (seconds), and size in bytes.
pub struct FileRecord {
    pub name: String,
    pub path: String,
    pub modified: u64,
    pub size: u64,
}

impl View for FileRecord {
    type V = FileRecordV;

    open spec fn view(&self) -> FileRecordV {
        FileRecordV {
            name: self.name@,
            path: self.path@,
            modified: self.modified,
            size: self.size,
        }
    }
}

impl DeepView for FileRecord {
    type V = FileRecordV;

    open spec fn deep_view(&self) -> FileRecordV {
        self@
    }
}

impl FileRecord {
    pub fn new(name: String, path: String, modified: u64, size: u64) -> (r: FileRecord)
        ensures
            r@ == (FileRecordV { name: name@, path: path@, modified, size }),
    {
        FileRecord { name, path, modified, size }
    }

    /// A copy of this record, equal under the model.
    pub fn duplicate(&self) -> (r: FileRecord)
        ensures
            r@ == self@,
    {
        FileRecord {
            name: self.name.clone(),
            path: self.path.clone(),
            modified: self.modified,
            size: self.size,
        }
    }
}

} // verus!
