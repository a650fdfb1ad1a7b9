//! Directory entries as the reader hands them over, and as they are listed.

use vstd::prelude::*;

verus! {

/// The byte that marks a name as hidden when it comes first: `.`.
pub const HIDDEN_MARKER: u8 = 0x2e;

/// What a directory entry turned out to be when its metadata was read.
#[derive(Clone, Copy, Debug, PartialEq, Eq, Structural)]
pub enum EntryKind {
    File,
    Directory,
}

/// A point in time: whole seconds since 1970-01-01T00:00:00Z (negative
/// before it) and the nanoseconds into that second.
#[derive(Clone, Copy, Debug, PartialEq, Eq, Structural)]
pub struct Timestamp {
    pub secs: i64,
    pub nanos: u32,
}

/// What one successful metadata read told about an entry.
#[derive(Clone, Copy, Debug, PartialEq, Eq, Structural)]
pub struct RawMeta {
    pub is_dir: bool,
    pub len: u64,
    /// `None` where the platform keeps no modification time.
    pub modified: Option<Timestamp>,
    /// The mode word; only the lowest nine bits are shown.
    pub mode: u32,
    pub uid: u32,
}

/// One child of a directory as read: its name, byte for byte, and its
/// metadata, or `None` where reading the metadata failed.
#[derive(Clone, Debug, PartialEq, Eq)]
pub struct RawEntry {
    pub name: Vec<u8>,
    pub meta: Option<RawMeta>,
}

/// The mathematical value of a [`RawEntry`].
pub struct RawEntryModel {
    pub name: Seq<u8>,
    pub meta: Option<RawMeta>,
}

impl View for RawEntry {
    type V = RawEntryModel;

    open spec fn view(&self) -> RawEntryModel {
        RawEntryModel { name: self.name@, meta: self.meta }
    }
}

/// The models of a sequence of entries, in the same order.
pub open spec fn models(entries: Seq<RawEntry>) -> Seq<RawEntryModel> {
    entries.map_values(|e: RawEntry| e@)
}

/// A name is hidden exactly when its first byte is the marker.
pub open spec fn hidden_name(name: Seq<u8>) -> bool {
    name.len() > 0 && name[0] == HIDDEN_MARKER
}

/// Whether an entry is a directory: metadata was read and says so. An entry
/// whose metadata could not be read counts as a file.
pub open spec fn model_is_dir(e: RawEntryModel) -> bool {
    e.meta matches Some(m) && m.is_dir
}

pub fn is_hidden(name: &Vec<u8>) -> (hidden: bool)
    ensures
        hidden == hidden_name(name@),
{
    name.len() > 0 && name[0] == HIDDEN_MARKER
}

/// A fresh vector holding the same bytes.
pub fn copy_bytes(bytes: &Vec<u8>) -> (copy: Vec<u8>)
    ensures
        copy@ == bytes@,
{
    let mut copy: Vec<u8> = Vec::new();
    let mut i: usize = 0;
    while i < bytes.len()
        invariant
            i <= bytes.len(),
            copy@ == bytes@.take(i as int),
        decreases bytes.len() - i,
    {
        copy.push(bytes[i]);
        i += 1;
    }
    copy
}

impl RawEntry {
    pub fn new(name: Vec<u8>, meta: Option<RawMeta>) -> (entry: RawEntry)
        ensures
            entry@ == (RawEntryModel { name: name@, meta }),
    {
        RawEntry { name, meta }
    }

    /// A fresh entry with the same name and metadata.
    pub fn duplicate(&self) -> (copy: RawEntry)
        ensures
            copy@ == self@,
    {
        RawEntry { name: copy_bytes(&self.name), meta: self.meta }
    }

    pub fn is_dir(&self) -> (dir: bool)
        ensures
            dir == model_is_dir(self@),
    {
        match self.meta {
            Some(m) => m.is_dir,
            None => false,
        }
    }

    pub fn kind(&self) -> (kind: EntryKind)
        ensures
            kind == (if model_is_dir(self@) { EntryKind::Directory } else { EntryKind::File }),
    {
        if self.is_dir() {
            EntryKind::Directory
        } else {
            EntryKind::File
        }
    }
}

} // verus!
