//! The vault model the diff works on: a decrypted database as plain values.
//!
//! UUIDs are held as their 128-bit big-endian values, so their numeric
//! order is the byte order of the UUIDs.

use vstd::prelude::*;

use crate::text::str_eq;

verus! {

/// One string field of an entry.
#[derive(Debug, Clone, PartialEq, Eq)]
pub struct Field {
    pub name: String,
    pub value: String,
    /// Marked `Protected="True"` in the vault.
    pub protected: bool,
}

/// One attachment of an entry: its name and, when the vault's attachment
/// pool holds it, its content.
#[derive(Debug, Clone, PartialEq, Eq)]
pub struct Attachment {
    pub name: String,
    pub content: Option<Vec<u8>>,
}

/// An entry.
#[derive(Debug, Clone, PartialEq, Eq)]
pub struct Entry {
    pub uuid: u128,
    pub fields: Vec<Field>,
    pub tags: Vec<String>,
    pub attachments: Vec<Attachment>,
    /// Number of entries in the entry's history.
    pub history_len: usize,
    /// Last modification time, already formatted as `%Y-%m-%dT%H:%M:%SZ`.
    pub last_modification: Option<String>,
}

/// A group with its child groups and entries.
#[derive(Debug, PartialEq, Eq)]
pub struct Group {
    pub uuid: u128,
    pub name: String,
    pub groups: Vec<Group>,
    pub entries: Vec<Entry>,
}

/// Database-level metadata.
#[derive(Debug, Clone, PartialEq, Eq)]
pub struct Meta {
    pub database_name: Option<String>,
    /// The database color, as its debug form.
    pub color: Option<String>,
    pub recyclebin_uuid: Option<u128>,
}

/// A decrypted database.
#[derive(Debug, PartialEq, Eq)]
pub struct Database {
    /// The KDBX format version, as displayed.
    pub version: String,
    pub meta: Meta,
    pub root: Group,
}

/// The first field named `name`.
pub open spec fn find_field(fs: Seq<Field>, name: Seq<char>) -> Option<Field>
    decreases fs.len(),
{
    if fs.len() == 0 {
        None
    } else if fs[0].name@ == name {
        Some(fs[0])
    } else {
        find_field(fs.drop_first(), name)
    }
}

impl Entry {
    /// The value of the field named `name`, if any.
    pub open spec fn value_of(self, name: Seq<char>) -> Option<Seq<char>> {
        match find_field(self.fields@, name) {
            Some(f) => Some(f.value@),
            None => None,
        }
    }

    /// Whether the field named `name` exists and is protected.
    pub open spec fn protected_of(self, name: Seq<char>) -> bool {
        match find_field(self.fields@, name) {
            Some(f) => f.protected,
            None => false,
        }
    }

    fn find(&self, name: &str) -> (r: Option<&Field>)
        ensures
            match r {
                Some(f) => find_field(self.fields@, name@) == Some(*f),
                None => find_field(self.fields@, name@) is None,
            },
    {
        let mut i: usize = 0;
        proof {
            assert(self.fields@.skip(0) =~= self.fields@);
        }
        while i < self.fields.len()
            invariant
                i <= self.fields@.len(),
                find_field(self.fields@, name@) == find_field(self.fields@.skip(i as int), name@),
            decreases self.fields@.len() - i,
        {
            let f = &self.fields[i];
            if str_eq(f.name.as_str(), name) {
                return Some(f);
            }
            proof {
                assert(self.fields@.skip(i as int).drop_first() =~= self.fields@.skip(i + 1));
            }
            i = i + 1;
        }
        None
    }

    /// Get a field value by name.
    pub fn get(&self, name: &str) -> (r: Option<&String>)
        ensures
            match r {
                Some(v) => self.value_of(name@) == Some(v@),
                None => self.value_of(name@) is None,
            },
    {
        match self.find(name) {
            Some(f) => Some(&f.value),
            None => None,
        }
    }

    /// Whether a field is marked protected.
    pub fn is_protected(&self, name: &str) -> (r: bool)
        ensures
            r == self.protected_of(name@),
    {
        match self.find(name) {
            Some(f) => f.protected,
            None => false,
        }
    }
}

} // verus!
