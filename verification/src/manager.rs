//! The backing file held as a value: a path, a file name, and the
//! current content.  The caller performs the actual reads and writes of
//! the file system and mirrors them into this model; every operation on
//! the mapping is stated against the content string through the parse
//! and serialize functions of the store.

use vstd::prelude::*;

use crate::store::StoreMap;
use crate::store::StoreError;
use crate::store::parse_config;
use crate::store::serialize;
use crate::store::spec_add;
use crate::store::spec_parse;
use crate::store::spec_remove;
use crate::store::spec_serialize;
use crate::store::store_contains;
use crate::store::store_wf;
use crate::text::is_valid_key;
use crate::text::valid_key;

verus! {

/// The name of the backing file that holds the shortcut mapping.
pub const CONFFILE: &'static str = "waypoint.config.txt";

/// The name of the separate append-only history log file.
pub const LOGFILE: &'static str = "waypoints.logs.txt";

/// A file as a value: where it lives and what it currently holds.
pub struct FileManager {
    pub path: String,
    pub filename: String,
    pub content: String,
}

impl FileManager {
    /// A fresh file model with empty content, as a backing file is
    /// created empty when it is absent.
    pub fn new(path: String, filename: String) -> (r: FileManager)
        ensures
            r.path@ == path@,
            r.filename@ == filename@,
            r.content@ == Seq::<char>::empty(),
    {
        FileManager { path, filename, content: String::new() }
    }

    /// The path with the file name appended.
    pub fn get_path(&self) -> (r: String)
        ensures
            r@ == self.path@ + self.filename@,
    {
        let mut r = String::from_str(self.path.as_str());
        r.append(self.filename.as_str());
        r
    }

    /// A copy of the whole current content.
    pub fn read(&self) -> (r: String)
        ensures
            r@ == self.content@,
    {
        self.content.clone()
    }

    /// Appends a line-break pair and then the new line to the content.
    pub fn append(&mut self, newline: String)
        ensures
            final(self).content@ == old(self).content@ + seq!['\n', '\r'] + newline@,
            final(self).path == old(self).path,
            final(self).filename == old(self).filename,
    {
        let ghost prev = self.content@;
        self.content.append("\n\r");
        self.content.append(newline.as_str());
        proof {
            reveal_strlit("\n\r");
            assert("\n\r"@ =~= seq!['\n', '\r']);
            assert(self.content@ =~= prev + seq!['\n', '\r'] + newline@);
        }
    }

    /// Replaces the whole content.
    pub fn rewrite_with(&mut self, data: String)
        ensures
            final(self).content@ == data@,
            final(self).path == old(self).path,
            final(self).filename == old(self).filename,
    {
        self.content = data;
    }
}

/// The out-of-scope history log's file, kept only for its path.
pub struct LogManager {
    pub manager: FileManager,
}

impl LogManager {
    /// A log model over the history log's own file, distinct from the
    /// store's backing file.
    pub fn new(path: String) -> (r: LogManager)
        ensures
            r.manager.path@ == path@,
            r.manager.filename@ == LOGFILE@,
            r.manager.content@ == Seq::<char>::empty(),
    {
        LogManager { manager: FileManager::new(path, String::from_str(LOGFILE)) }
    }

    /// The path with the file name appended.
    pub fn get_path(&self) -> (r: String)
        ensures
            r@ == self.manager.path@ + self.manager.filename@,
    {
        self.manager.get_path()
    }
}

/// The shortcut mapping's backing file, with the mutation operations
/// stated over the parsed mapping.
pub struct ConfigManager {
    pub manager: FileManager,
}

impl ConfigManager {
    /// A config model with empty content, as for an absent backing file.
    pub fn new(path: String) -> (r: ConfigManager)
        ensures
            r.manager.path@ == path@,
            r.manager.filename@ == CONFFILE@,
            r.manager.content@ == Seq::<char>::empty(),
    {
        ConfigManager { manager: FileManager::new(path, String::from_str(CONFFILE)) }
    }

    /// The mapping read from the current content; lines without the
    /// `key = value` shape are ignored.  Every key of the result is a
    /// valid identifier, keys are pairwise distinct, and no value holds
    /// a newline.
    pub fn read(&self) -> (r: StoreMap)
        ensures
            r@ == spec_parse(self.manager.content@),
            store_wf(r@),
            forall|i: int| 0 <= i < r@.len() ==> valid_key((#[trigger] r@[i]).0),
            forall|i: int| 0 <= i < r@.len() ==> !(#[trigger] r@[i]).1.contains('\n'),
    {
        parse_config(self.manager.content.as_str())
    }

    /// The entries of the mapping read from the current content, in the
    /// order the parse keeps them.
    pub fn list(&self) -> (r: Vec<(String, String)>)
        ensures
            r.deep_view() == spec_parse(self.manager.content@),
    {
        let s = self.read();
        s.entries
    }

    /// Deletes `key` from the mapping and rewrites the content in the
    /// canonical form; an absent key is a successful no-op on the
    /// mapping, though the content is still rewritten.
    pub fn remove(&mut self, key: &str)
        ensures
            final(self).manager.content@ == spec_serialize(
                spec_remove(spec_parse(old(self).manager.content@), key@),
            ),
            final(self).manager.path == old(self).manager.path,
            final(self).manager.filename == old(self).manager.filename,
    {
        let mut cur = self.read();
        cur.remove(key);
        let data = serialize(&cur);
        self.manager.rewrite_with(data);
    }

    /// Adds the entry `s1 = s2` if `s1` is a valid key and not yet
    /// present, rewriting the content in the canonical form.  An invalid
    /// key is rejected and changes nothing; a present key is a no-op
    /// that keeps the first-written value and leaves the content alone.
    pub fn set(&mut self, s1: &str, s2: &str) -> (r: Result<(), StoreError>)
        ensures
            !valid_key(s1@) ==> r == Result::<(), StoreError>::Err(StoreError::InvalidKey)
                && *final(self) == *old(self),
            valid_key(s1@) && store_contains(spec_parse(old(self).manager.content@), s1@) ==> r
                == Result::<(), StoreError>::Ok(()) && *final(self) == *old(self),
            valid_key(s1@) && !store_contains(spec_parse(old(self).manager.content@), s1@) ==> r
                == Result::<(), StoreError>::Ok(()) && final(self).manager.content@
                == spec_serialize(
                spec_add(spec_parse(old(self).manager.content@), s1@, s2@),
            ),
            final(self).manager.path == old(self).manager.path,
            final(self).manager.filename == old(self).manager.filename,
    {
        if !is_valid_key(s1) {
            return Err(StoreError::InvalidKey);
        }
        let mut cur = self.read();
        if cur.contains_key(s1) {
            return Ok(());
        }
        cur.add(String::from_str(s1), String::from_str(s2));
        let data = serialize(&cur);
        self.manager.rewrite_with(data);
        Ok(())
    }
}

} // verus!
