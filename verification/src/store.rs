//! Trusted boundary to the embedded `sled` store.
//!
//! Each [`StoreTree`] is one key-value namespace holding UTF-8 text on both
//! sides, modelled by the uninterpreted map [`tree_entries`]. All writes go
//! through `&mut` methods here, so within a process each tree value has one
//! owner and the map model is exact. Opening relies on the store's
//! exclusive-writer file lock: a second open of the same directory fails
//! instead of aliasing a live tree.

use vstd::prelude::*;

verus! {

/// Failure at the storage boundary.
#[derive(Clone, Copy, PartialEq, Eq, Structural, Debug)]
pub enum StoreError {
    /// The storage engine reported an I/O or internal failure.
    Io,
    /// A stored key or value was not valid UTF-8 text.
    Corrupt,
}

/// One key-value namespace of the embedded store.
#[verifier::external_body]
pub struct StoreTree {
    tree: sled::Tree,
    db: sled::Db,
}

/// The text entries a tree currently holds: stored keys to stored values,
/// both read as character strings.
pub uninterp spec fn tree_entries(t: StoreTree) -> Map<Seq<char>, Seq<char>>;

/// The empty tree contents.
pub open spec fn no_entries() -> Map<Seq<char>, Seq<char>> {
    Map::empty()
}

/// The four namespaces the library persists: records, annotation to tags,
/// tag to annotations, and sync metadata.
pub struct StoreTrees {
    /// id to serialized annotation
    pub records: StoreTree,
    /// id to semicolon-joined tag list
    pub annotation_to_tags: StoreTree,
    /// tag to semicolon-joined id list
    pub tag_to_annotations: StoreTree,
    /// scalar sync state, such as the time of the last sync
    pub meta: StoreTree,
}

/// Relies on sled::open and sled::Db::open_tree: opens (creating them the
/// first time) the store at the given directory and its named trees. The
/// entries are whatever an earlier process left on disk, so nothing is
/// promised of them; sled's directory lock makes a second simultaneous open
/// fail rather than hand out a second handle to the same trees.
#[verifier::external_body]
pub fn open_store(db_dir: &String) -> (r: Result<StoreTrees, StoreError>) {
    let db = sled::open(db_dir.as_str()).map_err(|_| StoreError::Io)?;
    let records = db.open_tree("annotations").map_err(|_| StoreError::Io)?;
    let annotation_to_tags = db.open_tree("annotation_to_tags").map_err(|_| StoreError::Io)?;
    let tag_to_annotations = db.open_tree("tag_to_annotations").map_err(|_| StoreError::Io)?;
    let meta = db.open_tree("sync_info").map_err(|_| StoreError::Io)?;
    Ok(StoreTrees {
        records: StoreTree { tree: records, db: db.clone() },
        annotation_to_tags: StoreTree { tree: annotation_to_tags, db: db.clone() },
        tag_to_annotations: StoreTree { tree: tag_to_annotations, db: db.clone() },
        meta: StoreTree { tree: meta, db },
    })
}

/// Relies on sled::Config::temporary and sled::Db::open_tree: opens a fresh
/// store backed by a temporary directory that is deleted when the last
/// handle drops. A temporary store starts with no entries at all.
#[verifier::external_body]
pub fn open_temp_store() -> (r: Result<StoreTrees, StoreError>)
    ensures
        r matches Ok(t) ==> {
            &&& tree_entries(t.records) == no_entries()
            &&& tree_entries(t.annotation_to_tags) == no_entries()
            &&& tree_entries(t.tag_to_annotations) == no_entries()
            &&& tree_entries(t.meta) == no_entries()
        },
{
    let db = sled::Config::new().temporary(true).open().map_err(|_| StoreError::Io)?;
    let records = db.open_tree("annotations").map_err(|_| StoreError::Io)?;
    let annotation_to_tags = db.open_tree("annotation_to_tags").map_err(|_| StoreError::Io)?;
    let tag_to_annotations = db.open_tree("tag_to_annotations").map_err(|_| StoreError::Io)?;
    let meta = db.open_tree("sync_info").map_err(|_| StoreError::Io)?;
    Ok(StoreTrees {
        records: StoreTree { tree: records, db: db.clone() },
        annotation_to_tags: StoreTree { tree: annotation_to_tags, db: db.clone() },
        tag_to_annotations: StoreTree { tree: tag_to_annotations, db: db.clone() },
        meta: StoreTree { tree: meta, db },
    })
}

impl StoreTree {
    /// Relies on sled::Tree::get: returns the value stored at the key, if
    /// any, decoded as text.
    #[verifier::external_body]
    pub fn get(&self, key: &String) -> (r: Result<Option<String>, StoreError>)
        ensures
            r matches Ok(opt) ==> match opt {
                Some(v) => tree_entries(*self).contains_key(key@) && v@ == tree_entries(*self)[key@],
                None => !tree_entries(*self).contains_key(key@),
            },
    {
        match self.tree.get(key.as_bytes()) {
            Ok(Some(v)) => match String::from_utf8(v.to_vec()) {
                Ok(s) => Ok(Some(s)),
                Err(_) => Err(StoreError::Corrupt),
            },
            Ok(None) => Ok(None),
            Err(_) => Err(StoreError::Io),
        }
    }

    /// Relies on sled::Tree::contains_key: whether the key has a value.
    #[verifier::external_body]
    pub fn contains(&self, key: &String) -> (r: Result<bool, StoreError>)
        ensures
            r matches Ok(b) ==> b == tree_entries(*self).contains_key(key@),
    {
        self.tree.contains_key(key.as_bytes()).map_err(|_| StoreError::Io)
    }

    /// Relies on sled::Tree::insert: sets the key to the value.
    #[verifier::external_body]
    pub fn insert(&mut self, key: &String, value: &String) -> (r: Result<(), StoreError>)
        ensures
            r is Ok ==> tree_entries(*final(self)) == tree_entries(*old(self)).insert(key@, value@),
    {
        match self.tree.insert(key.as_bytes(), value.as_bytes()) {
            Ok(_) => Ok(()),
            Err(_) => Err(StoreError::Io),
        }
    }

    /// Relies on sled::Tree::remove: deletes the key, returning the value it
    /// held, if any.
    #[verifier::external_body]
    pub fn remove(&mut self, key: &String) -> (r: Result<Option<String>, StoreError>)
        ensures
            r matches Ok(opt) ==> {
                &&& tree_entries(*final(self)) == tree_entries(*old(self)).remove(key@)
                &&& match opt {
                    Some(v) => tree_entries(*old(self)).contains_key(key@) && v@ == tree_entries(
                        *old(self),
                    )[key@],
                    None => !tree_entries(*old(self)).contains_key(key@),
                }
            },
    {
        match self.tree.remove(key.as_bytes()) {
            Ok(Some(v)) => match String::from_utf8(v.to_vec()) {
                Ok(s) => Ok(Some(s)),
                Err(_) => Err(StoreError::Corrupt),
            },
            Ok(None) => Ok(None),
            Err(_) => Err(StoreError::Io),
        }
    }

    /// Relies on sled::Tree::clear: removes every entry.
    #[verifier::external_body]
    pub fn clear(&mut self) -> (r: Result<(), StoreError>)
        ensures
            r is Ok ==> tree_entries(*final(self)) == no_entries(),
    {
        self.tree.clear().map_err(|_| StoreError::Io)
    }

    /// Relies on sled::Tree::iter: lists every key-value pair. The keys that
    /// come back are exactly the tree's keys, each once, with its value.
    #[verifier::external_body]
    pub fn list(&self) -> (r: Result<Vec<(String, String)>, StoreError>)
        ensures
            r matches Ok(v) ==> {
                &&& forall|i: int, j: int| 0 <= i < j < v@.len() ==> v@[i].0@ != v@[j].0@
                &&& forall|i: int|
                    0 <= i < v@.len() ==> tree_entries(*self).contains_key(#[trigger] v@[i].0@)
                        && tree_entries(*self)[v@[i].0@] == v@[i].1@
                &&& forall|k: Seq<char>|
                    tree_entries(*self).contains_key(k) ==> exists|i: int|
                        0 <= i < v@.len() && #[trigger] v@[i].0@ == k
                &&& tree_entries(*self).dom().finite()
            },
    {
        let mut out = Vec::new();
        for item in self.tree.iter() {
            let (k, v) = item.map_err(|_| StoreError::Io)?;
            let ks = String::from_utf8(k.to_vec()).map_err(|_| StoreError::Corrupt)?;
            let vs = String::from_utf8(v.to_vec()).map_err(|_| StoreError::Corrupt)?;
            out.push((ks, vs));
        }
        Ok(out)
    }
}

} // verus!
