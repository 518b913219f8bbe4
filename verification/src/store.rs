//! Where the image of the graph lies on disk.

use vstd::prelude::*;
use vstd::string::StringExecFns;
use crate::error::StoreError;

verus! {

/// The place of the graph's image: a directory, in which the image is the
/// file `data.bin`.
#[derive(Debug)]
pub struct GraphStore {
    store_path: String,
}

impl GraphStore {
    /// The directory.
    pub closed spec fn path(&self) -> Seq<char> {
        self.store_path@
    }

    /// The store in the given directory, or in `data/graph_store` where
    /// none is given.  It is always `Ok`.
    pub fn new(store_path: Option<String>) -> (store: Result<GraphStore, StoreError>)
        ensures
            store matches Ok(s) && s.path() == match store_path {
                Some(path) => path@,
                None => "data/graph_store"@,
            },
    {
        let store_path = match store_path {
            Some(path) => path,
            None => String::from_str("data/graph_store"),
        };
        Ok(GraphStore { store_path })
    }

    /// The directory.
    pub fn store_path(&self) -> (path: &String)
        ensures
            path@ == self.path(),
    {
        &self.store_path
    }

    /// The file of the image in this store.
    pub fn filepath(&self) -> (path: String)
        ensures
            path@ == self.path() + "/data.bin"@,
    {
        GraphStore::get_filepath(self.store_path.as_str())
    }

    /// The file of the image in the directory `store_path`.
    pub fn get_filepath(store_path: &str) -> (path: String)
        ensures
            path@ == store_path@ + "/data.bin"@,
    {
        let mut path = String::from_str(store_path);
        path.append("/data.bin");
        path
    }
}

impl Default for GraphStore {
    fn default() -> (store: GraphStore)
        ensures
            store.path() == "data/graph_store"@,
    {
        GraphStore { store_path: String::from_str("data/graph_store") }
    }
}

} // verus!
