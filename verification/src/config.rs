//! Configuration: where the notes live, the extra roots indexed under a
//! virtual prefix, and the server settings.

use vstd::prelude::*;
use crate::indexer::IndexRoot;

verus! {

/// An additional directory indexed under a virtual path prefix.
#[derive(Debug, Clone)]
pub struct ExtraDir {
    pub dir: String,
    pub prefix: String,
}

#[derive(Debug, Clone)]
pub struct Config {
    pub memory_dir: String,
    pub extra_dirs: Vec<ExtraDir>,
    pub db_path: String,
    pub port: u16,
    pub api_key: String,
    pub bind: String,
}

/// The address the server binds to unless configured otherwise.
pub fn default_bind() -> (r: String)
    ensures
        r@ == "127.0.0.1"@,
{
    String::from_str("127.0.0.1")
}

impl Default for Config {
    fn default() -> (r: Config)
        ensures
            r.memory_dir@ == "./memory"@,
            r.extra_dirs@.len() == 0,
            r.db_path@ == "./data/memory.db"@,
            r.port == 3001,
            r.api_key@.len() == 0,
            r.bind@ == "127.0.0.1"@,
    {
        Config {
            memory_dir: String::from_str("./memory"),
            extra_dirs: Vec::new(),
            db_path: String::from_str("./data/memory.db"),
            port: 3001,
            api_key: String::new(),
            bind: default_bind(),
        }
    }
}

impl Config {
    /// The roots to index: the memory directory with no prefix, then every
    /// extra directory with its own prefix, in order.
    pub fn index_roots(&self) -> (r: Vec<IndexRoot>)
        ensures
            r@.len() == self.extra_dirs@.len() + 1,
            r@[0].dir@ == self.memory_dir@,
            r@[0].prefix@.len() == 0,
            forall|i: int|
                0 <= i < self.extra_dirs@.len() ==> #[trigger] r@[i + 1].dir@
                    == self.extra_dirs@[i].dir@ && r@[i + 1].prefix@ == self.extra_dirs@[i].prefix@,
    {
        let mut roots: Vec<IndexRoot> = Vec::new();
        roots.push(IndexRoot { dir: self.memory_dir.clone(), prefix: String::new() });
        let mut i: usize = 0;
        while i < self.extra_dirs.len()
            invariant
                i <= self.extra_dirs@.len(),
                roots@.len() == i + 1,
                roots@[0].dir@ == self.memory_dir@,
                roots@[0].prefix@.len() == 0,
                forall|j: int|
                    0 <= j < i ==> #[trigger] roots@[j + 1].dir@ == self.extra_dirs@[j].dir@
                        && roots@[j + 1].prefix@ == self.extra_dirs@[j].prefix@,
            decreases self.extra_dirs@.len() - i,
        {
            let e = &self.extra_dirs[i];
            roots.push(IndexRoot { dir: e.dir.clone(), prefix: e.prefix.clone() });
            i = i + 1;
        }
        roots
    }
}

} // verus!
