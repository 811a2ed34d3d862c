//! Startup configuration: the snapshot directory and filename, immutable
//! after startup and introspected by `CONFIG GET`.

use vstd::prelude::*;

use crate::ascii::{bytes_eq, copy_bytes};
use crate::encoding::push_bytes;

verus! {

/// The byte name `dir`.
pub open spec fn dir_key() -> Seq<u8> {
    seq![100u8, 105, 114]
}

/// The byte name `dbfilename`.
pub open spec fn dbfilename_key() -> Seq<u8> {
    seq![100u8, 98, 102, 105, 108, 101, 110, 97, 109, 101]
}

/// The startup configuration. Paths are carried as byte strings; the caller
/// turns them into whatever path type its platform wants.
pub struct Config {
    pub dir: Option<Vec<u8>>,
    pub dbfilename: Option<Vec<u8>>,
}

/// The view of an optional byte string.
pub open spec fn opt_view(o: Option<Vec<u8>>) -> Option<Seq<u8>> {
    match o {
        Some(v) => Some(v@),
        None => None,
    }
}

impl Config {
    pub fn new(dir: Option<Vec<u8>>, dbfilename: Option<Vec<u8>>) -> (r: Self)
        ensures
            r.dir == dir,
            r.dbfilename == dbfilename,
    {
        Config { dir, dbfilename }
    }

    /// The snapshot path `dir/dbfilename`, present exactly when both parts
    /// are.
    pub open spec fn spec_file_path(self) -> Option<Seq<u8>> {
        match (self.dir, self.dbfilename) {
            (Some(d), Some(f)) => Some(d@ + seq![47u8] + f@),
            _ => None,
        }
    }

    pub fn to_file_path(&self) -> (r: Option<Vec<u8>>)
        ensures
            match r {
                Some(p) => self.spec_file_path() == Some(p@),
                None => self.spec_file_path() is None,
            },
    {
        match (&self.dir, &self.dbfilename) {
            (Some(d), Some(f)) => {
                let mut out = copy_bytes(d.as_slice());
                out.push(47);
                push_bytes(&mut out, f.as_slice());
                proof {
                    assert(out@ =~= d@ + seq![47u8] + f@);
                }
                Some(out)
            }
            _ => None,
        }
    }

    /// The value a `CONFIG GET` of `key` reports: the matching startup flag,
    /// when the key is known and the flag was given.
    pub open spec fn spec_get(self, key: Seq<u8>) -> Option<Seq<u8>> {
        if key == dir_key() {
            opt_view(self.dir)
        } else if key == dbfilename_key() {
            opt_view(self.dbfilename)
        } else {
            None
        }
    }

    pub fn get(&self, key: &[u8]) -> (r: Option<&Vec<u8>>)
        ensures
            match r {
                Some(v) => self.spec_get(key@) == Some(v@),
                None => self.spec_get(key@) is None,
            },
    {
        let dir_name = dir_key_exec();
        let dbf_name = dbfilename_key_exec();
        if bytes_eq(key, dir_name.as_slice()) {
            match &self.dir {
                Some(v) => Some(v),
                None => None,
            }
        } else if bytes_eq(key, dbf_name.as_slice()) {
            match &self.dbfilename {
                Some(v) => Some(v),
                None => None,
            }
        } else {
            None
        }
    }
}

/// The bytes of `dir`.
pub fn dir_key_exec() -> (r: Vec<u8>)
    ensures
        r@ == dir_key(),
{
    let mut v: Vec<u8> = Vec::new();
    v.push(100);
    v.push(105);
    v.push(114);
    proof {
        assert(v@ =~= dir_key());
    }
    v
}

/// The bytes of `dbfilename`.
pub fn dbfilename_key_exec() -> (r: Vec<u8>)
    ensures
        r@ == dbfilename_key(),
{
    let mut v: Vec<u8> = Vec::new();
    v.push(100);
    v.push(98);
    v.push(102);
    v.push(105);
    v.push(108);
    v.push(101);
    v.push(110);
    v.push(97);
    v.push(109);
    v.push(101);
    proof {
        assert(v@ =~= dbfilename_key());
    }
    v
}

} // verus!
