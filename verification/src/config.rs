//! Application configuration: the externally configured base directory
//! against which stored image filenames are resolved. Reading and
//! writing the persisted key-value file is the host's concern; the
//! library only holds the value and forms load paths from it.

use vstd::prelude::*;
use crate::text::{copy_bytes, SLASH};

verus! {

/// The configuration: an optional base directory for image files, as a
/// byte-string path.
pub struct Configuration {
    pub image_path: Option<Vec<u8>>,
}

impl Default for Configuration {
    fn default() -> (r: Self)
        ensures
            r.image_path is None,
    {
        Configuration { image_path: None }
    }
}

impl Configuration {
    /// A fresh configuration, before any persisted value is found: no
    /// base directory is set.
    pub fn open() -> (r: Self)
        ensures
            r.image_path is None,
    {
        Configuration { image_path: None }
    }

    /// Joins the base directory with a stored filename to form a load
    /// path; nothing to join with when no base directory is set.
    pub fn resolve(&self, file: &Vec<u8>) -> (r: Option<Vec<u8>>)
        ensures
            match self.image_path {
                Some(base) => r matches Some(p) && p@ == base@ + seq![SLASH] + file@,
                None => r is None,
            },
    {
        match &self.image_path {
            None => None,
            Some(base) => {
                let mut p = copy_bytes(base);
                p.push(SLASH);
                let mut k: usize = 0;
                while k < file.len()
                    invariant
                        0 <= k <= file@.len(),
                        p@ == base@ + seq![SLASH] + file@.take(k as int),
                    decreases file.len() - k,
                {
                    p.push(file[k]);
                    proof {
                        assert((base@ + seq![SLASH] + file@.take(k as int)).push(
                            file@[k as int],
                        ) =~= base@ + seq![SLASH] + file@.take(k as int + 1));
                    }
                    k += 1;
                }
                proof {
                    assert(p@ =~= base@ + seq![SLASH] + file@.take(k as int));
                    assert(file@.take(k as int) =~= file@);
                }
                Some(p)
            },
        }
    }
}

} // verus!
