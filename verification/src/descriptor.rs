//! The persisted record describing one update package and its local
//! processing state.

use vstd::prelude::*;

verus! {

/// Mathematical content of a descriptor: every field as a plain value.
pub ghost struct DescV {
    pub id: Seq<char>,
    pub url: Seq<char>,
    pub name: Seq<char>,
    pub version: Seq<char>,
    pub size: u64,
    pub retrieved: bool,
    pub applied: bool,
}

/// An id doubles as the on-disk subdirectory name, so it must be
/// non-empty and free of path separators.
pub open spec fn id_ok(id: Seq<char>) -> bool {
    &&& id.len() > 0
    &&& forall|i: int| 0 <= i < id.len() ==> id[i] != '/' && id[i] != '\\'
}

impl DescV {
    /// Well-formedness: a filesystem-safe id, and an update can only be
    /// applied once its payload has been retrieved.
    pub open spec fn wf(self) -> bool {
        &&& id_ok(self.id)
        &&& (self.applied ==> self.retrieved)
    }
}

/// The record for one update package. `retrieved` flips once the payload
/// has been downloaded, `applied` once it has been extracted; the
/// descriptive fields are carried through persistence uninterpreted.
pub struct UpdateDescriptor {
    pub mpak_id: String,
    pub mpak_download_url: String,
    pub name: String,
    pub version: String,
    pub size: u64,
    pub retrieved: bool,
    pub applied: bool,
}

impl View for UpdateDescriptor {
    type V = DescV;

    open spec fn view(&self) -> DescV {
        DescV {
            id: self.mpak_id@,
            url: self.mpak_download_url@,
            name: self.name@,
            version: self.version@,
            size: self.size,
            retrieved: self.retrieved,
            applied: self.applied,
        }
    }
}

impl UpdateDescriptor {
    /// Runtime check of the well-formedness that `add` requires.
    pub fn is_wf(&self) -> (r: bool)
        ensures
            r == self@.wf(),
    {
        let id_nonempty = self.mpak_id.as_str().unicode_len() > 0;
        let id_clean = id_has_no_separator(&self.mpak_id);
        let order_ok = !self.applied || self.retrieved;
        id_nonempty && id_clean && order_ok
    }

    /// An independent copy with the same content.
    pub fn duplicate(&self) -> (r: Self)
        ensures
            r@ == self@,
    {
        UpdateDescriptor {
            mpak_id: self.mpak_id.clone(),
            mpak_download_url: self.mpak_download_url.clone(),
            name: self.name.clone(),
            version: self.version.clone(),
            size: self.size,
            retrieved: self.retrieved,
            applied: self.applied,
        }
    }
}

/// True when no character of `id` is a path separator.
fn id_has_no_separator(id: &String) -> (r: bool)
    ensures
        r == forall|i: int| 0 <= i < id@.len() ==> id@[i] != '/' && id@[i] != '\\',
{
    let s = id.as_str();
    let n = s.unicode_len();
    let mut i: usize = 0;
    while i < n
        invariant
            i <= n,
            n == id@.len(),
            s@ == id@,
            forall|j: int| 0 <= j < i ==> id@[j] != '/' && id@[j] != '\\',
        decreases n - i,
    {
        let c = s.get_char(i);
        if c == '/' || c == '\\' {
            return false;
        }
        i += 1;
    }
    true
}

} // verus!
