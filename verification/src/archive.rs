//! Payload archives: the zip crate reads the entries out of the
//! downloaded bytes; the extraction plan over those entries — which
//! directories to create and which files to write under the
//! destination root — is computed and proved here.

use vstd::prelude::*;
use vstd::string::*;
use std::io::Cursor;
use zip::ZipArchive;
use crate::chars::{chars_to_string, str_to_chars};
use crate::errors::StoreError;

verus! {

#[verifier::external_type_specification]
#[verifier::external_body]
#[verifier::reject_recursive_types(T)]
pub struct ExCursor<T>(Cursor<T>);

#[verifier::external_type_specification]
#[verifier::external_body]
#[verifier::reject_recursive_types(R)]
pub struct ExZipArchive<R>(ZipArchive<R>);

/// The entries an archive's bytes decode to: each a name and the
/// uncompressed data, in archive order. The decoding is a function of
/// the bytes alone.
pub uninterp spec fn zip_entries_of(bytes: Seq<u8>) -> Seq<(Seq<char>, Seq<u8>)>;

/// Whether the bytes carry a central directory that opens as an
/// archive; a function of the bytes alone.
pub uninterp spec fn zip_openable(bytes: Seq<u8>) -> bool;

/// Whether entry `i` of the archive the bytes carry can be read in
/// full (supported method, not encrypted, sound data); a function of
/// the bytes and the index alone.
pub uninterp spec fn zip_entry_readable(bytes: Seq<u8>, i: int) -> bool;

/// What an open archive holds: the bytes it was opened over, which
/// determine its entries.
pub uninterp spec fn zip_source(a: ZipArchive<Cursor<Vec<u8>>>) -> Seq<u8>;

/// Relies on zip's `ZipArchive::new`, which reads the central
/// directory out of the in-memory reader: success depends on the
/// bytes alone, and the archive holds exactly those bytes.
#[verifier::external_body]
fn zip_open(bytes: Vec<u8>) -> (r: Result<ZipArchive<Cursor<Vec<u8>>>, String>)
    ensures
        (r is Ok) == zip_openable(bytes@),
        r matches Ok(a) ==> zip_source(a) == bytes@,
{
    match ZipArchive::new(Cursor::new(bytes)) {
        Ok(a) => Ok(a),
        Err(e) => Err(e.to_string()),
    }
}

/// Relies on zip's `ZipArchive::len`: the number of entries.
#[verifier::external_body]
fn zip_count(a: &ZipArchive<Cursor<Vec<u8>>>) -> (r: usize)
    ensures
        r == zip_entries_of(zip_source(*a)).len(),
{
    a.len()
}

/// Relies on zip's `ZipArchive::by_index` and a full read of the
/// entry: for an in-range index it yields entry `i`'s name and
/// uncompressed data exactly when the entry is readable, a
/// deterministic property of the archive's bytes; the archive's
/// entries themselves do not change.
#[verifier::external_body]
fn zip_entry(a: &mut ZipArchive<Cursor<Vec<u8>>>, i: usize) -> (r: Result<(String, Vec<u8>), String>)
    requires
        i < zip_entries_of(zip_source(*old(a))).len(),
    ensures
        zip_source(*final(a)) == zip_source(*old(a)),
        (r is Ok) == zip_entry_readable(zip_source(*old(a)), i as int),
        r matches Ok(e) ==> (e.0@, e.1@) == zip_entries_of(zip_source(*old(a)))[i as int],
{
    let mut f = match a.by_index(i) {
        Ok(f) => f,
        Err(e) => return Err(e.to_string()),
    };
    let name = f.name().to_string();
    let mut data: Vec<u8> = Vec::new();
    match std::io::Read::read_to_end(&mut f, &mut data) {
        Ok(_) => Ok((name, data)),
        Err(e) => Err(e.to_string()),
    }
}

// ---------------------------------------------------------------------
// The filesystem work an extraction asks its caller to perform.
// ---------------------------------------------------------------------

/// Content of one filesystem step.
pub ghost enum FsActionV {
    /// Create the directory and all its ancestors.
    CreateDirAll(Seq<char>),
    /// Write the bytes over the file at the path.
    WriteFile(Seq<char>, Seq<u8>),
}

/// One filesystem step of an extraction, in order.
pub enum FsAction {
    CreateDirAll(String),
    WriteFile(String, Vec<u8>),
}

impl View for FsAction {
    type V = FsActionV;

    open spec fn view(&self) -> FsActionV {
        match self {
            FsAction::CreateDirAll(p) => FsActionV::CreateDirAll(p@),
            FsAction::WriteFile(p, b) => FsActionV::WriteFile(p@, b@),
        }
    }
}

/// An entry's path under the destination root.
pub open spec fn joined_path(dest: Seq<char>, name: Seq<char>) -> Seq<char> {
    dest + seq!['/'] + name
}

/// The path up to (and excluding) its last separator.
pub open spec fn parent_of(p: Seq<char>) -> Seq<char>
    decreases p.len(),
{
    if p.len() == 0 {
        p
    } else if p.last() == '/' {
        p.drop_last()
    } else {
        parent_of(p.drop_last())
    }
}

/// The steps one entry asks for: a name ending in a separator denotes
/// a directory; anything else is a file, whose ancestors are created
/// first and whose bytes overwrite whatever the path held.
pub open spec fn entry_actions(dest: Seq<char>, e: (Seq<char>, Seq<u8>)) -> Seq<FsActionV> {
    let path = joined_path(dest, e.0);
    if e.0.len() > 0 && e.0.last() == '/' {
        seq![FsActionV::CreateDirAll(path)]
    } else {
        seq![FsActionV::CreateDirAll(parent_of(path)), FsActionV::WriteFile(path, e.1)]
    }
}

/// The steps a whole archive asks for, entry by entry.
pub open spec fn plan_actions(dest: Seq<char>, entries: Seq<(Seq<char>, Seq<u8>)>) -> Seq<
    FsActionV,
>
    decreases entries.len(),
{
    if entries.len() == 0 {
        Seq::empty()
    } else {
        plan_actions(dest, entries.drop_last()) + entry_actions(dest, entries.last())
    }
}

/// The content of a sequence of steps.
pub open spec fn actions_view(s: Seq<FsAction>) -> Seq<FsActionV> {
    s.map_values(|a: FsAction| a@)
}

/// `parent_of` cuts at the last separator.
proof fn lemma_parent_at(p: Seq<char>, j: int)
    requires
        0 <= j < p.len(),
        p[j] == '/',
        forall|m: int| j < m < p.len() ==> p[m] != '/',
    ensures
        parent_of(p) == p.subrange(0, j),
    decreases p.len() - j,
{
    if j == p.len() - 1 {
        assert(p.last() == '/');
        assert(p.drop_last() =~= p.subrange(0, j));
    } else {
        assert(p.last() != '/');
        lemma_parent_at(p.drop_last(), j);
        assert(p.drop_last().subrange(0, j) =~= p.subrange(0, j));
    }
}

/// Appends `src` to `out`.
fn extend_chars(out: &mut Vec<char>, src: &Vec<char>)
    ensures
        final(out)@ == old(out)@ + src@,
{
    let mut i: usize = 0;
    while i < src.len()
        invariant
            i <= src@.len(),
            out@ == old(out)@ + src@.subrange(0, i as int),
        decreases src@.len() - i,
    {
        out.push(src[i]);
        proof {
            assert(old(out)@ + src@.subrange(0, i + 1 as int) =~= (old(out)@ + src@.subrange(
                0,
                i as int,
            )).push(src@[i as int]));
        }
        i += 1;
    }
    proof {
        assert(src@.subrange(0, src@.len() as int) =~= src@);
    }
}

/// The exec parent: everything before the last separator.
fn parent_chars(p: &Vec<char>) -> (r: Vec<char>)
    ensures
        r@ == parent_of(p@),
{
    let mut j: usize = p.len();
    while j > 0 && p[j - 1] != '/'
        invariant
            j <= p@.len(),
            forall|m: int| j <= m < p@.len() ==> p@[m] != '/',
        decreases j,
    {
        j -= 1;
    }
    if j == 0 {
        proof {
            lemma_parent_none(p@);
        }
        Vec::new()
    } else {
        proof {
            lemma_parent_at(p@, j - 1);
        }
        let mut r: Vec<char> = Vec::new();
        let mut m: usize = 0;
        while m < j - 1
            invariant
                m <= j - 1,
                j - 1 < p@.len() + 1,
                j >= 1,
                j <= p@.len(),
                r@ == p@.subrange(0, m as int),
            decreases j - 1 - m,
        {
            r.push(p[m]);
            proof {
                assert(p@.subrange(0, m + 1 as int) =~= p@.subrange(0, m as int).push(
                    p@[m as int],
                ));
            }
            m += 1;
        }
        r
    }
}

/// A path without separators has an empty parent.
proof fn lemma_parent_none(p: Seq<char>)
    requires
        forall|m: int| 0 <= m < p.len() ==> p[m] != '/',
    ensures
        parent_of(p) == Seq::<char>::empty(),
    decreases p.len(),
{
    if p.len() == 0 {
        assert(p =~= Seq::<char>::empty());
    } else {
        lemma_parent_none(p.drop_last());
    }
}

/// Opens the payload bytes as an archive and plans the extraction:
/// exactly the steps that the archive's entries ask for, in order.
/// On an openable archive whose entries are all readable, the plan is
/// owed; it fails only with an archive error.
pub fn plan_extract(payload: Vec<u8>, destination_root: &String) -> (r: Result<
    Vec<FsAction>,
    StoreError,
>)
    ensures
        match r {
            Ok(actions) => actions_view(actions@) == plan_actions(
                destination_root@,
                zip_entries_of(payload@),
            ),
            Err(e) => e is ArchiveError,
        },
        zip_openable(payload@) && (forall|i: int|
            0 <= i < zip_entries_of(payload@).len() ==> zip_entry_readable(payload@, i))
            ==> r is Ok,
{
    let ghost pbytes = payload@;
    let ghost entries = zip_entries_of(pbytes);
    let mut archive = match zip_open(payload) {
        Ok(a) => a,
        Err(m) => { return Err(StoreError::ArchiveError(m)); },
    };
    let n = zip_count(&archive);
    let mut actions: Vec<FsAction> = Vec::new();
    let mut i: usize = 0;
    proof {
        assert(entries.subrange(0, 0) =~= Seq::<(Seq<char>, Seq<u8>)>::empty());
        assert(actions_view(actions@) =~= plan_actions(destination_root@, entries.subrange(0, 0)));
    }
    while i < n
        invariant
            i <= n,
            pbytes == payload@,
            entries == zip_entries_of(pbytes),
            n == entries.len(),
            zip_source(archive) == pbytes,
            actions_view(actions@) == plan_actions(destination_root@, entries.subrange(0, i as int)),
        decreases n - i,
    {
        let (name, data) = match zip_entry(&mut archive, i) {
            Ok(e) => e,
            Err(m) => { return Err(StoreError::ArchiveError(m)); },
        };
        let ghost entry = entries[i as int];
        let name_chars = str_to_chars(name.as_str());
        let mut path_chars = str_to_chars(destination_root.as_str());
        path_chars.push('/');
        extend_chars(&mut path_chars, &name_chars);
        proof {
            assert(path_chars@ =~= joined_path(destination_root@, entry.0));
        }
        let ghost acts0 = actions@;
        if name_chars.len() > 0 && name_chars[name_chars.len() - 1] == '/' {
            proof {
                assert(entry.0.last() == '/');
            }
            actions.push(FsAction::CreateDirAll(chars_to_string(&path_chars)));
        } else {
            let par = parent_chars(&path_chars);
            actions.push(FsAction::CreateDirAll(chars_to_string(&par)));
            actions.push(FsAction::WriteFile(chars_to_string(&path_chars), data));
        }
        proof {
            let pre = entries.subrange(0, i as int);
            let cur = entries.subrange(0, i + 1 as int);
            assert(cur.drop_last() =~= pre);
            assert(cur.last() == entry);
            assert(actions_view(actions@) =~= plan_actions(destination_root@, cur));
        }
        i += 1;
    }
    proof {
        assert(entries.subrange(0, entries.len() as int) =~= entries);
    }
    Ok(actions)
}

} // verus!
