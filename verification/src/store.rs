//! The update store: an in-memory index of descriptors keyed by id,
//! kept in step with an on-disk layout of one subdirectory per id.
//!
//! The store itself performs no I/O: every mutating operation returns
//! the writes (a `PersistJob`) that the caller must carry out, and
//! construction takes the metadata texts that a scan of the storage
//! root found. Download and extraction are split the same way: the
//! store plans them and commits their state changes.

use vstd::prelude::*;
use vstd::string::*;
use crate::chars::push_char;
use crate::codec::{spec_encode, spec_decode, encode_descriptor, decode_descriptor};
use crate::descriptor::{DescV, UpdateDescriptor};
use crate::errors::StoreError;
use crate::settings::Settings;

verus! {

// ---------------------------------------------------------------------
// On-disk paths.
// ---------------------------------------------------------------------

/// The subdirectory of one descriptor.
pub open spec fn dir_path_of(root: Seq<char>, id: Seq<char>) -> Seq<char> {
    root + seq!['/'] + id
}

/// The metadata file inside a descriptor's subdirectory.
pub open spec fn info_path_of(root: Seq<char>, id: Seq<char>) -> Seq<char> {
    dir_path_of(root, id) + seq!['/'] + "info.json"@
}

/// The payload file inside a descriptor's subdirectory.
pub open spec fn payload_path_of(root: Seq<char>, id: Seq<char>) -> Seq<char> {
    dir_path_of(root, id) + seq!['/'] + id + ".mpak"@
}

fn dir_path(root: &String, id: &String) -> (r: String)
    ensures
        r@ == dir_path_of(root@, id@),
{
    let mut s = root.clone();
    push_char(&mut s, '/');
    s.append(id.as_str());
    proof {
        assert(s@ =~= dir_path_of(root@, id@));
    }
    s
}

fn info_path(root: &String, id: &String) -> (r: String)
    ensures
        r@ == info_path_of(root@, id@),
{
    let mut s = dir_path(root, id);
    push_char(&mut s, '/');
    s.append("info.json");
    proof {
        assert(s@ =~= info_path_of(root@, id@));
    }
    s
}

fn payload_path(root: &String, id: &String) -> (r: String)
    ensures
        r@ == payload_path_of(root@, id@),
{
    let mut s = dir_path(root, id);
    push_char(&mut s, '/');
    s.append(id.as_str());
    s.append(".mpak");
    proof {
        assert(s@ =~= payload_path_of(root@, id@));
    }
    s
}

// ---------------------------------------------------------------------
// The writes a mutation asks its caller to perform.
// ---------------------------------------------------------------------

/// One persistence step: make sure `dir_path` exists, then write
/// `contents` over `file_path`. A mutation is complete only once its
/// job has been carried out.
pub struct PersistJob {
    pub dir_path: String,
    pub file_path: String,
    pub contents: String,
}

impl PersistJob {
    /// The job writes descriptor `d`'s metadata under `root`.
    pub open spec fn is_for(self, root: Seq<char>, d: DescV) -> bool {
        &&& self.dir_path@ == dir_path_of(root, d.id)
        &&& self.file_path@ == info_path_of(root, d.id)
        &&& self.contents@ == spec_encode(d)
    }
}

// ---------------------------------------------------------------------
// The in-memory index and its mathematical view.
// ---------------------------------------------------------------------

/// The map that a sequence of descriptors denotes: later entries win.
pub open spec fn map_of(s: Seq<UpdateDescriptor>) -> Map<Seq<char>, DescV>
    decreases s.len(),
{
    if s.len() == 0 {
        Map::empty()
    } else {
        map_of(s.drop_last()).insert(s.last()@.id, s.last()@)
    }
}

/// No two entries share an id.
pub open spec fn ids_unique(s: Seq<UpdateDescriptor>) -> bool {
    forall|i: int, j: int| 0 <= i < j < s.len() ==> s[i]@.id != s[j]@.id
}

proof fn lemma_map_of_finite(s: Seq<UpdateDescriptor>)
    ensures
        map_of(s).dom().finite(),
    decreases s.len(),
{
    if s.len() == 0 {
    } else {
        lemma_map_of_finite(s.drop_last());
    }
}

proof fn lemma_map_of_not_contains(s: Seq<UpdateDescriptor>, k: Seq<char>)
    requires
        forall|i: int| 0 <= i < s.len() ==> (#[trigger] s[i])@.id != k,
    ensures
        !map_of(s).contains_key(k),
    decreases s.len(),
{
    if s.len() == 0 {
    } else {
        lemma_map_of_not_contains(s.drop_last(), k);
    }
}

proof fn lemma_map_of_get(s: Seq<UpdateDescriptor>, i: int)
    requires
        ids_unique(s),
        0 <= i < s.len(),
    ensures
        map_of(s).contains_key(s[i]@.id),
        map_of(s)[s[i]@.id] == s[i]@,
    decreases s.len(),
{
    if i == s.len() - 1 {
    } else {
        lemma_map_of_get(s.drop_last(), i);
        assert(s.drop_last()[i] == s[i]);
        assert(s[i]@.id != s.last()@.id);
    }
}

proof fn lemma_map_of_len(s: Seq<UpdateDescriptor>)
    requires
        ids_unique(s),
    ensures
        map_of(s).len() == s.len(),
    decreases s.len(),
{
    broadcast use vstd::set::axiom_set_insert_len;

    if s.len() == 0 {
        assert(map_of(s).dom() =~= Set::<Seq<char>>::empty());
        broadcast use vstd::set::axiom_set_empty_len;

        assert(Set::<Seq<char>>::empty().len() == 0);
    } else {
        lemma_map_of_len(s.drop_last());
        lemma_map_of_finite(s.drop_last());
        assert(forall|i: int| 0 <= i < s.drop_last().len() ==> (#[trigger] s.drop_last()[i])@.id
            != s.last()@.id);
        lemma_map_of_not_contains(s.drop_last(), s.last()@.id);
    }
}

proof fn lemma_map_of_remove(s: Seq<UpdateDescriptor>, k: int)
    requires
        ids_unique(s),
        0 <= k < s.len(),
    ensures
        map_of(s.remove(k)) == map_of(s).remove(s[k]@.id),
    decreases s.len(),
{
    let key = s[k]@.id;
    if k == s.len() - 1 {
        assert(s.remove(k) =~= s.drop_last());
        assert(forall|i: int| 0 <= i < s.drop_last().len() ==> (#[trigger] s.drop_last()[i])@.id
            != key);
        lemma_map_of_not_contains(s.drop_last(), key);
        assert(map_of(s).remove(key) =~= map_of(s.drop_last()));
    } else {
        lemma_map_of_remove(s.drop_last(), k);
        assert(s.remove(k).drop_last() =~= s.drop_last().remove(k));
        assert(s.remove(k).last() == s.last());
        assert(map_of(s.remove(k)) == map_of(s.drop_last().remove(k)).insert(
            s.last()@.id,
            s.last()@,
        ));
        assert(s.last()@.id != key);
        assert(map_of(s.drop_last()).remove(key).insert(s.last()@.id, s.last()@) =~= map_of(
            s,
        ).remove(key));
    }
}

/// Entries with equal content denote equal maps.
proof fn lemma_map_of_congruent(a: Seq<UpdateDescriptor>, b: Seq<UpdateDescriptor>)
    requires
        a.len() == b.len(),
        forall|i: int| 0 <= i < a.len() ==> (#[trigger] a[i])@ == b[i]@,
    ensures
        map_of(a) == map_of(b),
    decreases a.len(),
{
    if a.len() == 0 {
        assert(map_of(a) =~= map_of(b));
    } else {
        assert(forall|i: int| 0 <= i < a.drop_last().len() ==> (#[trigger] a.drop_last()[i])@
            == b.drop_last()[i]@);
        lemma_map_of_congruent(a.drop_last(), b.drop_last());
        assert(a.last()@ == b.last()@);
    }
}

// ---------------------------------------------------------------------
// The store.
// ---------------------------------------------------------------------

/// What construction makes of a directory scan: each metadata text is
/// parsed; texts that do not parse to a well-formed descriptor are
/// skipped and never abort recovery of the rest.
pub open spec fn spec_recover(texts: Seq<Seq<char>>) -> Map<Seq<char>, DescV>
    decreases texts.len(),
{
    if texts.len() == 0 {
        Map::empty()
    } else {
        let m = spec_recover(texts.drop_last());
        match spec_decode(texts.last()) {
            Some(d) => if d.wf() {
                m.insert(d.id, d)
            } else {
                m
            },
            None => m,
        }
    }
}

/// The descriptors recovery accepts, in scan order.
pub open spec fn recovered_list(texts: Seq<Seq<char>>) -> Seq<DescV>
    decreases texts.len(),
{
    if texts.len() == 0 {
        Seq::empty()
    } else {
        let pre = recovered_list(texts.drop_last());
        match spec_decode(texts.last()) {
            Some(d) => if d.wf() {
                pre.push(d)
            } else {
                pre
            },
            None => pre,
        }
    }
}

/// A well-formed store index points each key at an entry that carries
/// it, so every mapped descriptor is well formed.
proof fn lemma_map_of_index_of(s: Seq<UpdateDescriptor>, k: Seq<char>)
    requires
        ids_unique(s),
        map_of(s).contains_key(k),
    ensures
        exists|i: int| 0 <= i < s.len() && (#[trigger] s[i])@.id == k && map_of(s)[k] == s[i]@,
    decreases s.len(),
{
    if s.len() == 0 {
    } else if s.last()@.id == k {
        assert(s[s.len() - 1]@.id == k && map_of(s)[k] == s[s.len() - 1]@);
    } else {
        lemma_map_of_index_of(s.drop_last(), k);
        let i = choose|i: int| 0 <= i < s.drop_last().len() && (#[trigger] s.drop_last()[i])@.id
            == k && map_of(s.drop_last())[k] == s.drop_last()[i]@;
        assert(s[i]@.id == k && map_of(s)[k] == s[i]@);
    }
}

/// Every descriptor a well-formed store maps is itself well formed.
pub proof fn lemma_map_of_wf(s: UpdateStore, id: Seq<char>)
    requires
        s.inv(),
        s@.contains_key(id),
    ensures
        s@[id].wf(),
{
    lemma_map_of_index_of(s.updates@, id);
}

/// The store: configuration, storage root, and the descriptor index.
/// Its view is the map from id to descriptor content.
pub struct UpdateStore {
    pub settings: Settings,
    pub store_root: String,
    pub updates: Vec<UpdateDescriptor>,
}

impl View for UpdateStore {
    type V = Map<Seq<char>, DescV>;

    open spec fn view(&self) -> Map<Seq<char>, DescV> {
        map_of(self.updates@)
    }
}

impl UpdateStore {
    /// Ids are unique keys, every descriptor is well formed, and the
    /// index stays within the count the queries report.
    pub open spec fn inv(&self) -> bool {
        &&& ids_unique(self.updates@)
        &&& forall|i: int| 0 <= i < self.updates@.len() ==> (#[trigger] self.updates@[i])@.wf()
        &&& self.updates@.len() <= 0x7fff_ffff
    }

    /// Builds a store from the settings, the storage root, and the
    /// metadata texts found under it, skipping unreadable entries.
    /// Also returns the redundant re-persistence writes of everything
    /// recovered, as registration performs on any other path.
    pub fn new(settings: Settings, store_root: String, metadata_texts: Vec<String>) -> (r: (
        UpdateStore,
        Vec<PersistJob>,
    ))
        requires
            metadata_texts@.len() <= 0x7fff_ffff,
        ensures
            r.0.inv(),
            r.0@ == spec_recover(metadata_texts.deep_view()),
            r.0.settings == settings,
            r.0.store_root == store_root,
            r.1@.len() == recovered_list(metadata_texts.deep_view()).len(),
            forall|j: int| 0 <= j < r.1@.len() ==> (#[trigger] r.1@[j]).is_for(
                store_root@,
                recovered_list(metadata_texts.deep_view())[j],
            ),
    {
        let mut store = UpdateStore { settings, store_root, updates: Vec::new() };
        let mut jobs: Vec<PersistJob> = Vec::new();
        let ghost texts = metadata_texts.deep_view();
        let mut i: usize = 0;
        proof {
            assert(texts.subrange(0, 0) =~= Seq::<Seq<char>>::empty());
        }
        while i < metadata_texts.len()
            invariant
                i <= metadata_texts@.len(),
                metadata_texts@.len() <= 0x7fff_ffff,
                texts == metadata_texts.deep_view(),
                texts.len() == metadata_texts@.len(),
                forall|m: int| 0 <= m < texts.len() ==> texts[m]
                    == (#[trigger] metadata_texts@[m])@,
                store.inv(),
                store.updates@.len() <= i,
                store@ == spec_recover(texts.subrange(0, i as int)),
                store.settings == settings,
                store.store_root == store_root,
                jobs@.len() == recovered_list(texts.subrange(0, i as int)).len(),
                forall|j: int| 0 <= j < jobs@.len() ==> (#[trigger] jobs@[j]).is_for(
                    store_root@,
                    recovered_list(texts.subrange(0, i as int))[j],
                ),
            decreases metadata_texts@.len() - i,
        {
            let ghost pre = texts.subrange(0, i as int);
            let ghost cur = texts.subrange(0, i + 1 as int);
            proof {
                assert(cur.drop_last() =~= pre);
                assert(cur.last() == texts[i as int]);
            }
            match decode_descriptor(metadata_texts[i].as_str()) {
                Some(d) => {
                    if d.is_wf() {
                        let job = store.add(d);
                        jobs.push(job);
                    }
                },
                None => {},
            }
            i += 1;
        }
        proof {
            assert(texts.subrange(0, texts.len() as int) =~= texts);
        }
        (store, jobs)
    }

    /// Registers (or replaces) a descriptor under its id and hands back
    /// the persistence write that completes the registration.
    pub fn add(&mut self, descriptor: UpdateDescriptor) -> (job: PersistJob)
        requires
            old(self).inv(),
            old(self).updates@.len() < 0x7fff_ffff,
            descriptor@.wf(),
        ensures
            final(self).inv(),
            final(self)@ == old(self)@.insert(descriptor@.id, descriptor@),
            final(self).settings == old(self).settings,
            final(self).store_root == old(self).store_root,
            final(self).updates@.len() <= old(self).updates@.len() + 1,
            job.is_for(old(self).store_root@, descriptor@),
    {
        let job = PersistJob {
            dir_path: dir_path(&self.store_root, &descriptor.mpak_id),
            file_path: info_path(&self.store_root, &descriptor.mpak_id),
            contents: encode_descriptor(&descriptor),
        };
        match self.find_index(&descriptor.mpak_id) {
            Some(k) => {
                self.replace_at(k, descriptor);
            },
            None => {
                let ghost before = self.updates@;
                proof {
                    assert forall|i: int| 0 <= i < before.len() implies (#[trigger] before[i])@.id
                        != descriptor@.id by {
                        if before[i]@.id == descriptor@.id {
                            lemma_map_of_get(before, i);
                        }
                    }
                }
                self.updates.push(descriptor);
                proof {
                    let aft = self.updates@;
                    assert(aft.drop_last() =~= before);
                    assert(aft.last() == descriptor);
                    assert(forall|i: int| 0 <= i < aft.len() ==> (#[trigger] aft[i])@.wf());
                    assert(ids_unique(aft)) by {
                        assert(forall|i: int, j: int| 0 <= i < j < aft.len() && j < aft.len() - 1
                            ==> (#[trigger] aft[i])@.id != (#[trigger] aft[j])@.id);
                        assert(forall|i: int| 0 <= i < aft.len() - 1 ==> (#[trigger] aft[i])@.id
                            != descriptor@.id);
                    }
                }
            },
        }
        job
    }

    /// How many descriptors the store knows.
    pub fn len(&self) -> (n: i32)
        requires
            self.inv(),
        ensures
            n >= 0,
            n as nat == self@.len(),
    {
        proof {
            lemma_map_of_len(self.updates@);
        }
        self.updates.len() as i32
    }

    /// A snapshot of every known descriptor, in index order; its map
    /// content equals the store's.
    pub fn get_all_messages(&self) -> (r: Vec<UpdateDescriptor>)
        requires
            self.inv(),
        ensures
            r@.len() == self.updates@.len(),
            forall|i: int| 0 <= i < r@.len() ==> (#[trigger] r@[i])@ == self.updates@[i]@,
            map_of(r@) == self@,
    {
        let mut r: Vec<UpdateDescriptor> = Vec::new();
        let mut i: usize = 0;
        while i < self.updates.len()
            invariant
                i <= self.updates@.len(),
                r@.len() == i,
                forall|m: int| 0 <= m < i ==> (#[trigger] r@[m])@ == self.updates@[m]@,
            decreases self.updates@.len() - i,
        {
            let d = self.updates[i].duplicate();
            r.push(d);
            i += 1;
        }
        proof {
            lemma_map_of_congruent(r@, self.updates@);
        }
        r
    }

    /// The index of the entry that holds `id`, if one does.
    fn find_index(&self, id: &String) -> (r: Option<usize>)
        requires
            self.inv(),
        ensures
            match r {
                Some(k) => k < self.updates@.len() && self.updates@[k as int]@.id == id@
                    && self@.contains_key(id@) && self@[id@] == self.updates@[k as int]@,
                None => !self@.contains_key(id@),
            },
    {
        let mut k: usize = 0;
        while k < self.updates.len()
            invariant
                k <= self.updates@.len(),
                self.inv(),
                forall|m: int| 0 <= m < k ==> (#[trigger] self.updates@[m])@.id != id@,
            decreases self.updates@.len() - k,
        {
            if self.updates[k].mpak_id == *id {
                proof {
                    lemma_map_of_get(self.updates@, k as int);
                }
                return Some(k);
            }
            k += 1;
        }
        proof {
            lemma_map_of_not_contains(self.updates@, id@);
        }
        None
    }

    /// The descriptor registered under `id`, if any.
    pub fn get_message(&self, id: String) -> (r: Option<&UpdateDescriptor>)
        requires
            self.inv(),
        ensures
            match r {
                Some(d) => self@.contains_key(id@) && d@ == self@[id@],
                None => !self@.contains_key(id@),
            },
    {
        match self.find_index(&id) {
            Some(k) => Some(&self.updates[k]),
            None => None,
        }
    }

    /// Empties the in-memory index. Nothing on disk is touched, so a
    /// fresh construction over the same root recovers what was known.
    pub fn clear(&mut self)
        ensures
            final(self).inv(),
            final(self)@ == Map::<Seq<char>, DescV>::empty(),
            final(self).settings == old(self).settings,
            final(self).store_root == old(self).store_root,
    {
        self.updates.clear();
    }
}


// ---------------------------------------------------------------------
// Download and extraction: the store plans the outside work and
// commits the state change once the caller reports success.
// ---------------------------------------------------------------------

/// A download url without a recognized scheme prefix defaults to
/// plaintext HTTP.
pub open spec fn normalized_url(u: Seq<char>) -> Seq<char> {
    if u.len() >= 4 && u.subrange(0, 4) == "http"@ {
        u
    } else {
        "http://"@ + u
    }
}

/// `d` with its payload marked as downloaded.
pub open spec fn with_retrieved(d: DescV) -> DescV {
    DescV { retrieved: true, ..d }
}

/// `d` with its payload marked as extracted.
pub open spec fn with_applied(d: DescV) -> DescV {
    DescV { applied: true, ..d }
}

fn has_http_prefix(u: &String) -> (r: bool)
    ensures
        r == (u@.len() >= 4 && u@.subrange(0, 4) == "http"@),
{
    proof {
        reveal_strlit("http");
    }
    let s = u.as_str();
    let n = s.unicode_len();
    if n < 4 {
        return false;
    }
    let ok = s.get_char(0) == 'h' && s.get_char(1) == 't' && s.get_char(2) == 't' && s.get_char(3)
        == 'p';
    proof {
        if ok {
            assert(u@.subrange(0, 4) =~= "http"@);
        } else {
            assert(u@.subrange(0, 4)[0] == u@[0]);
            assert(u@.subrange(0, 4)[1] == u@[1]);
            assert(u@.subrange(0, 4)[2] == u@[2]);
            assert(u@.subrange(0, 4)[3] == u@[3]);
        }
    }
    ok
}

/// The url the download must use.
pub fn normalize_url(u: &String) -> (r: String)
    ensures
        r@ == normalized_url(u@),
{
    if has_http_prefix(u) {
        u.clone()
    } else {
        let mut s = String::from_str("http://");
        s.append(u.as_str());
        s
    }
}

/// The download work for one descriptor: fetch `url` and write the
/// response body to `payload_path`.
pub struct RetrievePlan {
    pub url: String,
    pub payload_path: String,
}

impl UpdateStore {
    /// Replaces the entry at `k` by `d`, which carries the same id.
    fn replace_at(&mut self, k: usize, d: UpdateDescriptor)
        requires
            old(self).inv(),
            k < old(self).updates@.len(),
            d@.wf(),
            old(self).updates@[k as int]@.id == d@.id,
        ensures
            final(self).inv(),
            final(self)@ == old(self)@.insert(d@.id, d@),
            final(self).settings == old(self).settings,
            final(self).store_root == old(self).store_root,
            final(self).updates@.len() == old(self).updates@.len(),
    {
        let ghost before = self.updates@;
        proof {
            lemma_map_of_remove(before, k as int);
        }
        self.updates.remove(k);
        let ghost mid = self.updates@;
        self.updates.push(d);
        proof {
            assert(mid =~= before.subrange(0, k as int) + before.subrange(
                k + 1 as int,
                before.len() as int,
            ));
            assert(forall|i: int| 0 <= i < mid.len() ==> (#[trigger] mid[i]) == (if i < k as int {
                before[i]
            } else {
                before[i + 1]
            }));
            assert(forall|i: int| 0 <= i < mid.len() ==> (#[trigger] mid[i])@.wf());
            assert(before[k as int]@.id == d@.id);
            assert(forall|i: int| 0 <= i < mid.len() ==> (#[trigger] mid[i])@.id != d@.id);
            assert(ids_unique(mid));
            let aft = self.updates@;
            assert(aft.drop_last() =~= mid);
            assert(aft.last() == d);
            assert(forall|i: int| 0 <= i < aft.len() ==> (#[trigger] aft[i])@.wf());
            assert(ids_unique(aft)) by {
                assert(forall|i: int, j: int| 0 <= i < j < aft.len() && j < aft.len() - 1 ==> (
                #[trigger] aft[i])@.id != (#[trigger] aft[j])@.id);
                assert(forall|i: int| 0 <= i < aft.len() - 1 ==> (#[trigger] aft[i])@.id != d@.id);
            }
            assert(map_of(aft) == map_of(mid).insert(d@.id, d@));
            assert(map_of(aft) == map_of(before).remove(d@.id).insert(d@.id, d@));
            assert(map_of(before).remove(d@.id).insert(d@.id, d@) =~= map_of(before).insert(
                d@.id,
                d@,
            ));
        }
    }

    /// Plans a download: fails with `NotFound` on an unknown id and
    /// changes nothing; otherwise names the normalized url and the
    /// payload file the body must be streamed to.
    pub fn retrieve_plan(&self, id: &String) -> (r: Result<RetrievePlan, StoreError>)
        requires
            self.inv(),
        ensures
            match r {
                Ok(plan) => self@.contains_key(id@) && plan.url@ == normalized_url(self@[id@].url)
                    && plan.payload_path@ == payload_path_of(self.store_root@, id@),
                Err(e) => e is NotFound && !self@.contains_key(id@),
            },
    {
        match self.find_index(id) {
            None => Err(StoreError::NotFound),
            Some(k) => Ok(
                RetrievePlan {
                    url: normalize_url(&self.updates[k].mpak_download_url),
                    payload_path: payload_path(&self.store_root, id),
                },
            ),
        }
    }

    /// Records a completed download: marks the descriptor retrieved and
    /// hands back the persistence write that completes the mutation.
    pub fn retrieve_commit(&mut self, id: &String) -> (r: Result<PersistJob, StoreError>)
        requires
            old(self).inv(),
        ensures
            final(self).inv(),
            final(self).settings == old(self).settings,
            final(self).store_root == old(self).store_root,
            match r {
                Ok(job) => old(self)@.contains_key(id@) && final(self)@ == old(self)@.insert(
                    id@,
                    with_retrieved(old(self)@[id@]),
                ) && job.is_for(old(self).store_root@, with_retrieved(old(self)@[id@])),
                Err(e) => e is NotFound && !old(self)@.contains_key(id@) && final(self)@ == old(self)@,
            },
    {
        match self.find_index(id) {
            None => Err(StoreError::NotFound),
            Some(k) => {
                let mut d = self.updates[k].duplicate();
                d.retrieved = true;
                proof {
                    assert(d@ == with_retrieved(self@[id@]));
                }
                let job = PersistJob {
                    dir_path: dir_path(&self.store_root, &d.mpak_id),
                    file_path: info_path(&self.store_root, &d.mpak_id),
                    contents: encode_descriptor(&d),
                };
                self.replace_at(k, d);
                Ok(job)
            },
        }
    }

    /// Begins an extraction: names the payload file to read, after
    /// checking that the id is known and its payload was retrieved.
    pub fn extract_begin(&self, id: &String) -> (r: Result<String, StoreError>)
        requires
            self.inv(),
        ensures
            match r {
                Ok(p) => self@.contains_key(id@) && self@[id@].retrieved && p@ == payload_path_of(
                    self.store_root@,
                    id@,
                ),
                Err(e) => (e is NotFound && !self@.contains_key(id@)) || (e is NotRetrieved
                    && self@.contains_key(id@) && !self@[id@].retrieved),
            },
    {
        match self.find_index(id) {
            None => Err(StoreError::NotFound),
            Some(k) => {
                if !self.updates[k].retrieved {
                    Err(StoreError::NotRetrieved)
                } else {
                    Ok(payload_path(&self.store_root, id))
                }
            },
        }
    }

    /// Records a completed extraction: marks the descriptor applied and
    /// hands back the persistence write that completes the mutation.
    pub fn extract_commit(&mut self, id: &String) -> (r: Result<PersistJob, StoreError>)
        requires
            old(self).inv(),
        ensures
            final(self).inv(),
            final(self).settings == old(self).settings,
            final(self).store_root == old(self).store_root,
            match r {
                Ok(job) => old(self)@.contains_key(id@) && old(self)@[id@].retrieved && final(self)@ == old(self)@.insert(id@, with_applied(old(self)@[id@])) && job.is_for(
                    old(self).store_root@,
                    with_applied(old(self)@[id@]),
                ),
                Err(e) => final(self)@ == old(self)@ && ((e is NotFound && !old(self)@.contains_key(id@)) || (e is NotRetrieved && old(self)@.contains_key(id@) && !old(self)@[id@].retrieved)),
            },
    {
        match self.find_index(id) {
            None => Err(StoreError::NotFound),
            Some(k) => {
                if !self.updates[k].retrieved {
                    Err(StoreError::NotRetrieved)
                } else {
                    let mut d = self.updates[k].duplicate();
                    d.applied = true;
                    proof {
                        assert(d@ == with_applied(self@[id@]));
                    }
                    let job = PersistJob {
                        dir_path: dir_path(&self.store_root, &d.mpak_id),
                        file_path: info_path(&self.store_root, &d.mpak_id),
                        contents: encode_descriptor(&d),
                    };
                    self.replace_at(k, d);
                    Ok(job)
                }
            },
        }
    }
}

} // verus!
