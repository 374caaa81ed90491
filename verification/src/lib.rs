//! Convergent file-set core for a distributed file-synchronization service.
//!
//! Each replica tracks a set of files keyed by a globally unique identifier,
//! keeps a path-to-identifier lookup trie in lockstep with that set, resolves
//! concurrent renames and attribute writes by last-writer-wins rules, and
//! persists itself through a deterministic binary snapshot codec.
//!
//! Paths are carried as sequences of plain component strings; all disk work
//! is delegated to a caller-supplied [`FileUpdater`].

use vstd::prelude::*;

pub mod lookup;
pub mod serialization;
pub mod text;

use std::collections::BTreeMap;

verus! {

use crate::lookup::{chosen_printed, chosen_printed_map, IDLookup};

/// Globally unique file identifier: `(site_id, id)`.
pub type FileID = (u32, u32);

/// A Lamport-like mark used for last-writer-wins comparisons.
#[derive(Debug, Clone, Copy)]
pub struct State {
    pub time_stamp: u32,
    pub site_id: u32,
}

/// A metadata change carried by an `UpdateMetadata` operation.
#[derive(Debug)]
pub enum MetadataTransaction {
    Filename(Vec<String>),
    Custom(String, String),
}

/// A disk-level failure reported by the updater.
#[derive(Debug)]
pub struct IoError;

/// The two error kinds the core surfaces.
#[derive(Debug)]
pub enum FileSetError {
    IOError,
    IDNotFound(u32, u32),
}

/// External collaborator owning per-file content and all byte-level disk
/// work. Paths are relative component lists; transactions are opaque to the
/// core.
pub trait FileUpdater {
    type FileTransaction;

    fn create_file(&mut self, filename: &Vec<String>) -> Result<(), IoError>;

    fn remove_file(&mut self, filename: &Vec<String>) -> Result<(), IoError>;

    fn update_file(
        &mut self,
        filename: &Vec<String>,
        timestamp_lookup: &BTreeMap<u32, (u32, u32)>,
        transaction: &mut Self::FileTransaction,
    ) -> Result<(), IoError>;

    fn move_file(
        &mut self,
        old_filename: &Vec<String>,
        new_filename: &Vec<String>,
    ) -> Result<(), IoError>;

    fn get_local_changes(&mut self, filename: &Vec<String>) -> Result<
        (Self::FileTransaction, BTreeMap<u32, (u32, u32)>),
        IoError,
    >;

    fn get_changes_since(
        &self,
        filename: &Vec<String>,
        last_timestamp: Option<(u32, u32)>,
    ) -> Self::FileTransaction;
}

/// Tracked metadata of one file: the logical filename under its stamp, the
/// terminal component actually used on disk, and per-key last-writer-wins
/// attributes. Each stamp's author site is recorded beside its timestamp —
/// `filename_author` for the filename, the middle column of an attribute
/// entry `(key, (timestamp, author, value))` — so that timestamp ties can be
/// broken against the author, the rule that converges across replicas.
#[derive(Debug)]
pub struct FileMetadata {
    pub filename: (u32, Vec<String>),
    pub filename_author: u32,
    pub printed_filename: String,
    pub attributes: Vec<(String, (u32, u32, String))>,
}

/// The attribute list as a key-to-stamped-value map.
pub open spec fn attr_map(s: Seq<(String, (u32, u32, String))>) -> Map<
    Seq<char>,
    (u32, u32, Seq<char>),
>
    decreases s.len(),
{
    if s.len() == 0 {
        Map::empty()
    } else {
        attr_map(s.drop_last()).insert(
            s.last().0@,
            (s.last().1.0, s.last().1.1, s.last().1.2@),
        )
    }
}

/// The attribute map with the author column erased: what the snapshot codec
/// and the scenario views compare.
pub open spec fn attr_stamps_of(s: Seq<(String, (u32, u32, String))>) -> Map<
    Seq<char>,
    (u32, Seq<char>),
>
    decreases s.len(),
{
    if s.len() == 0 {
        Map::empty()
    } else {
        attr_stamps_of(s.drop_last()).insert(s.last().0@, (s.last().1.0, s.last().1.2@))
    }
}

impl FileMetadata {
    /// The logical path the author intended.
    pub open spec fn path(self) -> Seq<Seq<char>> {
        self.filename.1.deep_view()
    }

    /// The on-disk path: the parent components joined with the printed
    /// terminal component.
    pub open spec fn local_path(self) -> Seq<Seq<char>> {
        self.path().drop_last().push(self.printed_filename@)
    }

    pub open spec fn attrs(self) -> Map<Seq<char>, (u32, u32, Seq<char>)> {
        attr_map(self.attributes@)
    }

    /// The attributes under their stamps alone, author erased.
    pub open spec fn attr_stamps(self) -> Map<Seq<char>, (u32, Seq<char>)> {
        attr_stamps_of(self.attributes@)
    }

    /// A tracked file has at least one path component and distinct attribute
    /// keys.
    pub open spec fn wf(self) -> bool {
        &&& self.filename.1@.len() > 0
        &&& forall|i: int, j: int|
            0 <= i < j < self.attributes@.len() ==> #[trigger] self.attributes@[i].0@
                != #[trigger] self.attributes@[j].0@
    }

    /// The on-disk relative path of this file.
    pub fn get_local_filename(&self) -> (r: Vec<String>)
        requires
            self.filename.1@.len() > 0,
        ensures
            r.deep_view() == self.local_path(),
    {
        let mut r: Vec<String> = Vec::new();
        let n = self.filename.1.len();
        let mut i: usize = 0;
        while i < n - 1
            invariant
                n == self.filename.1@.len(),
                n >= 1,
                i <= n - 1,
                r@.len() == i,
                r.deep_view() =~= self.filename.1.deep_view().take(i as int),
            decreases n - i,
        {
            r.push(self.filename.1[i].clone());
            proof {
                let dv = self.filename.1.deep_view();
                assert(r@.len() == i + 1);
                assert(dv.len() == self.filename.1@.len());
                assert forall|k: int| 0 <= k < i + 1 implies r.deep_view()[k] == dv.take(
                    i + 1,
                )[k] by {
                    assert(r.deep_view()[k] == r@[k]@);
                    if k < i {
                        assert(dv.take(i as int)[k] == dv.take(i + 1)[k]);
                    } else {
                        assert(r@[k]@ == self.filename.1@[i as int]@);
                        assert(dv[i as int] == self.filename.1@[i as int]@);
                    }
                }
                assert(r.deep_view() =~= dv.take(i + 1));
            }
            i += 1;
        }
        r.push(self.printed_filename.clone());
        proof {
            assert(self.filename.1.deep_view().take(n - 1) =~= self.path().drop_last());
            assert(r.deep_view() =~= self.local_path());
        }
        r
    }

    /// The logical path components.
    pub fn get_file_path(&self) -> (r: &Vec<String>)
        ensures
            r == &self.filename.1,
    {
        &self.filename.1
    }

    /// The stamp timestamp of the logical filename.
    pub fn get_file_timestamp(&self) -> (r: u32)
        ensures
            r == self.filename.0,
    {
        self.filename.0
    }
}

/// One file's full history as shipped during initial sync: its stamped
/// filename, attributes, and the opaque content history.
pub struct FileHistory<FU: FileUpdater> {
    pub filename: (u32, Vec<String>),
    pub attributes: Vec<(String, (u32, u32, String))>,
    pub operation_history: FU::FileTransaction,
}

impl<FU: FileUpdater> FileHistory<FU> {
    pub fn new(
        filename_timestamp: u32,
        filename: Vec<String>,
        attributes: Vec<(String, (u32, u32, String))>,
        operations: FU::FileTransaction,
    ) -> (r: FileHistory<FU>)
        ensures
            r.filename.0 == filename_timestamp,
            r.filename.1 == filename,
            r.attributes == attributes,
            r.operation_history == operations,
    {
        FileHistory { filename: (filename_timestamp, filename), attributes, operation_history: operations }
    }
}

/// Announces a newly tracked file.
#[derive(Debug)]
pub struct CreateOperation {
    pub state: State,
    pub filename: Vec<String>,
    pub id: FileID,
}

/// Announces that a file stopped being tracked.
#[derive(Debug)]
pub struct RemoveOperation {
    pub id: FileID,
}

/// Carries an opaque content transaction for one file.
pub struct UpdateOperation<FU: FileUpdater> {
    pub id: FileID,
    pub data: FU::FileTransaction,
}

/// Carries a stamped rename or attribute write for one file.
#[derive(Debug)]
pub struct UpdateMetadata {
    pub state: State,
    pub id: FileID,
    pub data: MetadataTransaction,
}

/// The wire operation envelope.
pub enum FileSetOperation<FU: FileUpdater> {
    Create(CreateOperation),
    Remove(RemoveOperation),
    Update(UpdateOperation<FU>, BTreeMap<u32, (u32, u32)>),
    UpdateMetadata(UpdateMetadata),
}

/// Whether some entry of `s` is keyed by `id`.
pub open spec fn has_key(s: Seq<(FileID, FileMetadata)>, id: FileID) -> bool {
    exists|i: int| 0 <= i < s.len() && (#[trigger] s[i]).0 == id
}

/// The metadata of the entry keyed by `id`; meaningful when keys are unique.
pub open spec fn val_of(s: Seq<(FileID, FileMetadata)>, id: FileID) -> FileMetadata {
    s[choose|i: int| 0 <= i < s.len() && (#[trigger] s[i]).0 == id].1
}

/// Entry keys are pairwise distinct.
pub open spec fn keys_unique(s: Seq<(FileID, FileMetadata)>) -> bool {
    forall|i: int, j: int| 0 <= i < j < s.len() ==> (#[trigger] s[i]).0 != (#[trigger] s[j]).0
}

/// With unique keys, the entry at a matching index is the map entry.
pub proof fn lemma_val_at(s: Seq<(FileID, FileMetadata)>, i: int)
    requires
        keys_unique(s),
        0 <= i < s.len(),
    ensures
        has_key(s, s[i].0),
        val_of(s, s[i].0) == s[i].1,
{
    let id = s[i].0;
    assert(has_key(s, id));
    let j = choose|j: int| 0 <= j < s.len() && (#[trigger] s[j]).0 == id;
    if i != j {
        assert(s[i].0 != s[j].0 || s[j].0 != s[i].0);
    }
}

/// A clone of a component path reads the same.
fn clone_path(p: &Vec<String>) -> (r: Vec<String>)
    ensures
        r@ == p@,
{
    let r = p.clone();
    proof {
        assert forall|i: int| 0 <= i < p@.len() implies r@[i] == p@[i] by {
            assert(cloned::<String>(p@[i], r@[i]));
        }
        assert(r@ =~= p@);
    }
    r
}

/// One replica of the shared file set.
pub struct FileSet<FU: FileUpdater> {
    pub files: Vec<(FileID, FileMetadata)>,
    pub id_lookup: IDLookup,
    pub updater: FU,
    pub last_timestamp: u32,
    pub last_id: u32,
    pub site_id: u32,
    /// Break timestamp ties against this replica's own site instead of the
    /// stored stamp's author. The canonical rule (`false`) compares the
    /// author and converges across replicas; the local rule mirrors peers
    /// that compare their own site, at the price of order-dependent ties.
    pub tie_break_local: bool,
}

impl<FU: FileUpdater> FileSet<FU> {
    /// Whether `id` is tracked.
    pub open spec fn tracks(self, id: FileID) -> bool {
        has_key(self.files@, id)
    }

    /// The tracked metadata of `id`.
    pub open spec fn meta(self, id: FileID) -> FileMetadata {
        val_of(self.files@, id)
    }

    /// The trie entry for `q`.
    pub open spec fn path_id(self, q: Seq<Seq<char>>) -> Option<FileID> {
        self.id_lookup.spec_get(q)
    }

    /// The site a stored stamp is weighed under on a timestamp tie.
    pub open spec fn tie_site(self, stored_author: u32) -> u32 {
        if self.tie_break_local {
            self.site_id
        } else {
            stored_author
        }
    }

    /// The replica invariant: the file map and the trie are two views of one
    /// bijection between tracked identifiers and their distinct on-disk
    /// paths, and identifiers issued locally stay below the local counter.
    pub open spec fn wf(self) -> bool {
        &&& self.id_lookup.wf()
        &&& keys_unique(self.files@)
        &&& forall|i: int| 0 <= i < self.files@.len() ==> (#[trigger] self.files@[i]).1.wf()
        &&& forall|i: int|
            0 <= i < self.files@.len() ==> self.id_lookup.spec_get(
                (#[trigger] self.files@[i]).1.local_path(),
            ) == Some(self.files@[i].0)
        &&& forall|q: Seq<Seq<char>>|
            #[trigger] self.id_lookup.spec_get(q) is Some ==> exists|i: int|
                0 <= i < self.files@.len() && Some((#[trigger] self.files@[i]).0)
                    == self.id_lookup.spec_get(q) && self.files@[i].1.local_path() == q
        &&& forall|i: int|
            0 <= i < self.files@.len() && (#[trigger] self.files@[i]).0.0 == self.site_id
                ==> self.files@[i].0.1 < self.last_id
    }

    /// A fresh, empty replica.
    pub fn new(updater: FU, site_id: u32) -> (r: FileSet<FU>)
        ensures
            r.wf(),
            r.files@.len() == 0,
            r.site_id == site_id,
            r.last_timestamp == 0,
            r.last_id == 0,
            !r.tie_break_local,
            forall|q: Seq<Seq<char>>| r.path_id(q) is None,
    {
        FileSet {
            files: Vec::new(),
            id_lookup: IDLookup::new(),
            updater,
            last_timestamp: 0,
            last_id: 0,
            site_id,
            tie_break_local: false,
        }
    }

    /// Index of the entry keyed by `id`, if any.
    fn find_file(&self, id: FileID) -> (r: Option<usize>)
        ensures
            match r {
                Some(i) => i < self.files@.len() && self.files@[i as int].0 == id,
                None => !has_key(self.files@, id),
            },
    {
        let mut i: usize = 0;
        while i < self.files.len()
            invariant
                i <= self.files@.len(),
                forall|k: int| 0 <= k < i ==> (#[trigger] self.files@[k]).0 != id,
            decreases self.files@.len() - i,
        {
            if self.files[i].0.0 == id.0 && self.files[i].0.1 == id.1 {
                return Some(i);
            }
            i += 1;
        }
        None
    }

    /// Whether `path` currently resolves to a tracked file.
    pub fn has_path(&self, path: &Vec<String>) -> (r: bool)
        ensures
            r == (self.path_id(path.deep_view()) is Some),
    {
        self.id_lookup.get_id_for(path).is_some()
    }
}

/// Inserting a fresh identifier at a fresh on-disk path preserves the
/// replica invariant.
proof fn lemma_wf_insert<FU: FileUpdater>(
    pre: FileSet<FU>,
    post: FileSet<FU>,
    id: FileID,
    m: FileMetadata,
)
    requires
        pre.wf(),
        m.wf(),
        !has_key(pre.files@, id),
        post.files@ == pre.files@.push((id, m)),
        post.id_lookup.wf(),
        post.site_id == pre.site_id,
        post.last_id >= pre.last_id,
        id.0 == post.site_id ==> id.1 < post.last_id,
        pre.id_lookup.spec_get(m.local_path()) is None,
        forall|q: Seq<Seq<char>>|
            #[trigger] post.id_lookup.spec_get(q) == if q == m.local_path() {
                Some(id)
            } else {
                pre.id_lookup.spec_get(q)
            },
    ensures
        post.wf(),
{
    let s = pre.files@;
    let n = s.len() as int;
    assert forall|i: int, j: int|
        0 <= i < j < post.files@.len() implies (#[trigger] post.files@[i]).0
        != (#[trigger] post.files@[j]).0 by {
        if j < n {
            assert(s[i].0 != s[j].0);
        } else {
            assert(post.files@[j] == (id, m));
            assert(has_key(s, s[i].0));
        }
    }
    assert forall|i: int|
        0 <= i < post.files@.len() implies (#[trigger] post.files@[i]).1.wf() by {
        if i < n {
            assert(post.files@[i] == s[i]);
            assert(s[i].1.wf());
        }
    }
    assert forall|i: int|
        0 <= i < post.files@.len() && (#[trigger] post.files@[i]).0.0 == post.site_id
        implies post.files@[i].0.1 < post.last_id by {
        if i < n {
            assert(post.files@[i] == s[i]);
            assert(s[i].0.0 == pre.site_id ==> s[i].0.1 < pre.last_id);
        }
    }
    assert forall|i: int|
        0 <= i < post.files@.len() implies post.id_lookup.spec_get(
        (#[trigger] post.files@[i]).1.local_path(),
    ) == Some(post.files@[i].0) by {
        if i < n {
            assert(pre.id_lookup.spec_get(s[i].1.local_path()) == Some(s[i].0));
            assert(s[i].1.local_path() != m.local_path());
            assert(post.files@[i] == s[i]);
        } else {
            assert(post.files@[i] == (id, m));
        }
    }
    assert forall|q: Seq<Seq<char>>|
        #[trigger] post.id_lookup.spec_get(q) is Some implies exists|i: int|
        0 <= i < post.files@.len() && Some((#[trigger] post.files@[i]).0)
            == post.id_lookup.spec_get(q) && post.files@[i].1.local_path() == q by {
        if q == m.local_path() {
            assert(post.files@[n] == (id, m));
            assert(Some(post.files@[n].0) == post.id_lookup.spec_get(q));
        } else {
            assert(pre.id_lookup.spec_get(q) is Some);
            let i = choose|i: int|
                0 <= i < s.len() && Some((#[trigger] s[i]).0) == pre.id_lookup.spec_get(q)
                    && s[i].1.local_path() == q;
            assert(post.files@[i] == s[i]);
        }
    }
}

impl<FU: FileUpdater> FileSet<FU> {
    /// Issues the next local state stamp, advancing the clock.
    fn create_state(&mut self) -> (st: State)
        requires
            old(self).last_timestamp < u32::MAX,
        ensures
            st.time_stamp == old(self).last_timestamp,
            st.site_id == old(self).site_id,
            final(self).last_timestamp == old(self).last_timestamp + 1,
            final(self).files == old(self).files,
            final(self).id_lookup == old(self).id_lookup,
            final(self).updater == old(self).updater,
            final(self).last_id == old(self).last_id,
            final(self).site_id == old(self).site_id,
    {
        let timestamp = self.last_timestamp;
        self.last_timestamp = self.last_timestamp + 1;
        State { site_id: self.site_id, time_stamp: timestamp }
    }

    /// Allocates the next local file identifier.
    fn get_next_id(&mut self) -> (id: u32)
        requires
            old(self).last_id < u32::MAX,
        ensures
            id == old(self).last_id,
            final(self).last_id == old(self).last_id + 1,
            final(self).files == old(self).files,
            final(self).id_lookup == old(self).id_lookup,
            final(self).updater == old(self).updater,
            final(self).last_timestamp == old(self).last_timestamp,
            final(self).site_id == old(self).site_id,
    {
        let id = self.last_id;
        self.last_id = self.last_id + 1;
        id
    }

    /// Tracks a new local file at `path`: allocates the identifier
    /// `(site_id, last_id)` and the next state stamp, installs the file in
    /// the trie (renaming on collision), and emits the `Create` to broadcast.
    pub fn process_create(&mut self, path: &Vec<String>) -> (op: FileSetOperation<FU>)
        requires
            old(self).wf(),
            path@.len() > 0,
            old(self).last_timestamp < u32::MAX,
            old(self).last_id < u32::MAX,
        ensures
            final(self).wf(),
            final(self).site_id == old(self).site_id,
            final(self).updater == old(self).updater,
            final(self).last_timestamp == old(self).last_timestamp + 1,
            final(self).last_id == old(self).last_id + 1,
            final(self).files@.len() == old(self).files@.len() + 1,
            match op {
                FileSetOperation::Create(c) => {
                    &&& c.id == (old(self).site_id, old(self).last_id)
                    &&& c.state.time_stamp == old(self).last_timestamp
                    &&& c.state.site_id == old(self).site_id
                    &&& c.filename@ == path@
                },
                _ => false,
            },
            ({
                let nid = (old(self).site_id, old(self).last_id);
                let m = final(self).meta(nid);
                &&& final(self).tracks(nid)
                &&& m.filename.0 == old(self).last_timestamp
                &&& m.filename.1@ == path@
                &&& m.attributes@.len() == 0
                &&& chosen_printed(
                    old(self).id_lookup.head,
                    path.deep_view().drop_last(),
                    path.deep_view().last(),
                    old(self).site_id,
                    m.printed_filename@,
                )
                &&& forall|f: FileID|
                    f != nid ==> #[trigger] final(self).tracks(f) == old(self).tracks(f) && (old(
                        self,
                    ).tracks(f) ==> final(self).meta(f) == old(self).meta(f))
                &&& forall|q: Seq<Seq<char>>|
                    #[trigger] final(self).path_id(q) == if q == m.local_path() {
                        Some(nid)
                    } else {
                        old(self).path_id(q)
                    }
            }),
    {
        let ghost pre = *old(self);
        let id = self.get_next_id();
        let state = self.create_state();
        let nid = (self.site_id, id);
        let printed = self.id_lookup.add_file(path, nid, self.site_id);
        let filename = clone_path(path);
        let meta = FileMetadata {
            filename: (state.time_stamp, filename),
            filename_author: state.site_id,
            printed_filename: printed,
            attributes: Vec::new(),
        };
        let ghost m = meta;
        proof {
            assert(m.filename.1.deep_view() =~= path.deep_view());
            assert(m.local_path() == path.deep_view().drop_last().push(m.printed_filename@));
            assert(!has_key(pre.files@, nid)) by {
                if has_key(pre.files@, nid) {
                    let i = choose|i: int|
                        0 <= i < pre.files@.len() && (#[trigger] pre.files@[i]).0 == nid;
                    assert(pre.files@[i].0.0 == pre.site_id);
                    assert(pre.files@[i].0.1 < pre.last_id);
                }
            }
        }
        self.files.push((nid, meta));
        proof {
            lemma_wf_insert(pre, *self, nid, m);
            let n = pre.files@.len() as int;
            assert((*self).files@[n] == (nid, m));
            lemma_val_at((*self).files@, n);
            assert forall|f: FileID|
                f != nid implies #[trigger] (*self).tracks(f) == pre.tracks(f) && (pre.tracks(f)
                ==> (*self).meta(f) == pre.meta(f)) by {
                if pre.tracks(f) {
                    let i = choose|i: int|
                        0 <= i < pre.files@.len() && (#[trigger] pre.files@[i]).0 == f;
                    assert((*self).files@[i] == pre.files@[i]);
                    lemma_val_at(pre.files@, i);
                    lemma_val_at((*self).files@, i);
                }
                if (*self).tracks(f) {
                    let i = choose|i: int|
                        0 <= i < (*self).files@.len() && (#[trigger] (*self).files@[i]).0 == f;
                    assert(i < n + 1);
                    if i < n {
                        assert(pre.files@[i] == (*self).files@[i]);
                        assert(pre.tracks(f));
                    }
                }
            }
        }
        let op_filename = clone_path(path);
        FileSetOperation::Create(CreateOperation { state, id: nid, filename: op_filename })
    }
}

/// Removing one entry together with its trie path preserves the replica
/// invariant.
proof fn lemma_wf_remove_entry<FU: FileUpdater>(pre: FileSet<FU>, post: FileSet<FU>, i: int)
    requires
        pre.wf(),
        0 <= i < pre.files@.len(),
        post.files@ == pre.files@.remove(i),
        post.id_lookup.wf(),
        post.site_id == pre.site_id,
        post.last_id == pre.last_id,
        forall|q: Seq<Seq<char>>|
            #[trigger] post.id_lookup.spec_get(q) == if q == pre.files@[i].1.local_path() {
                None
            } else {
                pre.id_lookup.spec_get(q)
            },
    ensures
        post.wf(),
        !has_key(post.files@, pre.files@[i].0),
        forall|f: FileID|
            f != pre.files@[i].0 ==> #[trigger] has_key(post.files@, f) == has_key(pre.files@, f)
                && (has_key(pre.files@, f) ==> val_of(post.files@, f) == val_of(pre.files@, f)),
{
    let s = pre.files@;
    let rid = s[i].0;
    let rpath = s[i].1.local_path();
    assert forall|x: int, y: int|
        0 <= x < y < post.files@.len() implies (#[trigger] post.files@[x]).0
        != (#[trigger] post.files@[y]).0 by {
        let x0 = if x < i { x } else { x + 1 };
        let y0 = if y < i { y } else { y + 1 };
        assert(post.files@[x] == s[x0]);
        assert(post.files@[y] == s[y0]);
        assert(s[x0].0 != s[y0].0);
    }
    assert forall|x: int| 0 <= x < post.files@.len() implies (#[trigger] post.files@[x]).1.wf()
        && post.id_lookup.spec_get(post.files@[x].1.local_path()) == Some(post.files@[x].0)
        && (post.files@[x].0.0 == post.site_id ==> post.files@[x].0.1 < post.last_id) by {
        let x0 = if x < i { x } else { x + 1 };
        assert(post.files@[x] == s[x0]);
        assert(s[x0].1.wf());
        assert(s[x0].0.0 == pre.site_id ==> s[x0].0.1 < pre.last_id);
        assert(pre.id_lookup.spec_get(s[x0].1.local_path()) == Some(s[x0].0));
        if s[x0].1.local_path() == rpath {
            assert(s[x0].0 == rid);
            assert(x0 != i);
            assert(false);
        }
    }
    assert forall|q: Seq<Seq<char>>|
        #[trigger] post.id_lookup.spec_get(q) is Some implies exists|x: int|
        0 <= x < post.files@.len() && Some((#[trigger] post.files@[x]).0)
            == post.id_lookup.spec_get(q) && post.files@[x].1.local_path() == q by {
        assert(q != rpath);
        assert(pre.id_lookup.spec_get(q) is Some);
        let j = choose|j: int|
            0 <= j < s.len() && Some((#[trigger] s[j]).0) == pre.id_lookup.spec_get(q)
                && s[j].1.local_path() == q;
        assert(j != i);
        let x = if j < i { j } else { j - 1 };
        assert(post.files@[x] == s[j]);
    }
    assert forall|f: FileID| !(#[trigger] has_key(post.files@, f)) || f != rid by {
        if has_key(post.files@, f) && f == rid {
            let x = choose|x: int|
                0 <= x < post.files@.len() && (#[trigger] post.files@[x]).0 == f;
            let x0 = if x < i { x } else { x + 1 };
            assert(post.files@[x] == s[x0]);
            assert(s[x0].0 == s[i].0 && x0 != i);
        }
    }
    assert forall|f: FileID|
        f != rid implies #[trigger] has_key(post.files@, f) == has_key(pre.files@, f) && (has_key(
        pre.files@,
        f,
    ) ==> val_of(post.files@, f) == val_of(pre.files@, f)) by {
        if has_key(pre.files@, f) {
            let j = choose|j: int| 0 <= j < s.len() && (#[trigger] s[j]).0 == f;
            assert(j != i);
            let x = if j < i { j } else { j - 1 };
            assert(post.files@[x] == s[j]);
            assert(has_key(post.files@, f));
            lemma_val_at(s, j);
            lemma_val_at(post.files@, x);
        }
        if has_key(post.files@, f) {
            let x = choose|x: int|
                0 <= x < post.files@.len() && (#[trigger] post.files@[x]).0 == f;
            let x0 = if x < i { x } else { x + 1 };
            assert(post.files@[x] == s[x0]);
            assert(has_key(pre.files@, f));
        }
    }
}

impl<FU: FileUpdater> FileSet<FU> {
    /// Both sides of one replica are untouched (the updater may differ).
    pub open spec fn same_tracked(self, other: Self) -> bool {
        &&& self.files == other.files
        &&& self.id_lookup == other.id_lookup
        &&& self.last_timestamp == other.last_timestamp
        &&& self.last_id == other.last_id
        &&& self.site_id == other.site_id
    }

    /// Stops tracking the file at `path` (which must resolve): removes it
    /// from the trie and from the file map, and emits the `Remove` to
    /// broadcast. Removes are unconditional: they carry no state stamp.
    pub fn process_remove(&mut self, path: &Vec<String>) -> (op: FileSetOperation<FU>)
        requires
            old(self).wf(),
            old(self).path_id(path.deep_view()) is Some,
        ensures
            final(self).wf(),
            final(self).site_id == old(self).site_id,
            final(self).updater == old(self).updater,
            final(self).last_timestamp == old(self).last_timestamp,
            final(self).last_id == old(self).last_id,
            match op {
                FileSetOperation::Remove(r) => Some(r.id) == old(self).path_id(path.deep_view()),
                _ => false,
            },
            ({
                let rid = old(self).path_id(path.deep_view())->0;
                &&& !final(self).tracks(rid)
                &&& forall|f: FileID|
                    f != rid ==> #[trigger] final(self).tracks(f) == old(self).tracks(f) && (old(
                        self,
                    ).tracks(f) ==> final(self).meta(f) == old(self).meta(f))
                &&& forall|q: Seq<Seq<char>>|
                    #[trigger] final(self).path_id(q) == if q == path.deep_view() {
                        None
                    } else {
                        old(self).path_id(q)
                    }
            }),
    {
        let ghost pre = *old(self);
        let r = self.id_lookup.remove_file(path);
        let rid = r.unwrap();
        let i = match self.find_file(rid) {
            Some(i) => i,
            None => {
                proof {
                    let j = choose|j: int|
                        0 <= j < pre.files@.len() && Some((#[trigger] pre.files@[j]).0)
                            == pre.id_lookup.spec_get(path.deep_view())
                            && pre.files@[j].1.local_path() == path.deep_view();
                    assert(has_key(pre.files@, rid));
                }
                unreached()
            },
        };
        proof {
            assert(pre.files@[i as int].1.local_path() == path.deep_view()) by {
                assert(pre.id_lookup.spec_get(pre.files@[i as int].1.local_path()) == Some(rid));
                let j = choose|j: int|
                    0 <= j < pre.files@.len() && Some((#[trigger] pre.files@[j]).0)
                        == pre.id_lookup.spec_get(path.deep_view())
                        && pre.files@[j].1.local_path() == path.deep_view();
                assert(pre.files@[j].0 == rid);
                if i as int != j {
                    assert(pre.files@[i as int].0 != pre.files@[j].0);
                }
            }
        }
        self.files.remove(i);
        proof {
            lemma_wf_remove_entry(pre, *self, i as int);
        }
        FileSetOperation::Remove(RemoveOperation { id: rid })
    }
}

/// The last-writer-wins acceptance rule: a stored stamp yields to the
/// operation's stamp when the operation's timestamp is newer, or equal with
/// the comparison site not above the operation's site. The comparison site is
/// the stored stamp's author under the canonical rule, or the local replica's
/// site under the interoperating rule — see `FileSet::tie_site`.
pub open spec fn lww_accepts(stored_ts: u32, cmp_site: u32, op_ts: u32, op_site: u32) -> bool {
    stored_ts < op_ts || (stored_ts == op_ts && cmp_site <= op_site)
}

/// A `Create` is dropped as a duplicate when its identifier is already
/// tracked, or claims an identifier this site never issued.
pub open spec fn create_dup<FU: FileUpdater>(pre: FileSet<FU>, o: CreateOperation) -> bool {
    pre.tracks(o.id) || (o.id.0 == pre.site_id && o.id.1 >= pre.last_id)
}

/// The replica change a fresh integrated `Create` makes: the file appears
/// under the operation's stamp and logical filename, its printed name is the
/// deterministic collision rename against the pre-state trie, and nothing
/// else moves.
pub open spec fn create_applied<FU: FileUpdater>(
    pre: FileSet<FU>,
    post: FileSet<FU>,
    o: CreateOperation,
) -> bool {
    &&& post.tracks(o.id)
    &&& post.meta(o.id).filename.0 == o.state.time_stamp
    &&& post.meta(o.id).filename.1@ == o.filename@
    &&& post.meta(o.id).attributes@.len() == 0
    &&& chosen_printed(
        pre.id_lookup.head,
        o.filename.deep_view().drop_last(),
        o.filename.deep_view().last(),
        o.id.0,
        post.meta(o.id).printed_filename@,
    )
    &&& forall|f: FileID|
        f != o.id ==> #[trigger] post.tracks(f) == pre.tracks(f) && (pre.tracks(f)
            ==> post.meta(f) == pre.meta(f))
    &&& forall|q: Seq<Seq<char>>|
        #[trigger] post.path_id(q) == if q == post.meta(o.id).local_path() {
            Some(o.id)
        } else {
            pre.path_id(q)
        }
    &&& post.last_timestamp == pre.last_timestamp
    &&& post.last_id == pre.last_id
    &&& post.site_id == pre.site_id
}

/// Integrating a `Create` either drops a duplicate or applies it.
pub open spec fn create_transition<FU: FileUpdater>(
    pre: FileSet<FU>,
    post: FileSet<FU>,
    o: CreateOperation,
) -> bool {
    if create_dup(pre, o) {
        post.same_tracked(pre)
    } else {
        create_applied(pre, post, o)
    }
}

/// The replica change an integrated `Remove` of a tracked file makes.
pub open spec fn remove_applied<FU: FileUpdater>(
    pre: FileSet<FU>,
    post: FileSet<FU>,
    id: FileID,
) -> bool {
    &&& pre.tracks(id)
    &&& !post.tracks(id)
    &&& forall|f: FileID|
        f != id ==> #[trigger] post.tracks(f) == pre.tracks(f) && (pre.tracks(f) ==> post.meta(f)
            == pre.meta(f))
    &&& forall|q: Seq<Seq<char>>|
        #[trigger] post.path_id(q) == if q == pre.meta(id).local_path() {
            None
        } else {
            pre.path_id(q)
        }
    &&& post.last_timestamp == pre.last_timestamp
    &&& post.last_id == pre.last_id
    &&& post.site_id == pre.site_id
}

impl<FU: FileUpdater> FileSet<FU> {
    /// Wraps a locally produced content transaction for the file at `path`
    /// (which must resolve) into the operation to broadcast. The replica
    /// itself does not change: the updater owns content state.
    pub fn process_update(
        &mut self,
        path: &Vec<String>,
        transaction: FU::FileTransaction,
        timestamp_lookup: BTreeMap<u32, (u32, u32)>,
    ) -> (op: FileSetOperation<FU>)
        requires
            old(self).wf(),
            old(self).path_id(path.deep_view()) is Some,
        ensures
            *final(self) == *old(self),
            match op {
                FileSetOperation::Update(u, tl) => {
                    &&& Some(u.id) == old(self).path_id(path.deep_view())
                    &&& u.data == transaction
                    &&& tl == timestamp_lookup
                },
                _ => false,
            },
    {
        let id = self.id_lookup.get_id_for(path).unwrap();
        FileSetOperation::Update(UpdateOperation { id, data: transaction }, timestamp_lookup)
    }

    /// The tracked file map.
    pub fn get_all_files(&self) -> (r: &Vec<(FileID, FileMetadata)>)
        ensures
            r == &self.files,
    {
        &self.files
    }

    /// The full history of one file, if tracked: the updater's changes from
    /// the beginning of time.
    pub fn get_file_history_for(&self, file: FileID) -> (r: Option<FU::FileTransaction>)
        requires
            self.wf(),
        ensures
            r is Some <==> self.tracks(file),
    {
        match self.find_file(file) {
            Some(i) => {
                proof {
                    lemma_val_at(self.files@, i as int);
                }
                let local = self.files[i].1.get_local_filename();
                Some(self.updater.get_changes_since(&local, None))
            },
            None => None,
        }
    }

    /// One `FileHistory` per tracked file, carrying its stamped filename and
    /// attributes together with the updater's changes since `timestamp`.
    pub fn get_changes_since(&self, timestamp: Option<(u32, u32)>) -> (r: Vec<
        (FileID, FileHistory<FU>),
    >)
        requires
            self.wf(),
        ensures
            r@.len() == self.files@.len(),
            forall|i: int|
                0 <= i < r@.len() ==> {
                    &&& (#[trigger] r@[i]).0 == self.files@[i].0
                    &&& r@[i].1.filename.0 == self.files@[i].1.filename.0
                    &&& r@[i].1.filename.1@ == self.files@[i].1.filename.1@
                    &&& r@[i].1.attributes@ == self.files@[i].1.attributes@
                },
    {
        let mut r: Vec<(FileID, FileHistory<FU>)> = Vec::new();
        let mut i: usize = 0;
        while i < self.files.len()
            invariant
                self.wf(),
                i <= self.files@.len(),
                r@.len() == i,
                forall|k: int|
                    0 <= k < i ==> {
                        &&& (#[trigger] r@[k]).0 == self.files@[k].0
                        &&& r@[k].1.filename.0 == self.files@[k].1.filename.0
                        &&& r@[k].1.filename.1@ == self.files@[k].1.filename.1@
                        &&& r@[k].1.attributes@ == self.files@[k].1.attributes@
                    },
            decreases self.files@.len() - i,
        {
            proof {
                assert(self.files@[i as int].1.wf());
            }
            let local = self.files[i].1.get_local_filename();
            let history = self.updater.get_changes_since(&local, timestamp);
            let entry = FileHistory::<FU> {
                filename: (self.files[i].1.filename.0, clone_path(&self.files[i].1.filename.1)),
                attributes: clone_attrs(&self.files[i].1.attributes),
                operation_history: history,
            };
            r.push((self.files[i].0, entry));
            i += 1;
        }
        r
    }

    /// Integrates a remote `Create`. A duplicate identifier, or one this site
    /// never issued under its own site number, is dropped so that reapplying
    /// a `Create` never disturbs the replica. Otherwise the file is installed
    /// exactly as a local create would install it, with the author's site
    /// number driving collision renames, and the on-disk file is created
    /// through the updater.
    fn integrate_create(&mut self, o: CreateOperation) -> (r: Result<(), FileSetError>)
        requires
            old(self).wf(),
            o.filename@.len() > 0,
        ensures
            final(self).wf(),
            create_transition(*old(self), *final(self), o),
            r is Ok || r matches Err(FileSetError::IOError),
            create_dup(*old(self), o) ==> r is Ok,
    {
        let ghost pre = *old(self);
        if self.find_file(o.id).is_some() {
            return Ok(());
        }
        if o.id.0 == self.site_id && o.id.1 >= self.last_id {
            return Ok(());
        }
        let printed = self.id_lookup.add_file(&o.filename, o.id, o.id.0);
        let meta = FileMetadata {
            filename: (o.state.time_stamp, o.filename),
            filename_author: o.state.site_id,
            printed_filename: printed,
            attributes: Vec::new(),
        };
        let ghost m = meta;
        let local = meta.get_local_filename();
        self.files.push((o.id, meta));
        let res = self.updater.create_file(&local);
        proof {
            lemma_wf_insert(pre, *self, o.id, m);
            let n = pre.files@.len() as int;
            assert((*self).files@[n] == (o.id, m));
            lemma_val_at((*self).files@, n);
            assert forall|f: FileID|
                f != o.id implies #[trigger] (*self).tracks(f) == pre.tracks(f) && (pre.tracks(f)
                ==> (*self).meta(f) == pre.meta(f)) by {
                if pre.tracks(f) {
                    let i = choose|i: int|
                        0 <= i < pre.files@.len() && (#[trigger] pre.files@[i]).0 == f;
                    assert((*self).files@[i] == pre.files@[i]);
                    lemma_val_at(pre.files@, i);
                    lemma_val_at((*self).files@, i);
                }
                if (*self).tracks(f) {
                    let i = choose|i: int|
                        0 <= i < (*self).files@.len() && (#[trigger] (*self).files@[i]).0 == f;
                    if i < n {
                        assert(pre.files@[i] == (*self).files@[i]);
                        assert(pre.tracks(f));
                    }
                }
            }
        }
        match res {
            Ok(()) => Ok(()),
            Err(_) => Err(FileSetError::IOError),
        }
    }

    /// Integrates a remote `Remove`: an unknown identifier is reported as
    /// `IDNotFound` and nothing moves; a tracked one leaves the file map and
    /// the trie, and its on-disk file is removed through the updater.
    fn integrate_remove(&mut self, o: RemoveOperation) -> (r: Result<(), FileSetError>)
        requires
            old(self).wf(),
        ensures
            final(self).wf(),
            !old(self).tracks(o.id) ==> final(self).same_tracked(*old(self)) && (r matches Err(e)
                && e matches FileSetError::IDNotFound(s, i) && (s, i) == o.id),
            old(self).tracks(o.id) ==> remove_applied(*old(self), *final(self), o.id) && (r is Ok
                || r matches Err(FileSetError::IOError)),
    {
        let ghost pre = *old(self);
        let i = match self.find_file(o.id) {
            Some(i) => i,
            None => {
                return Err(FileSetError::IDNotFound(o.id.0, o.id.1));
            },
        };
        proof {
            lemma_val_at(pre.files@, i as int);
            assert(pre.files@[i as int].1.wf());
        }
        let entry = self.files.remove(i);
        let local = entry.1.get_local_filename();
        self.id_lookup.remove_file(&local);
        let res = self.updater.remove_file(&local);
        proof {
            lemma_wf_remove_entry(pre, *self, i as int);
        }
        match res {
            Ok(()) => Ok(()),
            Err(_) => Err(FileSetError::IOError),
        }
    }

    /// Integrates a remote content `Update`: looks the file up and delegates
    /// the opaque transaction to the updater. No metadata moves at this
    /// layer: the updater owns content resolution.
    fn integrate_update(
        &mut self,
        o: &mut UpdateOperation<FU>,
        timestamp_lookup: &BTreeMap<u32, (u32, u32)>,
    ) -> (r: Result<(), FileSetError>)
        requires
            old(self).wf(),
        ensures
            final(self).wf(),
            final(self).same_tracked(*old(self)),
            final(o).id == old(o).id,
            !old(self).tracks(old(o).id) ==> (r matches Err(e) && e
                matches FileSetError::IDNotFound(s, i) && (s, i) == old(o).id),
            old(self).tracks(old(o).id) ==> (r is Ok || r matches Err(FileSetError::IOError)),
    {
        let i = match self.find_file(o.id) {
            Some(i) => i,
            None => {
                return Err(FileSetError::IDNotFound(o.id.0, o.id.1));
            },
        };
        proof {
            assert(self.files@[i as int].1.wf());
        }
        let local = self.files[i].1.get_local_filename();
        match self.updater.update_file(&local, timestamp_lookup, &mut o.data) {
            Ok(()) => Ok(()),
            Err(_) => Err(FileSetError::IOError),
        }
    }
}

/// A clone of an attribute list reads the same.
fn clone_attrs(a: &Vec<(String, (u32, u32, String))>) -> (r: Vec<(String, (u32, u32, String))>)
    ensures
        r@ == a@,
{
    let mut r: Vec<(String, (u32, u32, String))> = Vec::new();
    let mut i: usize = 0;
    while i < a.len()
        invariant
            i <= a@.len(),
            r@ =~= a@.take(i as int),
        decreases a@.len() - i,
    {
        r.push((a[i].0.clone(), (a[i].1.0, a[i].1.1, a[i].1.2.clone())));
        proof {
            assert(r@ =~= a@.take(i + 1));
        }
        i += 1;
    }
    proof {
        assert(a@.take(a@.len() as int) =~= a@);
    }
    r
}

/// Replacing one entry's metadata, moving its trie path from the old on-disk
/// path to a fresh one, preserves the replica invariant.
#[verifier::rlimit(50)]
proof fn lemma_wf_move<FU: FileUpdater>(
    pre: FileSet<FU>,
    post: FileSet<FU>,
    i: int,
    m2: FileMetadata,
)
    requires
        pre.wf(),
        0 <= i < pre.files@.len(),
        m2.wf(),
        post.files@ == pre.files@.update(i, (pre.files@[i].0, m2)),
        post.id_lookup.wf(),
        post.site_id == pre.site_id,
        post.last_id == pre.last_id,
        m2.local_path() == pre.files@[i].1.local_path() || pre.id_lookup.spec_get(
            m2.local_path(),
        ) is None,
        forall|q: Seq<Seq<char>>|
            #[trigger] post.id_lookup.spec_get(q) == if q == m2.local_path() {
                Some(pre.files@[i].0)
            } else if q == pre.files@[i].1.local_path() {
                None
            } else {
                pre.id_lookup.spec_get(q)
            },
    ensures
        post.wf(),
        has_key(post.files@, pre.files@[i].0),
        val_of(post.files@, pre.files@[i].0) == m2,
        forall|f: FileID|
            f != pre.files@[i].0 ==> #[trigger] has_key(post.files@, f) == has_key(pre.files@, f),
        forall|f: FileID|
            f != pre.files@[i].0 && has_key(pre.files@, f) ==> #[trigger] val_of(post.files@, f)
                == val_of(pre.files@, f),
{
    let s = pre.files@;
    let id = s[i].0;
    let oldp = s[i].1.local_path();
    let newp = m2.local_path();
    assert forall|x: int, y: int|
        0 <= x < y < post.files@.len() implies (#[trigger] post.files@[x]).0
        != (#[trigger] post.files@[y]).0 by {
        assert(s[x].0 != s[y].0);
    }
    assert forall|x: int|
        0 <= x < post.files@.len() && x != i implies post.files@[x] == s[x]
        && (#[trigger] post.files@[x]).1.local_path() != oldp && post.files@[x].1.local_path()
        != newp by {
        assert(pre.id_lookup.spec_get(s[x].1.local_path()) == Some(s[x].0));
        if s[x].1.local_path() == oldp {
            assert(Some(s[x].0) == pre.id_lookup.spec_get(oldp));
            assert(pre.id_lookup.spec_get(oldp) == Some(id));
            assert(s[x].0 != id);
        }
        if s[x].1.local_path() == newp {
            assert(newp != oldp);
            assert(pre.id_lookup.spec_get(newp) is None);
        }
    }
    assert forall|x: int| 0 <= x < post.files@.len() implies (#[trigger] post.files@[x]).1.wf()
        && post.id_lookup.spec_get(post.files@[x].1.local_path()) == Some(post.files@[x].0)
        && (post.files@[x].0.0 == post.site_id ==> post.files@[x].0.1 < post.last_id) by {
        if x == i {
            assert(post.files@[x] == (id, m2));
            assert(s[i].0.0 == pre.site_id ==> s[i].0.1 < pre.last_id);
        } else {
            assert(post.files@[x] == s[x]);
            assert(s[x].1.wf());
            assert(s[x].0.0 == pre.site_id ==> s[x].0.1 < pre.last_id);
        }
    }
    assert forall|q: Seq<Seq<char>>|
        #[trigger] post.id_lookup.spec_get(q) is Some implies exists|x: int|
        0 <= x < post.files@.len() && Some((#[trigger] post.files@[x]).0)
            == post.id_lookup.spec_get(q) && post.files@[x].1.local_path() == q by {
        if q == newp {
            assert(post.files@[i] == (id, m2));
            assert(Some(post.files@[i].0) == post.id_lookup.spec_get(q));
        } else {
            assert(q != newp && q != oldp);
            assert(pre.id_lookup.spec_get(q) is Some);
            let j = choose|j: int|
                0 <= j < s.len() && Some((#[trigger] s[j]).0) == pre.id_lookup.spec_get(q)
                    && s[j].1.local_path() == q;
            assert(j != i);
            assert(post.files@[j] == s[j]);
        }
    }
    lemma_val_at(post.files@, i);
    assert forall|f: FileID|
        f != id implies #[trigger] has_key(post.files@, f) == has_key(pre.files@, f) by {
        if has_key(pre.files@, f) {
            let j = choose|j: int| 0 <= j < s.len() && (#[trigger] s[j]).0 == f;
            assert(post.files@[j] == s[j]);
            assert(has_key(post.files@, f));
        }
        if has_key(post.files@, f) {
            let j = choose|j: int|
                0 <= j < post.files@.len() && (#[trigger] post.files@[j]).0 == f;
            assert(post.files@[j].0 == s[j].0);
            assert(has_key(pre.files@, f));
        }
    }
    assert forall|f: FileID|
        f != id && has_key(pre.files@, f) implies #[trigger] val_of(post.files@, f) == val_of(
        pre.files@,
        f,
    ) by {
        let j = choose|j: int| 0 <= j < s.len() && (#[trigger] s[j]).0 == f;
        assert(j != i);
        assert(post.files@[j] == s[j]);
        lemma_val_at(s, j);
        lemma_val_at(post.files@, j);
    }
}

/// The attribute map of a list extended by a fresh key.
proof fn lemma_attr_map_push(s: Seq<(String, (u32, u32, String))>, e: (String, (u32, u32, String)))
    requires
        forall|k: int| 0 <= k < s.len() ==> (#[trigger] s[k]).0@ != e.0@,
    ensures
        attr_map(s.push(e)) == attr_map(s).insert(e.0@, (e.1.0, e.1.1, e.1.2@)),
        !attr_map(s).contains_key(e.0@),
{
    assert(s.push(e).drop_last() =~= s);
    lemma_attr_map_misses(s, e.0@);
}

/// A key borne by no entry is absent from the attribute map.
proof fn lemma_attr_map_misses(s: Seq<(String, (u32, u32, String))>, key: Seq<char>)
    requires
        forall|k: int| 0 <= k < s.len() ==> (#[trigger] s[k]).0@ != key,
    ensures
        !attr_map(s).contains_key(key),
    decreases s.len(),
{
    if s.len() > 0 {
        assert forall|k: int|
            0 <= k < s.drop_last().len() implies (#[trigger] s.drop_last()[k]).0@ != key by {
            assert(s.drop_last()[k] == s[k]);
        }
        lemma_attr_map_misses(s.drop_last(), key);
    }
}

/// The attribute map reads each entry of a duplicate-free list.
proof fn lemma_attr_map_at(s: Seq<(String, (u32, u32, String))>, k: int)
    requires
        forall|a: int, b: int| 0 <= a < b < s.len() ==> (#[trigger] s[a]).0@ != (#[trigger] s[b]).0@,
        0 <= k < s.len(),
    ensures
        attr_map(s).contains_key(s[k].0@),
        attr_map(s)[s[k].0@] == (s[k].1.0, s[k].1.1, s[k].1.2@),
    decreases s.len(),
{
    if k == s.len() - 1 {
    } else {
        assert forall|a: int, b: int|
            0 <= a < b < s.drop_last().len() implies (#[trigger] s.drop_last()[a]).0@
            != (#[trigger] s.drop_last()[b]).0@ by {
            assert(s.drop_last()[a] == s[a] && s.drop_last()[b] == s[b]);
        }
        lemma_attr_map_at(s.drop_last(), k);
        assert(s.drop_last()[k] == s[k]);
        assert(s[k].0@ != s[s.len() - 1].0@);
    }
}

/// The attribute map after overwriting one entry in place.
proof fn lemma_attr_map_update(s: Seq<(String, (u32, u32, String))>, k: int, e: (String, (u32, u32, String)))
    requires
        forall|a: int, b: int| 0 <= a < b < s.len() ==> (#[trigger] s[a]).0@ != (#[trigger] s[b]).0@,
        0 <= k < s.len(),
        e.0@ == s[k].0@,
    ensures
        attr_map(s.update(k, e)) =~= attr_map(s).insert(e.0@, (e.1.0, e.1.1, e.1.2@)),
    decreases s.len(),
{
    let t = s.update(k, e);
    if k == s.len() - 1 {
        assert(t.drop_last() =~= s.drop_last());
        assert(t.last() == e);
    } else {
        assert(t.drop_last() =~= s.drop_last().update(k, e));
        assert forall|a: int, b: int|
            0 <= a < b < s.drop_last().len() implies (#[trigger] s.drop_last()[a]).0@
            != (#[trigger] s.drop_last()[b]).0@ by {
            assert(s.drop_last()[a] == s[a] && s.drop_last()[b] == s[b]);
        }
        assert(s.drop_last()[k] == s[k]);
        lemma_attr_map_update(s.drop_last(), k, e);
        assert(t.last() == s.last());
        assert(e.0@ != s.last().0@);
        assert(attr_map(t) =~= attr_map(s).insert(e.0@, (e.1.0, e.1.1, e.1.2@)));
    }
}

/// The replica change an accepted stamped rename makes: the file's logical
/// filename takes the operation's stamp and components, its printed name is
/// the deterministic collision rename computed against the trie with the old
/// path cleared, the trie moves the file from the old on-disk path to the new
/// one, and no other file or path moves. `author` is the site whose number
/// drives collision renames; `stamp_site` is the site recorded as the new
/// stamp's author.
pub open spec fn filename_applied<FU: FileUpdater>(
    pre: FileSet<FU>,
    post: FileSet<FU>,
    id: FileID,
    ts: u32,
    name: Seq<Seq<char>>,
    author: u32,
    stamp_site: u32,
) -> bool {
    &&& post.tracks(id)
    &&& post.meta(id).filename.0 == ts
    &&& post.meta(id).filename_author == stamp_site
    &&& post.meta(id).filename.1.deep_view() == name
    &&& post.meta(id).attributes == pre.meta(id).attributes
    &&& chosen_printed_map(
        (|q: Seq<Seq<char>>|
            if q == pre.meta(id).local_path() {
                None
            } else {
                pre.path_id(q)
            }),
        name.drop_last(),
        name.last(),
        author,
        post.meta(id).printed_filename@,
    )
    &&& forall|f: FileID|
        f != id ==> #[trigger] post.tracks(f) == pre.tracks(f) && (pre.tracks(f) ==> post.meta(f)
            == pre.meta(f))
    &&& forall|q: Seq<Seq<char>>|
        #[trigger] post.path_id(q) == if q == post.meta(id).local_path() {
            Some(id)
        } else if q == pre.meta(id).local_path() {
            None
        } else {
            pre.path_id(q)
        }
}

/// The replica change an accepted attribute write makes: the key takes the
/// operation's stamp and value, and nothing else moves.
pub open spec fn attr_applied<FU: FileUpdater>(
    pre: FileSet<FU>,
    post: FileSet<FU>,
    id: FileID,
    key: Seq<char>,
    ts: u32,
    author: u32,
    value: Seq<char>,
) -> bool {
    &&& post.tracks(id)
    &&& post.meta(id).filename == pre.meta(id).filename
    &&& post.meta(id).printed_filename == pre.meta(id).printed_filename
    &&& post.meta(id).attrs() == pre.meta(id).attrs().insert(key, (ts, author, value))
    &&& forall|f: FileID|
        f != id ==> #[trigger] post.tracks(f) == pre.tracks(f) && (pre.tracks(f) ==> post.meta(f)
            == pre.meta(f))
    &&& post.id_lookup == pre.id_lookup
}

/// Whether a stored attribute stamp blocks the operation's stamp.
pub open spec fn attr_blocked<FU: FileUpdater>(
    pre: FileSet<FU>,
    id: FileID,
    key: Seq<char>,
    st: State,
) -> bool {
    pre.meta(id).attrs().contains_key(key) && !lww_accepts(
        pre.meta(id).attrs()[key].0,
        pre.tie_site(pre.meta(id).attrs()[key].1),
        st.time_stamp,
        st.site_id,
    )
}

/// Integrating an `UpdateMetadata` either reports an unknown identifier,
/// drops a stale stamp, or applies the rename or attribute write.
pub open spec fn update_metadata_transition<FU: FileUpdater>(
    pre: FileSet<FU>,
    post: FileSet<FU>,
    o: UpdateMetadata,
) -> bool {
    &&& post.last_timestamp == pre.last_timestamp
    &&& post.last_id == pre.last_id
    &&& post.site_id == pre.site_id
    &&& post.tie_break_local == pre.tie_break_local
    &&& match o.data {
        MetadataTransaction::Filename(name) => {
            if !pre.tracks(o.id) {
                post.same_tracked(pre)
            } else if !lww_accepts(
                pre.meta(o.id).filename.0,
                pre.tie_site(pre.meta(o.id).filename_author),
                o.state.time_stamp,
                o.state.site_id,
            ) {
                post.same_tracked(pre)
            } else {
                filename_applied(
                    pre,
                    post,
                    o.id,
                    o.state.time_stamp,
                    name.deep_view(),
                    o.state.site_id,
                    o.state.site_id,
                )
            }
        },
        MetadataTransaction::Custom(key, value) => {
            if !pre.tracks(o.id) {
                post.same_tracked(pre)
            } else if attr_blocked(pre, o.id, key@, o.state) {
                post.same_tracked(pre)
            } else {
                attr_applied(pre, post, o.id, key@, o.state.time_stamp, o.state.site_id, value@)
            }
        },
    }
}

/// First index in `attrs` whose key reads `key`.
fn find_attr(attrs: &Vec<(String, (u32, u32, String))>, key: &String) -> (r: Option<usize>)
    ensures
        match r {
            Some(k) => k < attrs@.len() && attrs@[k as int].0@ == key@,
            None => forall|k: int| 0 <= k < attrs@.len() ==> (#[trigger] attrs@[k]).0@ != key@,
        },
{
    let mut k: usize = 0;
    while k < attrs.len()
        invariant
            k <= attrs@.len(),
            forall|x: int| 0 <= x < k ==> (#[trigger] attrs@[x]).0@ != key@,
        decreases attrs@.len() - k,
    {
        if attrs[k].0 == *key {
            return Some(k);
        }
        k += 1;
    }
    None
}

impl<FU: FileUpdater> FileSet<FU> {
    /// Moves the tracked file at `old_path` to `new_path` under a fresh state
    /// stamp, preserving the file's original site as the rename authority,
    /// and emits the stamped rename to broadcast.
    pub fn process_file_move(&mut self, old_path: &Vec<String>, new_path: &Vec<String>) -> (op:
        FileSetOperation<FU>)
        requires
            old(self).wf(),
            old(self).path_id(old_path.deep_view()) is Some,
            new_path@.len() > 0,
            old(self).last_timestamp < u32::MAX,
        ensures
            final(self).wf(),
            final(self).site_id == old(self).site_id,
            final(self).updater == old(self).updater,
            final(self).last_id == old(self).last_id,
            final(self).last_timestamp == old(self).last_timestamp + 1,
            ({
                let rid = old(self).path_id(old_path.deep_view())->0;
                &&& match op {
                    FileSetOperation::UpdateMetadata(u) => {
                        &&& u.id == rid
                        &&& u.state.time_stamp == old(self).last_timestamp
                        &&& u.state.site_id == old(self).site_id
                        &&& match u.data {
                            MetadataTransaction::Filename(f) => f@ == new_path@,
                            _ => false,
                        }
                    },
                    _ => false,
                }
                &&& filename_applied(
                    *old(self),
                    *final(self),
                    rid,
                    old(self).last_timestamp,
                    new_path.deep_view(),
                    rid.0,
                    old(self).site_id,
                )
            }),
    {
        let ghost pre = *old(self);
        let r = self.id_lookup.remove_file(old_path);
        let rid = r.unwrap();
        let state = self.create_state();
        let ghost mid = self.id_lookup;
        let printed = self.id_lookup.add_file(new_path, rid, rid.0);
        let i = match self.find_file(rid) {
            Some(i) => i,
            None => {
                proof {
                    let j = choose|j: int|
                        0 <= j < pre.files@.len() && Some((#[trigger] pre.files@[j]).0)
                            == pre.id_lookup.spec_get(old_path.deep_view())
                            && pre.files@[j].1.local_path() == old_path.deep_view();
                    assert(has_key(pre.files@, rid));
                }
                unreached()
            },
        };
        proof {
            assert(pre.files@[i as int].1.local_path() == old_path.deep_view()) by {
                assert(pre.id_lookup.spec_get(pre.files@[i as int].1.local_path()) == Some(rid));
                let j = choose|j: int|
                    0 <= j < pre.files@.len() && Some((#[trigger] pre.files@[j]).0)
                        == pre.id_lookup.spec_get(old_path.deep_view())
                        && pre.files@[j].1.local_path() == old_path.deep_view();
                assert(pre.files@[j].0 == rid);
                if i as int != j {
                    assert(pre.files@[i as int].0 != pre.files@[j].0);
                }
            }
            lemma_val_at(pre.files@, i as int);
        }
        let mut entry = self.files.remove(i);
        let name_vec = clone_path(new_path);
        let moved = FileMetadata {
            filename: (state.time_stamp, name_vec),
            filename_author: state.site_id,
            printed_filename: printed,
            attributes: entry.1.attributes,
        };
        entry.1 = moved;
        let ghost m2 = entry.1;
        self.files.insert(i, entry);
        proof {
            assert(self.files@ =~= pre.files@.update(i as int, (rid, m2)));
            assert(m2.filename.1.deep_view() =~= new_path.deep_view());
            self.lemma_move_wiring(pre, mid, i as int, m2, rid, new_path.deep_view(), rid.0);
        }
        let filename = clone_path(new_path);
        FileSetOperation::UpdateMetadata(
            UpdateMetadata {
                state,
                id: rid,
                data: MetadataTransaction::Filename(filename),
            },
        )
    }

    /// Common proof for a rename: wires the trie's remove-then-add ensures
    /// and the file map update into `lemma_wf_move` and `filename_applied`.
    proof fn lemma_move_wiring(
        self,
        pre: FileSet<FU>,
        mid: IDLookup,
        i: int,
        m2: FileMetadata,
        rid: FileID,
        name: Seq<Seq<char>>,
        author: u32,
    )
        requires
            pre.wf(),
            0 <= i < pre.files@.len(),
            pre.files@[i].0 == rid,
            name.len() > 0,
            m2.filename.1.deep_view() == name,
            m2.attributes == pre.files@[i].1.attributes,
            self.files@ == pre.files@.update(i, (rid, m2)),
            self.last_id == pre.last_id,
            self.last_timestamp >= pre.last_timestamp,
            self.site_id == pre.site_id,
            self.id_lookup.wf(),
            forall|q: Seq<Seq<char>>|
                #[trigger] mid.spec_get(q) == if q == pre.files@[i].1.local_path() {
                    None
                } else {
                    pre.path_id(q)
                },
            chosen_printed(mid.head, name.drop_last(), name.last(), author, m2.printed_filename@),
            mid.spec_get(name.drop_last().push(m2.printed_filename@)) is None,
            forall|q: Seq<Seq<char>>|
                #[trigger] self.id_lookup.spec_get(q) == if q == name.drop_last().push(
                    m2.printed_filename@,
                ) {
                    Some(rid)
                } else {
                    mid.spec_get(q)
                },
        ensures
            self.wf(),
            filename_applied(pre, self, rid, m2.filename.0, name, author, m2.filename_author),
    {
        let oldp = pre.files@[i].1.local_path();
        let target = name.drop_last().push(m2.printed_filename@);
        assert(m2.local_path() == target);
        assert(m2.wf());
        assert forall|q: Seq<Seq<char>>|
            #[trigger] self.id_lookup.spec_get(q) == if q == m2.local_path() {
                Some(rid)
            } else if q == oldp {
                None
            } else {
                pre.id_lookup.spec_get(q)
            } by {}
        assert(m2.local_path() == oldp || pre.id_lookup.spec_get(m2.local_path()) is None) by {
            if target != oldp {
                assert(mid.spec_get(target) == pre.path_id(target));
            }
        }
        lemma_wf_move(pre, self, i, m2);
        lemma_val_at(pre.files@, i);
        let gg: spec_fn(Seq<Seq<char>>) -> Option<FileID> = (|q: Seq<Seq<char>>|
            if q == pre.meta(rid).local_path() {
                None
            } else {
                pre.path_id(q)
            });
        assert forall|q: Seq<Seq<char>>| #[trigger] mid.head.lookup(q) == gg(q) by {
            assert(mid.spec_get(q) == mid.head.lookup(q));
        }
        crate::lookup::lemma_chosen_to_map(
            mid.head,
            gg,
            name.drop_last(),
            name.last(),
            author,
            m2.printed_filename@,
        );
        assert(chosen_printed_map(
            (|q: Seq<Seq<char>>|
                if q == pre.meta(rid).local_path() {
                    None
                } else {
                    pre.path_id(q)
                }),
            name.drop_last(),
            name.last(),
            author,
            m2.printed_filename@,
        ));
        assert forall|f: FileID|
            f != rid implies #[trigger] self.tracks(f) == pre.tracks(f) && (pre.tracks(f)
            ==> self.meta(f) == pre.meta(f)) by {}
    }

    /// Integrates a remote stamped rename or attribute write. An unknown
    /// identifier is reported as `IDNotFound`; a stamp the stored one beats
    /// under the last-writer-wins rule is dropped; otherwise the change is
    /// applied, and a rename also moves the on-disk file through the updater.
    fn integrate_update_metadata(&mut self, o: UpdateMetadata) -> (r: Result<(), FileSetError>)
        requires
            old(self).wf(),
            match o.data {
                MetadataTransaction::Filename(name) => name@.len() > 0,
                _ => true,
            },
        ensures
            final(self).wf(),
            update_metadata_transition(*old(self), *final(self), o),
            !old(self).tracks(o.id) <==> (r matches Err(e) && e matches FileSetError::IDNotFound(
                s,
                i,
            ) && (s, i) == o.id),
            old(self).tracks(o.id) ==> (r is Ok || (r matches Err(FileSetError::IOError) && o.data
                matches MetadataTransaction::Filename(..))),
            old(self).tracks(o.id) && (match o.data {
                MetadataTransaction::Filename(_) => !lww_accepts(
                    old(self).meta(o.id).filename.0,
                    old(self).tie_site(old(self).meta(o.id).filename_author),
                    o.state.time_stamp,
                    o.state.site_id,
                ),
                MetadataTransaction::Custom(..) => true,
            }) ==> r is Ok,
    {
        let ghost pre = *old(self);
        let i = match self.find_file(o.id) {
            Some(i) => i,
            None => {
                return Err(FileSetError::IDNotFound(o.id.0, o.id.1));
            },
        };
        proof {
            lemma_val_at(pre.files@, i as int);
        }
        match o.data {
            MetadataTransaction::Filename(filename) => {
                let stored_ts = self.files[i].1.filename.0;
                let cmp_site = if self.tie_break_local {
                    self.site_id
                } else {
                    self.files[i].1.filename_author
                };
                if stored_ts > o.state.time_stamp || (stored_ts == o.state.time_stamp && cmp_site
                    > o.state.site_id) {
                    return Ok(());
                }
                let old_local = self.files[i].1.get_local_filename();
                self.id_lookup.remove_file(&old_local);
                let ghost mid = self.id_lookup;
                let printed = self.id_lookup.add_file(&filename, o.id, o.state.site_id);
                let mut entry = self.files.remove(i);
                let moved = FileMetadata {
                    filename: (o.state.time_stamp, filename),
                    filename_author: o.state.site_id,
                    printed_filename: printed,
                    attributes: entry.1.attributes,
                };
                entry.1 = moved;
                let ghost m2 = entry.1;
                self.files.insert(i, entry);
                let new_local = self.files[i].1.get_local_filename();
                let res = self.updater.move_file(&old_local, &new_local);
                proof {
                    assert(self.files@ =~= pre.files@.update(i as int, (o.id, m2)));
                    self.lemma_move_wiring(
                        pre,
                        mid,
                        i as int,
                        m2,
                        o.id,
                        m2.filename.1.deep_view(),
                        o.state.site_id,
                    );
                }
                match res {
                    Ok(()) => Ok(()),
                    Err(_) => Err(FileSetError::IOError),
                }
            },
            MetadataTransaction::Custom(key, value) => {
                let ghost m = pre.files@[i as int].1;
                let k_opt = find_attr(&self.files[i].1.attributes, &key);
                if let Some(k) = k_opt {
                    let stored_ts = self.files[i].1.attributes[k].1.0;
                    let cmp_site = if self.tie_break_local {
                        self.site_id
                    } else {
                        self.files[i].1.attributes[k].1.1
                    };
                    proof {
                        lemma_attr_map_at(m.attributes@, k as int);
                    }
                    if stored_ts > o.state.time_stamp || (stored_ts == o.state.time_stamp
                        && cmp_site > o.state.site_id) {
                        return Ok(());
                    }
                }
                let mut entry = self.files.remove(i);
                match k_opt {
                    Some(k) => {
                        let mut e = entry.1.attributes.remove(k);
                        e.1 = (o.state.time_stamp, o.state.site_id, value);
                        let ghost enew = e;
                        proof {
                            lemma_attr_map_update(m.attributes@, k as int, enew);
                        }
                        entry.1.attributes.insert(k, e);
                        proof {
                            assert(entry.1.attributes@ =~= m.attributes@.update(k as int, enew));
                        }
                    },
                    None => {
                        let e = (key, (o.state.time_stamp, o.state.site_id, value));
                        let ghost enew = e;
                        proof {
                            lemma_attr_map_misses(m.attributes@, enew.0@);
                            lemma_attr_map_push(m.attributes@, enew);
                        }
                        entry.1.attributes.push(e);
                    },
                }
                let ghost m2 = entry.1;
                self.files.insert(i, entry);
                proof {
                    assert(self.files@ =~= pre.files@.update(i as int, (o.id, m2)));
                    assert(m2.wf()) by {
                        assert(m.wf());
                        if m2.attributes@.len() == m.attributes@.len() + 1 {
                            assert forall|a: int, b: int|
                                0 <= a < b < m2.attributes@.len() implies (#[trigger] m2.attributes@[a]).0@
                                != (#[trigger] m2.attributes@[b]).0@ by {
                                if b < m.attributes@.len() {
                                    assert(m2.attributes@[a] == m.attributes@[a]);
                                    assert(m2.attributes@[b] == m.attributes@[b]);
                                } else {
                                    assert(m2.attributes@[a] == m.attributes@[a]);
                                }
                            }
                        } else {
                            assert forall|a: int, b: int|
                                0 <= a < b < m2.attributes@.len() implies (#[trigger] m2.attributes@[a]).0@
                                != (#[trigger] m2.attributes@[b]).0@ by {
                                assert(m.attributes@[a].0@ != m.attributes@[b].0@);
                            }
                        }
                    }
                    assert(m2.local_path() == m.local_path());
                    assert forall|q: Seq<Seq<char>>|
                        #[trigger] self.id_lookup.spec_get(q) == if q == m2.local_path() {
                            Some(o.id)
                        } else if q == m.local_path() {
                            None
                        } else {
                            pre.id_lookup.spec_get(q)
                        } by {
                        assert(pre.id_lookup.spec_get(m.local_path()) == Some(o.id));
                    }
                    lemma_wf_move(pre, *self, i as int, m2);
                    lemma_val_at(pre.files@, i as int);
                    assert forall|f: FileID|
                        f != o.id implies #[trigger] self.tracks(f) == pre.tracks(f) && (
                        pre.tracks(f) ==> self.meta(f) == pre.meta(f)) by {}
                }
                Ok(())
            },
        }
    }

    /// Integrates one remote operation, dispatching on its variant.
    pub fn integrate_remote(&mut self, remote: FileSetOperation<FU>) -> (r: Result<
        (),
        FileSetError,
    >)
        requires
            old(self).wf(),
            match remote {
                FileSetOperation::Create(ref c) => c.filename@.len() > 0,
                FileSetOperation::UpdateMetadata(ref u) => match u.data {
                    MetadataTransaction::Filename(ref name) => name@.len() > 0,
                    _ => true,
                },
                _ => true,
            },
        ensures
            final(self).wf(),
            final(self).last_timestamp == old(self).last_timestamp,
            final(self).last_id == old(self).last_id,
            final(self).site_id == old(self).site_id,
            match remote {
                FileSetOperation::Create(c) => {
                    &&& create_transition(*old(self), *final(self), c)
                    &&& (r is Ok || r matches Err(FileSetError::IOError))
                    &&& (create_dup(*old(self), c) ==> r is Ok)
                },
                FileSetOperation::Remove(o) => {
                    &&& (!old(self).tracks(o.id) ==> final(self).same_tracked(*old(self)) && (r
                        matches Err(e) && e matches FileSetError::IDNotFound(s, i) && (s, i)
                        == o.id))
                    &&& (old(self).tracks(o.id) ==> remove_applied(*old(self), *final(self), o.id)
                        && (r is Ok || r matches Err(FileSetError::IOError)))
                },
                FileSetOperation::Update(u, _) => {
                    &&& final(self).same_tracked(*old(self))
                    &&& (!old(self).tracks(u.id) ==> (r matches Err(e) && e
                        matches FileSetError::IDNotFound(s, i) && (s, i) == u.id))
                    &&& (old(self).tracks(u.id) ==> (r is Ok || r matches Err(
                        FileSetError::IOError,
                    )))
                },
                FileSetOperation::UpdateMetadata(u) => {
                    &&& update_metadata_transition(*old(self), *final(self), u)
                    &&& (!old(self).tracks(u.id) <==> (r matches Err(e) && e
                        matches FileSetError::IDNotFound(s, i) && (s, i) == u.id))
                    &&& (old(self).tracks(u.id) ==> (r is Ok || (r matches Err(
                        FileSetError::IOError,
                    ) && u.data matches MetadataTransaction::Filename(..))))
                    &&& (old(self).tracks(u.id) && (match u.data {
                        MetadataTransaction::Filename(_) => !lww_accepts(
                            old(self).meta(u.id).filename.0,
                            old(self).tie_site(old(self).meta(u.id).filename_author),
                            u.state.time_stamp,
                            u.state.site_id,
                        ),
                        MetadataTransaction::Custom(..) => true,
                    }) ==> r is Ok)
                },
            },
    {
        match remote {
            FileSetOperation::Create(o) => self.integrate_create(o),
            FileSetOperation::Remove(o) => self.integrate_remove(o),
            FileSetOperation::Update(mut o, lookup) => {
                let r = self.integrate_update(&mut o, &lookup);
                r
            },
            FileSetOperation::UpdateMetadata(o) => self.integrate_update_metadata(o),
        }
    }
}

/// Taking one more element changes membership only for that element.
proof fn lemma_take_one_more<T>(s: Seq<T>, j: int, f: T)
    requires
        0 <= j < s.len(),
        f != s[j],
    ensures
        s.take(j + 1).contains(f) == s.take(j).contains(f),
{
    if s.take(j + 1).contains(f) {
        let x = choose|x: int|
            0 <= x < s.take(j + 1).len() && (#[trigger] s.take(j + 1)[x]) == f;
        assert(s.take(j)[x] == f);
    }
    if s.take(j).contains(f) {
        let x = choose|x: int| 0 <= x < s.take(j).len() && (#[trigger] s.take(j)[x]) == f;
        assert(s.take(j + 1)[x] == f);
    }
}

/// Dropping one entry of a unique-keyed list removes exactly its key.
proof fn lemma_entries_remove(s: Seq<(FileID, FileMetadata)>, i: int)
    requires
        keys_unique(s),
        0 <= i < s.len(),
    ensures
        keys_unique(s.remove(i)),
        !has_key(s.remove(i), s[i].0),
        forall|f: FileID| f != s[i].0 ==> #[trigger] has_key(s.remove(i), f) == has_key(s, f),
        forall|f: FileID|
            f != s[i].0 && has_key(s, f) ==> #[trigger] val_of(s.remove(i), f) == val_of(s, f),
{
    let t = s.remove(i);
    assert forall|x: int, y: int|
        0 <= x < y < t.len() implies (#[trigger] t[x]).0 != (#[trigger] t[y]).0 by {
        let x0 = if x < i { x } else { x + 1 };
        let y0 = if y < i { y } else { y + 1 };
        assert(t[x] == s[x0] && t[y] == s[y0]);
        assert(s[x0].0 != s[y0].0);
    }
    assert forall|f: FileID| !(#[trigger] has_key(t, f)) || f != s[i].0 by {
        if has_key(t, f) && f == s[i].0 {
            let x = choose|x: int| 0 <= x < t.len() && (#[trigger] t[x]).0 == f;
            let x0 = if x < i { x } else { x + 1 };
            assert(t[x] == s[x0]);
            assert(s[x0].0 == s[i].0 && x0 != i);
        }
    }
    assert forall|f: FileID|
        f != s[i].0 implies #[trigger] has_key(t, f) == has_key(s, f) by {
        if has_key(s, f) {
            let j = choose|j: int| 0 <= j < s.len() && (#[trigger] s[j]).0 == f;
            let x = if j < i { j } else { j - 1 };
            assert(t[x] == s[j]);
        }
        if has_key(t, f) {
            let x = choose|x: int| 0 <= x < t.len() && (#[trigger] t[x]).0 == f;
            let x0 = if x < i { x } else { x + 1 };
            assert(t[x] == s[x0]);
        }
    }
    assert forall|f: FileID|
        f != s[i].0 && has_key(s, f) implies #[trigger] val_of(t, f) == val_of(s, f) by {
        let j = choose|j: int| 0 <= j < s.len() && (#[trigger] s[j]).0 == f;
        let x = if j < i { j } else { j - 1 };
        assert(t[x] == s[j]);
        lemma_val_at(s, j);
        lemma_val_at(t, x);
    }
}

impl<FU: FileUpdater> FileSet<FU> {
    /// Stops tracking every file at or under `path`: detaches that subtree
    /// from the trie, removes each collected identifier from the file map,
    /// and emits one `Remove` per identifier, in the trie's depth-first
    /// order.
    pub fn process_remove_folder(&mut self, path: &Vec<String>) -> (ops: Vec<
        FileSetOperation<FU>,
    >)
        requires
            old(self).wf(),
            path@.len() > 0,
        ensures
            final(self).wf(),
            final(self).site_id == old(self).site_id,
            final(self).updater == old(self).updater,
            final(self).last_timestamp == old(self).last_timestamp,
            final(self).last_id == old(self).last_id,
            forall|q: Seq<Seq<char>>|
                #[trigger] final(self).path_id(q) == if path.deep_view().is_prefix_of(q) {
                    None
                } else {
                    old(self).path_id(q)
                },
            forall|f: FileID|
                old(self).tracks(f) && path.deep_view().is_prefix_of(
                    old(self).meta(f).local_path(),
                ) ==> !(#[trigger] final(self).tracks(f)),
            forall|f: FileID|
                old(self).tracks(f) && !path.deep_view().is_prefix_of(
                    old(self).meta(f).local_path(),
                ) ==> #[trigger] final(self).tracks(f) && final(self).meta(f) == old(self).meta(f),
            forall|f: FileID| #[trigger] final(self).tracks(f) ==> old(self).tracks(f),
            ops@.len() == crate::lookup::ids_under(
                old(self).id_lookup.head,
                path.deep_view(),
            ).len(),
            forall|k: int|
                0 <= k < ops@.len() ==> ((#[trigger] ops@[k]) matches FileSetOperation::Remove(r)
                    && r.id == crate::lookup::ids_under(
                    old(self).id_lookup.head,
                    path.deep_view(),
                )[k]),
    {
        let ghost pre = *old(self);
        let ghost dv = path.deep_view();
        let ghost removed = crate::lookup::ids_under(pre.id_lookup.head, dv);
        let ids = self.id_lookup.remove_folder(path);
        let ghost trie_after = self.id_lookup;
        let mut j: usize = 0;
        while j < ids.len()
            invariant
                pre.wf(),
                ids@ == removed,
                j <= ids@.len(),
                self.id_lookup == trie_after,
                forall|q: Seq<Seq<char>>|
                    #[trigger] trie_after.spec_get(q) == if dv.is_prefix_of(q) {
                        None
                    } else {
                        pre.id_lookup.spec_get(q)
                    },
                trie_after.wf(),
                self.updater == pre.updater,
                self.last_timestamp == pre.last_timestamp,
                self.last_id == pre.last_id,
                self.site_id == pre.site_id,
                keys_unique(self.files@),
                forall|x: int|
                    0 <= x < self.files@.len() ==> has_key(
                        pre.files@,
                        (#[trigger] self.files@[x]).0,
                    ) && val_of(pre.files@, self.files@[x].0) == self.files@[x].1,
                forall|f: FileID|
                    #[trigger] has_key(self.files@, f) <==> has_key(pre.files@, f)
                        && !ids@.take(j as int).contains(f),
                forall|f: FileID|
                    has_key(self.files@, f) ==> #[trigger] val_of(self.files@, f) == val_of(
                        pre.files@,
                        f,
                    ),
            decreases ids@.len() - j,
        {
            let ghost cur = self.files@;
            proof {
                assert(ids@.take(j + 1) =~= ids@.take(j as int).push(ids@[j as int]));
            }
            match self.find_file(ids[j]) {
                Some(i) => {
                    proof {
                        lemma_entries_remove(cur, i as int);
                        lemma_val_at(cur, i as int);
                    }
                    self.files.remove(i);
                    proof {
                        assert forall|f: FileID|
                            #[trigger] has_key(self.files@, f) <==> has_key(pre.files@, f)
                                && !ids@.take(j + 1).contains(f) by {
                            if f == ids@[j as int] {
                                assert(ids@.take(j + 1).contains(f)) by {
                                    assert(ids@.take(j + 1).last() == f);
                                }
                                assert(!has_key(self.files@, f));
                            } else {
                                lemma_take_one_more(ids@, j as int, f);
                            }
                        }
                    }
                },
                None => {
                    proof {
                        assert forall|f: FileID|
                            #[trigger] has_key(self.files@, f) <==> has_key(pre.files@, f)
                                && !ids@.take(j + 1).contains(f) by {
                            if f == ids@[j as int] {
                                assert(ids@.take(j + 1).contains(f)) by {
                                    assert(ids@.take(j + 1).last() == f);
                                }
                            } else {
                                lemma_take_one_more(ids@, j as int, f);
                            }
                        }
                    }
                },
            }
            j += 1;
        }
        proof {
            assert(ids@.take(ids@.len() as int) =~= ids@);
            assert forall|f: FileID|
                #[trigger] removed.contains(f) && has_key(pre.files@, f) implies dv.is_prefix_of(
                val_of(pre.files@, f).local_path(),
            ) by {
                crate::lookup::lemma_ids_under(pre.id_lookup.head, dv, f);
                if has_key(pre.files@, f) {
                    let q = choose|q: Seq<Seq<char>>|
                        dv.is_prefix_of(q) && #[trigger] pre.id_lookup.head.lookup(q) == Some(f);
                    assert(pre.id_lookup.spec_get(q) == Some(f));
                    let x = choose|x: int|
                        0 <= x < pre.files@.len() && Some((#[trigger] pre.files@[x]).0)
                            == pre.id_lookup.spec_get(q) && pre.files@[x].1.local_path() == q;
                    lemma_val_at(pre.files@, x);
                }
            }
            assert forall|f: FileID|
                has_key(pre.files@, f) && dv.is_prefix_of(
                    val_of(pre.files@, f).local_path(),
                ) implies #[trigger] removed.contains(f) by {
                crate::lookup::lemma_ids_under(pre.id_lookup.head, dv, f);
                let x = choose|x: int| 0 <= x < pre.files@.len() && (#[trigger] pre.files@[x]).0 == f;
                lemma_val_at(pre.files@, x);
                assert(val_of(pre.files@, f) == pre.files@[x].1);
                assert(pre.id_lookup.spec_get(pre.files@[x].1.local_path()) == Some(f));
                assert(pre.id_lookup.head.lookup(val_of(pre.files@, f).local_path()) == Some(f));
            }
            assert forall|x: int|
                0 <= x < self.files@.len() implies self.id_lookup.spec_get(
                (#[trigger] self.files@[x]).1.local_path(),
            ) == Some(self.files@[x].0) && self.files@[x].1.wf() && (self.files@[x].0.0
                == self.site_id ==> self.files@[x].0.1 < self.last_id) by {
                let f = self.files@[x].0;
                assert(has_key(self.files@, f)) by {}
                assert(has_key(pre.files@, f) && !removed.contains(f));
                let y = choose|y: int| 0 <= y < pre.files@.len() && (#[trigger] pre.files@[y]).0 == f;
                lemma_val_at(pre.files@, y);
                lemma_val_at(self.files@, x);
                assert(self.files@[x].1 == pre.files@[y].1);
                assert(pre.files@[y].1.wf());
                assert(!dv.is_prefix_of(pre.files@[y].1.local_path()));
                assert(pre.id_lookup.spec_get(pre.files@[y].1.local_path()) == Some(f));
                assert(pre.files@[y].0.0 == pre.site_id ==> pre.files@[y].0.1 < pre.last_id);
            }
            assert forall|q: Seq<Seq<char>>|
                #[trigger] self.id_lookup.spec_get(q) is Some implies exists|x: int|
                0 <= x < self.files@.len() && Some((#[trigger] self.files@[x]).0)
                    == self.id_lookup.spec_get(q) && self.files@[x].1.local_path() == q by {
                assert(!dv.is_prefix_of(q));
                assert(pre.id_lookup.spec_get(q) == self.id_lookup.spec_get(q));
                let y = choose|y: int|
                    0 <= y < pre.files@.len() && Some((#[trigger] pre.files@[y]).0)
                        == pre.id_lookup.spec_get(q) && pre.files@[y].1.local_path() == q;
                let f = pre.files@[y].0;
                lemma_val_at(pre.files@, y);
                assert(!removed.contains(f)) by {
                    if removed.contains(f) {
                        assert(dv.is_prefix_of(val_of(pre.files@, f).local_path()));
                    }
                }
                assert(has_key(self.files@, f));
                let x = choose|x: int|
                    0 <= x < self.files@.len() && (#[trigger] self.files@[x]).0 == f;
                lemma_val_at(self.files@, x);
                assert(self.files@[x].1 == val_of(pre.files@, f));
            }
            assert forall|f: FileID|
                pre.tracks(f) && dv.is_prefix_of(pre.meta(f).local_path()) implies !(
                #[trigger] self.tracks(f)) by {}
            assert forall|f: FileID|
                pre.tracks(f) && !dv.is_prefix_of(pre.meta(f).local_path()) implies
                #[trigger] self.tracks(f) && self.meta(f) == pre.meta(f) by {
                assert(!removed.contains(f)) by {
                    if removed.contains(f) {
                        assert(dv.is_prefix_of(val_of(pre.files@, f).local_path()));
                    }
                }
            }
        }
        let mut ops: Vec<FileSetOperation<FU>> = Vec::new();
        let mut k: usize = 0;
        while k < ids.len()
            invariant
                k <= ids@.len(),
                ops@.len() == k,
                forall|x: int|
                    0 <= x < k ==> ((#[trigger] ops@[x]) matches FileSetOperation::Remove(r)
                        && r.id == ids@[x]),
            decreases ids@.len() - k,
        {
            ops.push(FileSetOperation::Remove(RemoveOperation { id: ids[k] }));
            k += 1;
        }
        ops
    }
}

/// Idempotence of `Create`: integrating the same `Create` twice leaves the
/// replica exactly as integrating it once — the second integration always
/// lands in the duplicate branch and moves nothing.
pub proof fn lemma_create_idempotent<FU: FileUpdater>(
    s0: FileSet<FU>,
    s1: FileSet<FU>,
    s2: FileSet<FU>,
    o: CreateOperation,
)
    requires
        create_transition(s0, s1, o),
        create_transition(s1, s2, o),
    ensures
        s2.same_tracked(s1),
{
    if create_dup(s0, o) {
        assert(s1.tracks(o.id) == s0.tracks(o.id)) by {
            assert(s1.files == s0.files);
        }
        assert(create_dup(s1, o));
    } else {
        assert(s1.tracks(o.id));
        assert(create_dup(s1, o));
    }
}

/// Convergence of attribute writes: two `Custom` metadata updates commute
/// whenever they touch different files, different keys, or carry distinct
/// stamps — under the canonical tie-break, a timestamp tie between distinct
/// author sites included. The one exclusion left under the canonical rule is
/// two writes under one identical stamp; under the local-site rule every
/// equal-timestamp tie is excluded, since the order of arrival can decide it.
pub proof fn lemma_custom_updates_commute<FU: FileUpdater>(
    s0: FileSet<FU>,
    s1: FileSet<FU>,
    s12: FileSet<FU>,
    s2: FileSet<FU>,
    s21: FileSet<FU>,
    o1: UpdateMetadata,
    o2: UpdateMetadata,
)
    requires
        o1.data matches MetadataTransaction::Custom(k1, v1),
        o2.data matches MetadataTransaction::Custom(k2, v2),
        (match (o1.data, o2.data) {
            (MetadataTransaction::Custom(k1, _), MetadataTransaction::Custom(k2, _)) => o1.id
                != o2.id || k1@ != k2@ || o1.state.time_stamp != o2.state.time_stamp || (
            !s0.tie_break_local && o1.state.site_id != o2.state.site_id),
            _ => false,
        }),
        update_metadata_transition(s0, s1, o1),
        update_metadata_transition(s1, s12, o2),
        update_metadata_transition(s0, s2, o2),
        update_metadata_transition(s2, s21, o1),
    ensures
        forall|f: FileID| #[trigger] s12.tracks(f) == s21.tracks(f),
        forall|f: FileID|
            s12.tracks(f) ==> {
                &&& (#[trigger] s12.meta(f)).filename == s21.meta(f).filename
                &&& s12.meta(f).printed_filename == s21.meta(f).printed_filename
                &&& s12.meta(f).attrs() == s21.meta(f).attrs()
            },
{
    let k1 = (match o1.data {
        MetadataTransaction::Custom(k, _) => k,
        _ => arbitrary(),
    })@;
    let v1 = (match o1.data {
        MetadataTransaction::Custom(_, v) => v,
        _ => arbitrary(),
    })@;
    let k2 = (match o2.data {
        MetadataTransaction::Custom(k, _) => k,
        _ => arbitrary(),
    })@;
    let v2 = (match o2.data {
        MetadataTransaction::Custom(_, v) => v,
        _ => arbitrary(),
    })@;
    let t1 = o1.state.time_stamp;
    let t2 = o2.state.time_stamp;
    let st1 = o1.state.site_id;
    let st2 = o2.state.site_id;
    let site = s0.site_id;
    assert(s1.site_id == site && s2.site_id == site);
    assert forall|f: FileID| #[trigger] s12.tracks(f) == s21.tracks(f) by {
        assert(s1.tracks(f) == s0.tracks(f) && s12.tracks(f) == s1.tracks(f));
        assert(s2.tracks(f) == s0.tracks(f) && s21.tracks(f) == s2.tracks(f));
    }
    assert forall|f: FileID|
        s12.tracks(f) implies {
        &&& (#[trigger] s12.meta(f)).filename == s21.meta(f).filename
        &&& s12.meta(f).printed_filename == s21.meta(f).printed_filename
        &&& s12.meta(f).attrs() == s21.meta(f).attrs()
    } by {
        assert(s12.tracks(f) == s1.tracks(f) && s1.tracks(f) == s0.tracks(f));
        assert(s21.tracks(f) == s2.tracks(f) && s2.tracks(f) == s0.tracks(f));
        if f != o1.id && f != o2.id {
            assert(s1.meta(f) == s0.meta(f));
            assert(s12.meta(f) == s1.meta(f));
            assert(s2.meta(f) == s0.meta(f));
            assert(s21.meta(f) == s2.meta(f));
        } else if o1.id != o2.id {
            if f == o1.id {
                // only the first write touches this file; the second leaves
                // the same stored value on both paths, so the first decides
                // alike on both
                assert(s2.meta(f) == s0.meta(f));
                assert(s12.meta(f) == s1.meta(f));
                assert(s0.tracks(f) && s2.tracks(f));
                assert(attr_blocked(s2, f, k1, o1.state) == attr_blocked(s0, f, k1, o1.state));
                if attr_blocked(s0, f, k1, o1.state) {
                    assert(s1.meta(f) == s0.meta(f));
                    assert(s21.meta(f) == s2.meta(f));
                } else {
                    assert(s1.meta(f).attrs() == s0.meta(f).attrs().insert(k1, (t1, st1, v1)));
                    assert(s21.meta(f).attrs() == s2.meta(f).attrs().insert(k1, (t1, st1, v1)));
                    assert(s1.meta(f).filename == s0.meta(f).filename);
                    assert(s21.meta(f).filename == s2.meta(f).filename);
                    assert(s1.meta(f).printed_filename == s0.meta(f).printed_filename);
                    assert(s21.meta(f).printed_filename == s2.meta(f).printed_filename);
                }
            } else {
                assert(s1.meta(f) == s0.meta(f));
                assert(s21.meta(f) == s2.meta(f));
                assert(s0.tracks(f) && s1.tracks(f));
                assert(attr_blocked(s1, f, k2, o2.state) == attr_blocked(s0, f, k2, o2.state));
                if attr_blocked(s0, f, k2, o2.state) {
                    assert(s12.meta(f) == s1.meta(f));
                    assert(s2.meta(f) == s0.meta(f));
                } else {
                    assert(s12.meta(f).attrs() == s1.meta(f).attrs().insert(k2, (t2, st2, v2)));
                    assert(s2.meta(f).attrs() == s0.meta(f).attrs().insert(k2, (t2, st2, v2)));
                    assert(s12.meta(f).filename == s1.meta(f).filename);
                    assert(s2.meta(f).filename == s0.meta(f).filename);
                    assert(s12.meta(f).printed_filename == s1.meta(f).printed_filename);
                    assert(s2.meta(f).printed_filename == s0.meta(f).printed_filename);
                }
            }
        } else {
            // one file, both writes: chase the two last-writer-wins decisions
            let m0 = s0.meta(f).attrs();
            if k1 != k2 {
                assert(s12.meta(f).attrs() =~= s21.meta(f).attrs());
            } else {
                // same key: distinct timestamps, or a canonical-rule tie
                // between distinct author sites
                if !m0.contains_key(k1) {
                    if t1 < t2 {
                        assert(s12.meta(f).attrs() =~= s21.meta(f).attrs());
                    } else if t2 < t1 {
                        assert(s12.meta(f).attrs() =~= s21.meta(f).attrs());
                    } else {
                        assert(t1 == t2 && !s0.tie_break_local && st1 != st2);
                        assert(s12.meta(f).attrs() =~= s21.meta(f).attrs());
                    }
                } else {
                    let t0 = m0[k1].0;
                    if t1 < t2 {
                        assert(s12.meta(f).attrs() =~= s21.meta(f).attrs());
                    } else if t2 < t1 {
                        assert(s12.meta(f).attrs() =~= s21.meta(f).attrs());
                    } else {
                        assert(t1 == t2 && !s0.tie_break_local && st1 != st2);
                        assert(s12.meta(f).attrs() =~= s21.meta(f).attrs());
                    }
                }
            }
        }
    }
}

/// Whether `s` carries an entry for `id`.
pub open spec fn has_fid<FU: FileUpdater>(s: Seq<(FileID, FileHistory<FU>)>, id: FileID) -> bool {
    exists|i: int| 0 <= i < s.len() && (#[trigger] s[i]).0 == id
}

/// The operations one initial-sync walk emits, read step by step against the
/// replica as it stood before the walk. When the walked paths are pairwise
/// distinct, each step's decision is a function of that starting state: a
/// path the trie resolves to a peer-known identifier contributes one content
/// `Update` for it; a path the trie resolves to an identifier the peer lacks
/// contributes nothing; an unresolved path contributes a `Create` of exactly
/// that path under the next local identifier and stamp, followed by a content
/// `Update` for the new identifier exactly when the file holds any bytes.
/// `j` indexes the walked files, `k` the operations, and `n` counts the
/// creates already made.
pub open spec fn walk_emits<FU: FileUpdater>(
    pre: FileSet<FU>,
    flist: Seq<(FileID, FileHistory<FU>)>,
    local: Seq<(Vec<String>, bool)>,
    ops: Seq<FileSetOperation<FU>>,
    j: int,
    k: int,
    n: int,
) -> bool
    decreases local.len() - j,
{
    if j < 0 || j >= local.len() {
        k == ops.len()
    } else {
        match pre.path_id(local[j].0.deep_view()) {
            Some(id) => if has_fid(flist, id) {
                &&& 0 <= k < ops.len()
                &&& (ops[k] matches FileSetOperation::Update(u, _) && u.id == id)
                &&& walk_emits(pre, flist, local, ops, j + 1, k + 1, n)
            } else {
                walk_emits(pre, flist, local, ops, j + 1, k, n)
            },
            None => {
                &&& 0 <= k < ops.len()
                &&& (ops[k] matches FileSetOperation::Create(c) && c.id == (
                    pre.site_id,
                    (pre.last_id + n) as u32,
                ) && c.state.time_stamp == (pre.last_timestamp + n) as u32 && c.state.site_id
                    == pre.site_id && c.filename@ == local[j].0@)
                &&& if local[j].1 {
                    &&& k + 1 < ops.len()
                    &&& (ops[k + 1] matches FileSetOperation::Update(u, _) && u.id == (
                        pre.site_id,
                        (pre.last_id + n) as u32,
                    ))
                    &&& walk_emits(pre, flist, local, ops, j + 1, k + 2, n + 1)
                } else {
                    walk_emits(pre, flist, local, ops, j + 1, k + 1, n + 1)
                }
            },
        }
    }
}

/// An initial sync with nothing to do: every walked path resolves to an
/// identifier the peer lacks, every tracked identifier has a peer entry, and
/// every peer entry is already tracked or claims a local identifier this
/// site never issued. On such a call nothing outside the replica decides:
/// no updater call is reached and the call succeeds without moving anything.
pub open spec fn sync_quiescent<FU: FileUpdater>(
    pre: FileSet<FU>,
    flist: Seq<(FileID, FileHistory<FU>)>,
    local: Seq<(Vec<String>, bool)>,
) -> bool {
    &&& forall|x: int|
        0 <= x < local.len() ==> ((#[trigger] pre.path_id(local[x].0.deep_view()))
            matches Some(id) && !has_fid(flist, id))
    &&& forall|f: FileID| #[trigger] pre.tracks(f) ==> has_fid(flist, f)
    &&& forall|i: int|
        0 <= i < flist.len() ==> (pre.tracks((#[trigger] flist[i]).0) || (flist[i].0.0
            == pre.site_id && flist[i].0.1 >= pre.last_id))
}

/// The walked paths are pairwise distinct.
pub open spec fn walk_paths_distinct(local: Seq<(Vec<String>, bool)>) -> bool {
    forall|a: int, b: int|
        0 <= a < b < local.len() ==> (#[trigger] local[a]).0.deep_view() != (
        #[trigger] local[b]).0.deep_view()
}

/// One create step of the walk, folded into the emission relation: pushing
/// the `Create` (and, for a non-empty file, its `Update`) extends a valid
/// emission prefix by one walked file.
proof fn lemma_walk_step_create<FU: FileUpdater>(
    pre: FileSet<FU>,
    gfl: Seq<(FileID, FileHistory<FU>)>,
    local: Seq<(Vec<String>, bool)>,
    gops0: Seq<FileSetOperation<FU>>,
    ops: Seq<FileSetOperation<FU>>,
    i: int,
    n: int,
    cop: FileSetOperation<FU>,
    uop: Option<FileSetOperation<FU>>,
)
    requires
        0 <= i < local.len(),
        0 <= n <= i,
        pre.last_id + local.len() <= u32::MAX,
        pre.last_timestamp + local.len() <= u32::MAX,
        pre.path_id(local[i].0.deep_view()) is None,
        (cop matches FileSetOperation::Create(c) && c.id == (
            pre.site_id,
            (pre.last_id + n) as u32,
        ) && c.state.time_stamp == (pre.last_timestamp + n) as u32 && c.state.site_id
            == pre.site_id && c.filename@ == local[i].0@),
        match uop {
            Some(u) => local[i].1 && ops == gops0.push(cop).push(u) && (u
                matches FileSetOperation::Update(uu, _) && uu.id == (
                pre.site_id,
                (pre.last_id + n) as u32,
            )),
            None => !local[i].1 && ops == gops0.push(cop),
        },
        forall|tail: Seq<FileSetOperation<FU>>|
            #[trigger] walk_emits(pre, gfl, local, gops0 + tail, i, gops0.len() as int, n)
                ==> walk_emits(pre, gfl, local, gops0 + tail, 0, 0, 0),
    ensures
        forall|tail: Seq<FileSetOperation<FU>>|
            #[trigger] walk_emits(pre, gfl, local, ops + tail, i + 1, ops.len() as int, n + 1)
                ==> walk_emits(pre, gfl, local, ops + tail, 0, 0, 0),
{
    assert forall|tail: Seq<FileSetOperation<FU>>|
        #[trigger] walk_emits(pre, gfl, local, ops + tail, i + 1, ops.len() as int, n + 1)
        implies walk_emits(pre, gfl, local, ops + tail, 0, 0, 0) by {
        let full = ops + tail;
        let k0 = gops0.len() as int;
        match uop {
            Some(u) => {
                assert(full[k0] == cop);
                assert(full[k0 + 1] == u);
                assert(walk_emits(pre, gfl, local, full, i, k0, n));
                let tailp = seq![cop, u] + tail;
                assert(gops0 + tailp =~= full);
                assert(walk_emits(pre, gfl, local, gops0 + tailp, i, k0, n));
                assert(walk_emits(pre, gfl, local, gops0 + tailp, 0, 0, 0));
            },
            None => {
                assert(full[k0] == cop);
                assert(walk_emits(pre, gfl, local, full, i, k0, n));
                let tailp = seq![cop] + tail;
                assert(gops0 + tailp =~= full);
                assert(walk_emits(pre, gfl, local, gops0 + tailp, i, k0, n));
                assert(walk_emits(pre, gfl, local, gops0 + tailp, 0, 0, 0));
            },
        }
    }
}



impl<FU: FileUpdater> FileSet<FU> {
    /// Index of the entry for `id` in a remote file list.
    fn list_find(file_list: &Vec<(FileID, FileHistory<FU>)>, id: FileID) -> (r: Option<usize>)
        ensures
            match r {
                Some(i) => i < file_list@.len() && file_list@[i as int].0 == id,
                None => !has_fid(file_list@, id),
            },
    {
        let mut i: usize = 0;
        while i < file_list.len()
            invariant
                i <= file_list@.len(),
                forall|k: int| 0 <= k < i ==> (#[trigger] file_list@[k]).0 != id,
            decreases file_list@.len() - i,
        {
            if file_list[i].0.0 == id.0 && file_list[i].0.1 == id.1 {
                return Some(i);
            }
            i += 1;
        }
        None
    }

    /// One-shot reconciliation against a peer's manifest during initial sync.
    ///
    /// `local_files` lists the regular files found under the local base
    /// directory as relative component paths, each with a flag saying whether
    /// it holds any bytes; the caller walks the directory. For each such
    /// file: if it is tracked and the peer also has it, the local changes are
    /// surfaced as an `Update` and the peer's history is merged in; if it is
    /// untracked, a local `Create` (and an `Update` when non-empty) is
    /// emitted. The peer is then authoritative for presence: every tracked
    /// file the peer lacks is dropped (including ones just created), and
    /// every peer file not tracked locally is installed and replayed. The
    /// accumulated local operations are returned; the first updater failure
    /// stops the walk with `IOError`, leaving the replica consistent.
    #[verifier::rlimit(100)]
    #[verifier::spinoff_prover]
    pub fn integrate_remote_file_list(
        &mut self,
        file_list: Vec<(FileID, FileHistory<FU>)>,
        timestamp_lookup: BTreeMap<u32, (u32, u32)>,
        local_files: Vec<(Vec<String>, bool)>,
    ) -> (r: Result<Vec<FileSetOperation<FU>>, FileSetError>)
        requires
            old(self).wf(),
            forall|i: int|
                0 <= i < local_files@.len() ==> (#[trigger] local_files@[i]).0@.len() > 0,
            forall|i: int|
                0 <= i < file_list@.len() ==> (#[trigger] file_list@[i]).1.filename.1@.len() > 0,
            forall|i: int, a: int, c: int|
                #![trigger file_list@[i].1.attributes@[a], file_list@[i].1.attributes@[c]]
                0 <= i < file_list@.len() && 0 <= a < c < file_list@[i].1.attributes@.len()
                    ==> file_list@[i].1.attributes@[a].0@ != file_list@[i].1.attributes@[c].0@,
            old(self).last_timestamp + local_files@.len() <= u32::MAX,
            old(self).last_id + local_files@.len() <= u32::MAX,
        ensures
            final(self).wf(),
            final(self).site_id == old(self).site_id,
            old(self).last_timestamp <= final(self).last_timestamp,
            final(self).last_timestamp <= old(self).last_timestamp + local_files@.len(),
            old(self).last_id <= final(self).last_id,
            final(self).last_id <= old(self).last_id + local_files@.len(),
            forall|f: FileID|
                old(self).tracks(f) && has_fid(file_list@, f)
                    ==> #[trigger] final(self).tracks(f) && final(self).meta(f)
                    == old(self).meta(f),
            old(self).files@.len() == 0 && file_list@.len() == 0 && local_files@.len() == 0
                ==> r is Ok,
            sync_quiescent(*old(self), file_list@, local_files@)
                ==> r is Ok && final(self).same_tracked(*old(self)),
            r matches Err(e) ==> e matches FileSetError::IOError,
            r matches Ok(ops) ==> {
                &&& forall|k: int|
                    0 <= k < ops@.len() ==> ((#[trigger] ops@[k]) matches FileSetOperation::Create(
                        ..,
                    ) || ops@[k] matches FileSetOperation::Update(..))
                &&& forall|f: FileID| #[trigger] final(self).tracks(f) ==> has_fid(file_list@, f)
                &&& forall|f: FileID|
                    old(self).tracks(f) && has_fid(file_list@, f)
                        ==> #[trigger] final(self).tracks(f) && final(self).meta(f)
                        == old(self).meta(f)
                &&& forall|i: int|
                    0 <= i < file_list@.len() && (#[trigger] file_list@[i]).0.0
                        != old(self).site_id ==> final(self).tracks(file_list@[i].0)
                &&& (walk_paths_distinct(local_files@) ==> walk_emits(
                    *old(self),
                    file_list@,
                    local_files@,
                    ops@,
                    0,
                    0,
                    0,
                ))
            },
    {
        let ghost pre = *old(self);
        let ghost gfl = file_list@;
        let ghost dpaths = walk_paths_distinct(local_files@);
        let ghost quiet = sync_quiescent(pre, gfl, local_files@);
        let ghost mut ncreates: int = 0;
        let mut flist = file_list;
        let mut ops: Vec<FileSetOperation<FU>> = Vec::new();
        // surface local files: updates for shared ones, creates for new ones
        let mut i: usize = 0;
        while i < local_files.len()
            invariant
                pre == *old(self),
                gfl == file_list@,
                pre.wf(),
                self.wf(),
                self.site_id == pre.site_id,
                i <= local_files@.len(),
                forall|x: int|
                    0 <= x < local_files@.len() ==> (#[trigger] local_files@[x]).0@.len() > 0,
                pre.last_timestamp <= self.last_timestamp,
                self.last_timestamp <= pre.last_timestamp + i,
                pre.last_id <= self.last_id,
                self.last_id <= pre.last_id + i,
                self.files@.len() <= pre.files@.len() + i,
                dpaths == walk_paths_distinct(local_files@),
                quiet == sync_quiescent(pre, gfl, local_files@),
                quiet ==> *self == pre && ops@ == Seq::<FileSetOperation<FU>>::empty() && flist@
                    == gfl,
                0 <= ncreates <= i,
                self.last_timestamp == pre.last_timestamp + ncreates,
                self.last_id == pre.last_id + ncreates,
                dpaths ==> forall|x: int|
                    i <= x < local_files@.len() ==> #[trigger] self.path_id(
                        local_files@[x].0.deep_view(),
                    ) == pre.path_id(local_files@[x].0.deep_view()),
                dpaths ==> forall|tail: Seq<FileSetOperation<FU>>|
                    #[trigger] walk_emits(
                        pre,
                        gfl,
                        local_files@,
                        ops@ + tail,
                        i as int,
                        ops@.len() as int,
                        ncreates,
                    ) ==> walk_emits(pre, gfl, local_files@, ops@ + tail, 0, 0, 0),
                pre.last_timestamp + local_files@.len() <= u32::MAX,
                pre.last_id + local_files@.len() <= u32::MAX,
                flist@.len() == gfl.len(),
                forall|x: int|
                    0 <= x < gfl.len() ==> {
                        &&& (#[trigger] flist@[x]).0 == gfl[x].0
                        &&& flist@[x].1.filename == gfl[x].1.filename
                        &&& flist@[x].1.attributes == gfl[x].1.attributes
                    },
                forall|f: FileID| pre.tracks(f) ==> #[trigger] self.tracks(f),
                forall|f: FileID|
                    pre.tracks(f) ==> (#[trigger] self.meta(f)) == pre.meta(f),
                forall|k: int|
                    0 <= k < ops@.len() ==> ((#[trigger] ops@[k]) matches FileSetOperation::Create(
                        ..,
                    ) || ops@[k] matches FileSetOperation::Update(..)),
            decreases local_files@.len() - i,
        {
            let path = clone_path(&local_files[i].0);
            let ghost prestep = *self;
            let ghost gops0 = ops@;
            proof {
                assert(path@ == local_files@[i as int].0@);
                assert(path.deep_view() =~= local_files@[i as int].0.deep_view());
            }
            match self.id_lookup.get_id_for(&path) {
                Some(id) => {
                    proof {
                        if dpaths {
                            assert(self.path_id(local_files@[i as int].0.deep_view())
                                == pre.path_id(local_files@[i as int].0.deep_view()));
                            assert(pre.path_id(local_files@[i as int].0.deep_view()) == Some(id));
                        }
                    }
                    if let Some(j) = Self::list_find(&flist, id) {
                        proof {
                            assert(gfl[j as int].0 == id);
                            assert(has_fid(gfl, id));
                            if quiet {
                                assert(pre.path_id(local_files@[i as int].0.deep_view()) is Some);
                                assert(!has_fid(
                                    gfl,
                                    pre.path_id(local_files@[i as int].0.deep_view())->0,
                                ));
                                assert(self.path_id(path.deep_view()) == Some(id));
                                assert(false);
                            }
                        }
                        let mut remote = flist.remove(j);
                        let changes = self.updater.get_local_changes(&path);
                        match changes {
                            Ok((local_changes, local_timestamps)) => {
                                let op = FileSetOperation::Update(
                                    UpdateOperation { id, data: local_changes },
                                    local_timestamps,
                                );
                                ops.push(op);
                            },
                            Err(_) => {
                                proof {
                                    assert(self.files == prestep.files);
                                    assert forall|f: FileID|
                                        pre.tracks(f) implies #[trigger] self.tracks(f) by {
                                        assert(prestep.tracks(f));
                                        assert(self.tracks(f) == prestep.tracks(f));
                                    }
                                    assert forall|f: FileID|
                                        pre.tracks(f) implies (#[trigger] self.meta(f))
                                        == pre.meta(f) by {
                                        assert(prestep.tracks(f));
                                        assert(prestep.meta(f) == pre.meta(f));
                                        assert(self.meta(f) == prestep.meta(f));
                                    }
                                }
                                return Err(FileSetError::IOError);
                            },
                        }
                        let merged = self.updater.update_file(
                            &path,
                            &timestamp_lookup,
                            &mut remote.1.operation_history,
                        );
                        flist.insert(j, remote);
                        proof {
                            assert forall|x: int|
                                0 <= x < gfl.len() implies {
                                &&& (#[trigger] flist@[x]).0 == gfl[x].0
                                &&& flist@[x].1.filename == gfl[x].1.filename
                                &&& flist@[x].1.attributes == gfl[x].1.attributes
                            } by {}
                            assert(self.files == prestep.files);
                            assert forall|f: FileID| pre.tracks(f) implies #[trigger] self.tracks(
                                f,
                            ) by {
                                assert(prestep.tracks(f));
                                assert(self.tracks(f) == prestep.tracks(f));
                            }
                            assert forall|f: FileID|
                                pre.tracks(f) implies (#[trigger] self.meta(f)) == pre.meta(f) by {
                                assert(prestep.tracks(f));
                                assert(prestep.meta(f) == pre.meta(f));
                                assert(self.meta(f) == prestep.meta(f));
                            }
                            if dpaths {
                                assert(self.id_lookup == prestep.id_lookup);
                                assert forall|x: int|
                                    i + 1 <= x < local_files@.len() implies #[trigger] self.path_id(
                                    local_files@[x].0.deep_view(),
                                ) == pre.path_id(local_files@[x].0.deep_view()) by {
                                    assert(prestep.path_id(local_files@[x].0.deep_view())
                                        == pre.path_id(local_files@[x].0.deep_view()));
                                }
                                let pushed = ops@.last();
                                assert(ops@ =~= gops0.push(pushed));
                                let k0 = gops0.len() as int;
                                assert forall|tail: Seq<FileSetOperation<FU>>|
                                    #[trigger] walk_emits(
                                        pre,
                                        gfl,
                                        local_files@,
                                        ops@ + tail,
                                        i + 1,
                                        ops@.len() as int,
                                        ncreates,
                                    ) implies walk_emits(
                                    pre,
                                    gfl,
                                    local_files@,
                                    ops@ + tail,
                                    0,
                                    0,
                                    0,
                                ) by {
                                    let full = ops@ + tail;
                                    assert(full[k0] == pushed);
                                    assert(walk_emits(pre, gfl, local_files@, full, i as int, k0, ncreates));
                                    let tailp = seq![pushed] + tail;
                                    assert(gops0 + tailp =~= full);
                                    assert(walk_emits(
                                        pre,
                                        gfl,
                                        local_files@,
                                        gops0 + tailp,
                                        i as int,
                                        gops0.len() as int,
                                        ncreates,
                                    ));
                                    assert(walk_emits(pre, gfl, local_files@, gops0 + tailp, 0, 0, 0));
                                }
                            }
                        }
                        if merged.is_err() {
                            return Err(FileSetError::IOError);
                        }
                    } else {
                        proof {
                            assert(!has_fid(gfl, id)) by {
                                if has_fid(gfl, id) {
                                    let y = choose|y: int|
                                        0 <= y < gfl.len() && (#[trigger] gfl[y]).0 == id;
                                    assert(flist@[y].0 == id);
                                }
                            }
                            if dpaths {
                                assert forall|tail: Seq<FileSetOperation<FU>>|
                                    #[trigger] walk_emits(
                                        pre,
                                        gfl,
                                        local_files@,
                                        ops@ + tail,
                                        i + 1,
                                        ops@.len() as int,
                                        ncreates,
                                    ) implies walk_emits(
                                    pre,
                                    gfl,
                                    local_files@,
                                    ops@ + tail,
                                    0,
                                    0,
                                    0,
                                ) by {
                                    let full = ops@ + tail;
                                    assert(walk_emits(
                                        pre,
                                        gfl,
                                        local_files@,
                                        full,
                                        i as int,
                                        ops@.len() as int,
                                        ncreates,
                                    ));
                                }
                            }
                        }
                    }
                },
                None => {
                    proof {
                        if dpaths {
                            assert(self.path_id(local_files@[i as int].0.deep_view())
                                == pre.path_id(local_files@[i as int].0.deep_view()));
                            assert(pre.path_id(local_files@[i as int].0.deep_view()) is None);
                        }
                        if quiet {
                            assert(pre.path_id(local_files@[i as int].0.deep_view()) is Some);
                            assert(self.path_id(path.deep_view()) is None);
                            assert(false);
                        }
                    }
                    let op = self.process_create(&path);
                    let cid = match &op {
                        FileSetOperation::Create(c) => (c.id.0, c.id.1),
                        _ => (0, 0),
                    };
                    let ghost cop = op;
                    ops.push(op);
                    let ghost post_create = *self;
                    proof {
                        let nid = (prestep.site_id, prestep.last_id);
                        assert(cid == nid);
                        assert forall|f: FileID|
                            pre.tracks(f) implies #[trigger] self.tracks(f) && (#[trigger] self.meta(
                            f,
                        )) == pre.meta(f) by {
                            assert(prestep.tracks(f));
                            assert(prestep.meta(f) == pre.meta(f));
                            assert(f != nid) by {
                                if f == nid {
                                    let y = choose|y: int|
                                        0 <= y < prestep.files@.len() && (
                                        #[trigger] prestep.files@[y]).0 == f;
                                    assert(prestep.files@[y].0.1 < prestep.last_id);
                                }
                            }
                        }
                        if dpaths {
                            // no rename fired: the new entry sits at the walked path
                            let m = post_create.meta(nid);
                            let dvi = path.deep_view();
                            assert(dvi.drop_last().push(dvi.last()) =~= dvi);
                            assert(prestep.id_lookup.head.lookup(
                                dvi.drop_last().push(dvi.last()),
                            ) is None);
                            crate::lookup::lemma_chosen_base(
                                prestep.id_lookup.head,
                                dvi.drop_last(),
                                dvi.last(),
                                prestep.site_id,
                                m.printed_filename@,
                            );
                            assert(m.filename.1.deep_view() =~= dvi);
                            assert(m.local_path() =~= dvi);
                            assert(m.local_path() == local_files@[i as int].0.deep_view());
                            assert forall|x: int|
                                i + 1 <= x < local_files@.len() implies #[trigger] post_create.path_id(
                                local_files@[x].0.deep_view(),
                            ) == pre.path_id(local_files@[x].0.deep_view()) by {
                                assert(local_files@[x].0.deep_view() != m.local_path());
                                assert(prestep.path_id(local_files@[x].0.deep_view())
                                    == pre.path_id(local_files@[x].0.deep_view()));
                            }
                        }
                    }
                    if local_files[i].1 {
                        let changes = self.updater.get_local_changes(&path);
                        match changes {
                            Ok((local_changes, local_timestamps)) => {
                                let uop = FileSetOperation::Update(
                                    UpdateOperation { id: cid, data: local_changes },
                                    local_timestamps,
                                );
                                let ghost upushed = uop;
                                ops.push(uop);
                                proof {
                                    if dpaths {
                                        lemma_walk_step_create(
                                            pre,
                                            gfl,
                                            local_files@,
                                            gops0,
                                            ops@,
                                            i as int,
                                            ncreates,
                                            cop,
                                            Some(upushed),
                                        );
                                    }
                                }
                            },
                            Err(_) => {
                                proof {
                                    assert(self.files == post_create.files);
                                    assert forall|f: FileID|
                                        pre.tracks(f) implies #[trigger] self.tracks(f) by {
                                        assert(post_create.tracks(f));
                                        assert(self.tracks(f) == post_create.tracks(f));
                                    }
                                    assert forall|f: FileID|
                                        pre.tracks(f) implies (#[trigger] self.meta(f))
                                        == pre.meta(f) by {
                                        assert(post_create.tracks(f));
                                        assert(post_create.meta(f) == pre.meta(f));
                                        assert(self.meta(f) == post_create.meta(f));
                                    }
                                }
                                return Err(FileSetError::IOError);
                            },
                        }
                    } else {
                        proof {
                            if dpaths {
                                lemma_walk_step_create(
                                    pre,
                                    gfl,
                                    local_files@,
                                    gops0,
                                    ops@,
                                    i as int,
                                    ncreates,
                                    cop,
                                    None,
                                );
                            }
                        }
                    }
                    proof {
                        assert(self.files == post_create.files);
                        assert forall|f: FileID| pre.tracks(f) implies #[trigger] self.tracks(
                            f,
                        ) by {
                            assert(post_create.tracks(f));
                            assert(self.tracks(f) == post_create.tracks(f));
                        }
                        assert forall|f: FileID|
                            pre.tracks(f) implies (#[trigger] self.meta(f)) == pre.meta(f) by {
                            assert(post_create.tracks(f));
                            assert(post_create.meta(f) == pre.meta(f));
                            assert(self.meta(f) == post_create.meta(f));
                        }
                        if dpaths {
                            assert(self.id_lookup == post_create.id_lookup);
                            assert forall|x: int|
                                i + 1 <= x < local_files@.len() implies #[trigger] self.path_id(
                                local_files@[x].0.deep_view(),
                            ) == pre.path_id(local_files@[x].0.deep_view()) by {
                                assert(post_create.path_id(local_files@[x].0.deep_view())
                                    == pre.path_id(local_files@[x].0.deep_view()));
                            }
                        }
                        ncreates = ncreates + 1;
                    }
                },
            }
            i += 1;
        }
        proof {
            if dpaths {
                let e: Seq<FileSetOperation<FU>> = Seq::empty();
                assert((ops@ + e).len() == ops@.len());
                assert(walk_emits(
                    pre,
                    gfl,
                    local_files@,
                    ops@ + e,
                    local_files@.len() as int,
                    ops@.len() as int,
                    ncreates,
                ));
                assert(walk_emits(pre, gfl, local_files@, ops@ + e, 0, 0, 0));
                assert(ops@ + e =~= ops@);
                assert(walk_emits(pre, gfl, local_files@, ops@, 0, 0, 0));
            }
        }
        let ghost mid1 = *self;
        // the peer is authoritative for presence: drop what it lacks
        let mut x: usize = 0;
        while x < self.files.len()
            invariant
                pre == *old(self),
                gfl == file_list@,
                dpaths == walk_paths_distinct(local_files@),
                dpaths ==> walk_emits(pre, gfl, local_files@, ops@, 0, 0, 0),
                quiet == sync_quiescent(pre, gfl, local_files@),
                quiet ==> *self == pre && ops@ == Seq::<FileSetOperation<FU>>::empty() && flist@
                    == gfl,
                mid1.site_id == pre.site_id,
                pre.last_timestamp <= mid1.last_timestamp,
                mid1.last_timestamp <= pre.last_timestamp + local_files@.len(),
                pre.last_id <= mid1.last_id,
                mid1.last_id <= pre.last_id + local_files@.len(),
                mid1.files@.len() <= pre.files@.len() + local_files@.len(),
                self.files@.len() <= mid1.files@.len(),
                forall|f: FileID|
                    pre.tracks(f) ==> #[trigger] mid1.tracks(f) && mid1.meta(f) == pre.meta(f),
                mid1.wf(),
                self.wf(),
                self.site_id == mid1.site_id,
                self.last_timestamp == mid1.last_timestamp,
                self.last_id == mid1.last_id,
                x <= self.files@.len(),
                flist@.len() == gfl.len(),
                forall|y: int|
                    0 <= y < gfl.len() ==> {
                        &&& (#[trigger] flist@[y]).0 == gfl[y].0
                        &&& flist@[y].1.filename == gfl[y].1.filename
                        &&& flist@[y].1.attributes == gfl[y].1.attributes
                    },
                forall|y: int| 0 <= y < x ==> has_fid(gfl, (#[trigger] self.files@[y]).0),
                forall|f: FileID| #[trigger] self.tracks(f) ==> mid1.tracks(f),
                forall|f: FileID|
                    mid1.tracks(f) && has_fid(gfl, f) ==> #[trigger] self.tracks(f) && self.meta(
                        f,
                    ) == mid1.meta(f),
            decreases self.files@.len() - x,
        {
            let fid = self.files[x].0;
            if let Some(jj) = Self::list_find(&flist, fid) {
                proof {
                    assert(flist@[jj as int].0 == gfl[jj as int].0);
                    assert(has_fid(gfl, fid));
                }
                x += 1;
            } else {
                let ghost prestep = *self;
                proof {
                    if quiet {
                        assert(pre.tracks(fid));
                        assert(has_fid(gfl, fid));
                        assert(!has_fid(flist@, fid));
                        assert(false);
                    }
                    assert(prestep.files@[x as int].1.wf());
                    assert(!has_fid(gfl, fid)) by {
                        if has_fid(gfl, fid) {
                            let y = choose|y: int|
                                0 <= y < gfl.len() && (#[trigger] gfl[y]).0 == fid;
                            assert(flist@[y].0 == fid);
                        }
                    }
                }
                let entry = self.files.remove(x);
                let local = entry.1.get_local_filename();
                self.id_lookup.remove_file(&local);
                let res = self.updater.remove_file(&local);
                proof {
                    lemma_wf_remove_entry(prestep, *self, x as int);
                    lemma_val_at(prestep.files@, x as int);
                    assert forall|y: int|
                        0 <= y < x implies has_fid(gfl, (#[trigger] self.files@[y]).0) by {
                        assert(self.files@[y] == prestep.files@[y]);
                    }
                    assert forall|f: FileID| #[trigger] self.tracks(f) implies mid1.tracks(f) by {
                        assert(f != fid);
                        assert(prestep.tracks(f));
                    }
                    assert forall|f: FileID|
                        mid1.tracks(f) && has_fid(gfl, f) implies #[trigger] self.tracks(f)
                        && self.meta(f) == mid1.meta(f) by {
                        assert(f != fid);
                        assert(prestep.tracks(f));
                        assert(prestep.meta(f) == mid1.meta(f));
                    }
                }
                if res.is_err() {
                    return Err(FileSetError::IOError);
                }
            }
        }
        let ghost mid2 = *self;
        proof {
            assert forall|f: FileID| #[trigger] mid2.tracks(f) implies has_fid(gfl, f) by {
                let y = choose|y: int|
                    0 <= y < mid2.files@.len() && (#[trigger] mid2.files@[y]).0 == f;
            }
        }
        // install what the peer has and this replica lacks
        let ghost mut done: int = 0;
        while flist.len() > 0
            invariant
                pre == *old(self),
                gfl == file_list@,
                dpaths == walk_paths_distinct(local_files@),
                dpaths ==> walk_emits(pre, gfl, local_files@, ops@, 0, 0, 0),
                quiet == sync_quiescent(pre, gfl, local_files@),
                quiet ==> *self == pre && ops@ == Seq::<FileSetOperation<FU>>::empty(),
                mid2.site_id == pre.site_id,
                pre.last_timestamp <= mid2.last_timestamp,
                mid2.last_timestamp <= pre.last_timestamp + local_files@.len(),
                pre.last_id <= mid2.last_id,
                mid2.last_id <= pre.last_id + local_files@.len(),
                forall|f: FileID|
                    pre.tracks(f) && has_fid(gfl, f) ==> #[trigger] mid2.tracks(f) && mid2.meta(f)
                        == pre.meta(f),
                mid2.wf(),
                self.wf(),
                self.site_id == mid2.site_id,
                self.last_timestamp == mid2.last_timestamp,
                self.last_id == mid2.last_id,
                0 <= done,
                flist@.len() + done == gfl.len(),
                forall|y: int|
                    0 <= y < flist@.len() ==> {
                        &&& (#[trigger] flist@[y]).0 == gfl[y + done].0
                        &&& flist@[y].1.filename == gfl[y + done].1.filename
                        &&& flist@[y].1.attributes == gfl[y + done].1.attributes
                    },
                forall|y: int|
                    0 <= y < gfl.len() ==> (#[trigger] gfl[y]).1.filename.1@.len() > 0,
                forall|y: int, a: int, c: int|
                    #![trigger gfl[y].1.attributes@[a], gfl[y].1.attributes@[c]]
                    0 <= y < gfl.len() && 0 <= a < c < gfl[y].1.attributes@.len()
                        ==> gfl[y].1.attributes@[a].0@ != gfl[y].1.attributes@[c].0@,
                forall|f: FileID| #[trigger] self.tracks(f) ==> has_fid(gfl, f),
                forall|f: FileID|
                    mid2.tracks(f) ==> #[trigger] self.tracks(f) && self.meta(f) == mid2.meta(f),
                forall|y: int|
                    0 <= y < done && (#[trigger] gfl[y]).0.0 != self.site_id ==> self.tracks(
                        gfl[y].0,
                    ),
            decreases flist@.len(),
        {
            let mut entry = flist.remove(0);
            let fid = entry.0;
            proof {
                assert(entry == (fid, entry.1));
                assert(fid == gfl[done].0);
                assert(entry.1.filename == gfl[done].1.filename);
                assert(entry.1.attributes == gfl[done].1.attributes);
                assert(has_fid(gfl, fid));
                assert forall|y: int|
                    0 <= y < flist@.len() implies {
                    &&& (#[trigger] flist@[y]).0 == gfl[y + (done + 1)].0
                    &&& flist@[y].1.filename == gfl[y + (done + 1)].1.filename
                    &&& flist@[y].1.attributes == gfl[y + (done + 1)].1.attributes
                } by {}
            }
            let present = self.find_file(fid).is_some();
            let invalid_own = fid.0 == self.site_id && fid.1 >= self.last_id;
            if !present && !invalid_own {
                let ghost prestep = *self;
                proof {
                    if quiet {
                        assert(has_fid(gfl, fid));
                        assert(pre.tracks(fid) || (fid.0 == pre.site_id && fid.1 >= pre.last_id))
                            by {
                            let y = choose|y: int|
                                0 <= y < gfl.len() && (#[trigger] gfl[y]).0 == fid;
                        }
                        assert(!self.tracks(fid));
                        assert(false);
                    }
                }
                let path = clone_path(&entry.1.filename.1);
                let printed = self.id_lookup.add_file(&path, fid, fid.0);
                let attrs = clone_attrs(&entry.1.attributes);
                let meta = FileMetadata {
                    filename: (entry.1.filename.0, path),
                    filename_author: fid.0,
                    printed_filename: printed,
                    attributes: attrs,
                };
                let ghost m = meta;
                let local = meta.get_local_filename();
                self.files.push((fid, meta));
                let created = self.updater.create_file(&local);
                let replayed = self.updater.update_file(
                    &local,
                    &timestamp_lookup,
                    &mut entry.1.operation_history,
                );
                proof {
                    assert(m.filename.1.deep_view() =~= gfl[done].1.filename.1.deep_view());
                    assert(m.attributes@ == gfl[done].1.attributes@);
                    assert(m.wf());
                    lemma_wf_insert(prestep, *self, fid, m);
                    let n = prestep.files@.len() as int;
                    assert((*self).files@[n] == (fid, m));
                    lemma_val_at((*self).files@, n);
                    assert forall|f: FileID| #[trigger] self.tracks(f) implies has_fid(
                        gfl,
                        f,
                    ) by {
                        if f != fid {
                            let y = choose|y: int|
                                0 <= y < self.files@.len() && (#[trigger] self.files@[y]).0 == f;
                            if y < n {
                                assert(prestep.files@[y] == self.files@[y]);
                                assert(prestep.tracks(f));
                            }
                        }
                    }
                    assert forall|f: FileID|
                        mid2.tracks(f) implies #[trigger] self.tracks(f) && self.meta(f)
                        == mid2.meta(f) by {
                        assert(prestep.tracks(f));
                        assert(prestep.meta(f) == mid2.meta(f));
                        assert(f != fid);
                        let y = choose|y: int|
                            0 <= y < prestep.files@.len() && (#[trigger] prestep.files@[y]).0 == f;
                        assert((*self).files@[y] == prestep.files@[y]);
                        lemma_val_at(prestep.files@, y);
                        lemma_val_at((*self).files@, y);
                    }
                    assert(self.tracks(fid));
                    assert forall|f: FileID| prestep.tracks(f) implies #[trigger] self.tracks(
                        f,
                    ) by {
                        let y = choose|y: int|
                            0 <= y < prestep.files@.len() && (#[trigger] prestep.files@[y]).0 == f;
                        assert((*self).files@[y] == prestep.files@[y]);
                    }
                    done = done + 1;
                }
                proof {
                    assert forall|f: FileID|
                        pre.tracks(f) && has_fid(gfl, f) implies #[trigger] self.tracks(f)
                        && self.meta(f) == pre.meta(f) by {
                        assert(mid2.tracks(f));
                        assert(mid2.meta(f) == pre.meta(f));
                        assert(self.tracks(f));
                        assert(self.meta(f) == mid2.meta(f));
                    }
                }
                if created.is_err() || replayed.is_err() {
                    return Err(FileSetError::IOError);
                }
            } else {
                proof {
                    if present {
                        assert(self.tracks(fid));
                    } else {
                        assert(fid.0 == self.site_id);
                    }
                    done = done + 1;
                }
            }
        }
        proof {
            assert forall|i2: int|
                0 <= i2 < gfl.len() && (#[trigger] gfl[i2]).0.0 != pre.site_id implies self.tracks(
                gfl[i2].0,
            ) by {}
            assert forall|f: FileID|
                pre.tracks(f) && has_fid(gfl, f) implies #[trigger] self.tracks(f) && self.meta(f)
                    == pre.meta(f) by {
                assert(mid1.tracks(f) && mid1.meta(f) == pre.meta(f));
                assert(mid2.tracks(f) && mid2.meta(f) == mid1.meta(f));
            }
            assert forall|i2: int|
                0 <= i2 < gfl.len() && (#[trigger] gfl[i2]).0.0 != pre.site_id
                implies self.tracks(gfl[i2].0) by {}
        }
        Ok(ops)
    }
}

} // verus!
