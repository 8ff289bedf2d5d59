//! The indexing pipeline: which objects are indexed for search, which
//! still have to be, and the transactional replacement of an object's
//! embedding fragments.
//!
//! [`IndexStore`] holds the rows that the pipeline reads and writes: one
//! row per workspace with its search-indexing setting, and one row per
//! object with the time of its last change, the time up to which it has
//! been indexed, and its embedding fragments. Times are microseconds since
//! the epoch. An embedding vector is held as the bit patterns of its
//! components; the pipeline never looks at them.

use crate::collab_type::CollabType;
use crate::object_id::{ObjectId, WorkspaceId};
use std::collections::HashMap;
use vstd::prelude::*;
use vstd::std_specs::convert::FromSpecImpl;

verus! {

/// Whether an object is indexed for search.
#[derive(Clone, Copy, Debug, PartialEq, Eq, Structural)]
pub enum IndexingStatus {
    /// The object has embedding fragments.
    Indexed,
    /// The object may be indexed and has no embedding fragments yet.
    NotIndexed,
    /// The workspace has opted out of search indexing.
    Disabled,
}

/// What the status query finds for the workspace of an object.
#[derive(Clone, Copy, Debug, PartialEq, Eq, Structural)]
pub struct IndexStatusRow {
    /// The workspace's setting, if it has one.
    pub disable_search_indexing: Option<bool>,
    /// Whether the object has embedding fragments, if that was looked at.
    pub has_index: Option<bool>,
}

/// The status that the workspace row of an object, if there is one, gives
/// the object. An opt-out always wins. Without a workspace row the object
/// counts as not indexed, so that it is tried again later.
pub open spec fn index_status_of(row: Option<IndexStatusRow>) -> IndexingStatus {
    match row {
        None => IndexingStatus::NotIndexed,
        Some(row) => if row.disable_search_indexing == Some(true) {
            IndexingStatus::Disabled
        } else if row.has_index == Some(true) {
            IndexingStatus::Indexed
        } else {
            IndexingStatus::NotIndexed
        },
    }
}

/// Resolves the status of an object from what the status query found;
/// `None` stands for a workspace that has no row yet.
pub fn resolve_index_status(row: Option<IndexStatusRow>) -> (status: IndexingStatus)
    ensures
        status == index_status_of(row),
{
    match row {
        None => IndexingStatus::NotIndexed,
        Some(row) => {
            if row.disable_search_indexing.unwrap_or(false) {
                IndexingStatus::Disabled
            } else if row.has_index.unwrap_or(false) {
                IndexingStatus::Indexed
            } else {
                IndexingStatus::NotIndexed
            }
        },
    }
}

/// How the status query ended.
pub enum StatusQuery<E> {
    /// The workspace has a row.
    Row(IndexStatusRow),
    /// The workspace has no row.
    RowNotFound,
    /// The store failed in another way.
    Failed(E),
}

/// Resolves the status of an object from the way the status query ended.
/// A workspace without a row is no failure: the object counts as not
/// indexed. Any other failure of the store is passed on as it is.
pub fn resolve_status_query<E>(outcome: StatusQuery<E>) -> (r: Result<IndexingStatus, E>)
    ensures
        r == match outcome {
            StatusQuery::Row(row) => Ok::<IndexingStatus, E>(index_status_of(Some(row))),
            StatusQuery::RowNotFound => Ok::<IndexingStatus, E>(IndexingStatus::NotIndexed),
            StatusQuery::Failed(e) => Err::<IndexingStatus, E>(e),
        },
{
    match outcome {
        StatusQuery::Row(row) => Ok(resolve_index_status(Some(row))),
        StatusQuery::RowNotFound => Ok(resolve_index_status(None)),
        StatusQuery::Failed(e) => Err(e),
    }
}

/// The kind of content that a fragment holds.
#[derive(Clone, Copy, Debug, PartialEq, Eq, Structural)]
pub enum EmbeddingContentType {
    PlainText,
}

/// The integer under which a content kind is stored.
pub open spec fn content_type_code(t: EmbeddingContentType) -> int {
    match t {
        EmbeddingContentType::PlainText => 0,
    }
}

/// One chunk of an object's content as the embedder hands it over.
#[derive(Debug, PartialEq)]
pub struct AFCollabEmbeddedChunk {
    pub fragment_id: String,
    pub object_id: ObjectId,
    pub content_type: EmbeddingContentType,
    pub content: String,
    pub embedding: Option<Vec<u32>>,
    pub metadata: String,
    pub fragment_index: i32,
    pub embedded_type: i16,
}

/// One indexed chunk of an object's content as it is stored.
#[derive(Debug, PartialEq)]
pub struct Fragment {
    pub fragment_id: String,
    pub content_type: i32,
    pub contents: String,
    pub embedding: Option<Vec<u32>>,
    pub metadata: String,
    pub fragment_index: i32,
    pub embedded_type: i16,
}

/// The mathematical value of a fragment.
pub struct FragmentView {
    pub fragment_id: Seq<char>,
    pub content_type: int,
    pub contents: Seq<char>,
    pub embedding: Option<Seq<u32>>,
    pub metadata: Seq<char>,
    pub fragment_index: int,
    pub embedded_type: int,
}

/// The view of an optional vector.
pub open spec fn embedding_view(e: Option<Vec<u32>>) -> Option<Seq<u32>> {
    match e {
        Some(v) => Some(v@),
        None => None,
    }
}

impl View for Fragment {
    type V = FragmentView;

    open spec fn view(&self) -> FragmentView {
        FragmentView {
            fragment_id: self.fragment_id@,
            content_type: self.content_type as int,
            contents: self.contents@,
            embedding: embedding_view(self.embedding),
            metadata: self.metadata@,
            fragment_index: self.fragment_index as int,
            embedded_type: self.embedded_type as int,
        }
    }
}

/// The mathematical value of a chunk: the object it belongs to and the
/// fragment it is stored as.
pub struct ChunkView {
    pub object_id: ObjectId,
    pub fragment: FragmentView,
}

impl View for AFCollabEmbeddedChunk {
    type V = ChunkView;

    open spec fn view(&self) -> ChunkView {
        ChunkView {
            object_id: self.object_id,
            fragment: FragmentView {
                fragment_id: self.fragment_id@,
                content_type: content_type_code(self.content_type),
                contents: self.content@,
                embedding: embedding_view(self.embedding),
                metadata: self.metadata@,
                fragment_index: self.fragment_index as int,
                embedded_type: self.embedded_type as int,
            },
        }
    }
}

impl From<AFCollabEmbeddedChunk> for Fragment {
    fn from(value: AFCollabEmbeddedChunk) -> (f: Fragment) {
        Fragment {
            fragment_id: value.fragment_id,
            content_type: match value.content_type {
                EmbeddingContentType::PlainText => 0,
            },
            contents: value.content,
            embedding: value.embedding,
            metadata: value.metadata,
            fragment_index: value.fragment_index,
            embedded_type: value.embedded_type,
        }
    }
}

impl FromSpecImpl<AFCollabEmbeddedChunk> for Fragment {
    open spec fn obeys_from_spec() -> bool {
        true
    }

    open spec fn from_spec(value: AFCollabEmbeddedChunk) -> Fragment {
        Fragment {
            fragment_id: value.fragment_id,
            content_type: match value.content_type {
                EmbeddingContentType::PlainText => 0i32,
            },
            contents: value.content,
            embedding: value.embedding,
            metadata: value.metadata,
            fragment_index: value.fragment_index,
            embedded_type: value.embedded_type,
        }
    }
}

/// The views of a list of fragments.
pub open spec fn fragment_views(v: Seq<Fragment>) -> Seq<FragmentView> {
    v.map_values(|f: Fragment| f@)
}

/// The fragments that a list of chunks is stored as.
pub open spec fn chunk_views(v: Seq<AFCollabEmbeddedChunk>) -> Seq<FragmentView> {
    v.map_values(|c: AFCollabEmbeddedChunk| c@.fragment)
}

/// No two fragments carry the same id.
pub open spec fn distinct_fragment_ids(fragments: Seq<FragmentView>) -> bool {
    forall|i: int, j: int|
        0 <= i < j < fragments.len() ==> (#[trigger] fragments[i]).fragment_id != (
        #[trigger] fragments[j]).fragment_id
}

/// Turns the chunks of one object into the fragments to store, in the
/// same order.
pub fn fragments_from_chunks(records: Vec<AFCollabEmbeddedChunk>) -> (fragments: Vec<Fragment>)
    ensures
        fragment_views(fragments@) == chunk_views(records@),
{
    let mut records = records;
    let ghost all = chunk_views(records@);
    let mut reversed: Vec<Fragment> = Vec::new();
    while records.len() > 0
        invariant
            records@.len() + reversed@.len() == all.len(),
            chunk_views(records@) == all.take(records@.len() as int),
            forall|k: int|
                0 <= k < reversed@.len() ==> (#[trigger] reversed@[k])@ == all[all.len() - 1 - k],
        decreases records@.len(),
    {
        let ghost before = records@;
        let chunk = records.pop().unwrap();
        proof {
            assert(chunk@.fragment == all[before.len() - 1]) by {
                assert(chunk_views(before)[before.len() - 1] == before[before.len() - 1]@.fragment);
            }
            assert(chunk_views(records@) =~= all.take(records@.len() as int)) by {
                assert forall|k: int| 0 <= k < records@.len() implies chunk_views(records@)[k]
                    == all[k] by {
                    assert(chunk_views(before)[k] == before[k]@.fragment);
                }
            }
        }
        let f = Fragment::from(chunk);
        reversed.push(f);
    }
    let mut fragments: Vec<Fragment> = Vec::new();
    while reversed.len() > 0
        invariant
            fragments@.len() + reversed@.len() == all.len(),
            forall|k: int|
                0 <= k < reversed@.len() ==> (#[trigger] reversed@[k])@ == all[all.len() - 1 - k],
            forall|k: int| 0 <= k < fragments@.len() ==> (#[trigger] fragments@[k])@ == all[k],
        decreases reversed@.len(),
    {
        let f = reversed.pop().unwrap();
        fragments.push(f);
    }
    proof {
        assert(fragment_views(fragments@) =~= all);
    }
    fragments
}


/// The row of a workspace.
#[derive(Clone, Copy, Debug, PartialEq, Eq, Structural)]
pub struct WorkspaceRow {
    pub workspace_id: WorkspaceId,
    /// The search-indexing setting; `None` if the workspace has never set
    /// it, which counts as not disabled.
    pub disable_search_indexing: Option<bool>,
}

/// The row of an object.
pub struct CollabRow {
    pub workspace_id: WorkspaceId,
    pub object_id: ObjectId,
    pub collab_type: CollabType,
    /// When the object's content last changed.
    pub updated_at: i64,
    /// The time up to which the object's content has been indexed.
    pub indexed_at: Option<i64>,
    /// What it cost to produce the fragments.
    pub tokens_used: u32,
    /// The object's embedding fragments.
    pub fragments: Vec<Fragment>,
}

/// The mathematical value of an object's row.
pub struct CollabRowView {
    pub workspace_id: WorkspaceId,
    pub object_id: ObjectId,
    pub collab_type: CollabType,
    pub updated_at: int,
    pub indexed_at: Option<int>,
    pub tokens_used: nat,
    pub fragments: Seq<FragmentView>,
}

/// The view of an optional time.
pub open spec fn time_view(t: Option<i64>) -> Option<int> {
    match t {
        Some(t) => Some(t as int),
        None => None,
    }
}

impl View for CollabRow {
    type V = CollabRowView;

    open spec fn view(&self) -> CollabRowView {
        CollabRowView {
            workspace_id: self.workspace_id,
            object_id: self.object_id,
            collab_type: self.collab_type,
            updated_at: self.updated_at as int,
            indexed_at: time_view(self.indexed_at),
            tokens_used: self.tokens_used as nat,
            fragments: fragment_views(self.fragments@),
        }
    }
}

impl CollabRowView {
    /// The object's content has changed since it was last indexed, or it
    /// has never been indexed.
    pub open spec fn is_stale(self) -> bool {
        match self.indexed_at {
            None => true,
            Some(t) => t < self.updated_at,
        }
    }
}

/// The views of a list of object rows.
pub open spec fn collab_views(v: Seq<CollabRow>) -> Seq<CollabRowView> {
    v.map_values(|r: CollabRow| r@)
}

/// Why a write to the store was refused. A refused write changes nothing.
#[derive(Clone, Copy, Debug, PartialEq, Eq, Structural)]
pub enum IndexError {
    /// The workspace has a row already.
    WorkspaceExists,
    /// The object has a row already.
    ObjectExists,
    /// The workspace has no row.
    UnknownWorkspace,
    /// The workspace has no object with this id.
    UnknownObject,
    /// Two fragments of the set carry the same id.
    DuplicateFragment,
}

/// The mathematical value of the store.
pub struct IndexStoreView {
    pub workspaces: Seq<WorkspaceRow>,
    pub collabs: Seq<CollabRowView>,
}

impl IndexStoreView {
    /// No workspace and no object has two rows.
    pub open spec fn wf(self) -> bool {
        &&& forall|i: int, j: int|
            0 <= i < j < self.workspaces.len() ==> (#[trigger] self.workspaces[i]).workspace_id != (
            #[trigger] self.workspaces[j]).workspace_id
        &&& forall|i: int, j: int|
            0 <= i < j < self.collabs.len() ==> (#[trigger] self.collabs[i]).object_id != (
            #[trigger] self.collabs[j]).object_id
    }

    pub open spec fn has_workspace(self, id: WorkspaceId) -> bool {
        exists|i: int|
            0 <= i < self.workspaces.len() && (#[trigger] self.workspaces[i]).workspace_id == id
    }

    pub open spec fn workspace_index(self, id: WorkspaceId) -> int {
        choose|i: int|
            0 <= i < self.workspaces.len() && (#[trigger] self.workspaces[i]).workspace_id == id
    }

    pub open spec fn workspace(self, id: WorkspaceId) -> WorkspaceRow {
        self.workspaces[self.workspace_index(id)]
    }

    pub open spec fn has_collab(self, id: ObjectId) -> bool {
        exists|i: int| 0 <= i < self.collabs.len() && (#[trigger] self.collabs[i]).object_id == id
    }

    pub open spec fn collab_index(self, id: ObjectId) -> int {
        choose|i: int| 0 <= i < self.collabs.len() && (#[trigger] self.collabs[i]).object_id == id
    }

    pub open spec fn collab(self, id: ObjectId) -> CollabRowView {
        self.collabs[self.collab_index(id)]
    }

    /// The store with the object's row replaced.
    pub open spec fn with_collab(self, id: ObjectId, r: CollabRowView) -> IndexStoreView {
        IndexStoreView { collabs: self.collabs.update(self.collab_index(id), r), ..self }
    }

    /// The workspace has opted out of search indexing.
    pub open spec fn indexing_disabled(self, id: WorkspaceId) -> bool {
        self.has_workspace(id) && self.workspace(id).disable_search_indexing == Some(true)
    }

    /// The object has at least one embedding fragment.
    pub open spec fn has_index(self, id: ObjectId) -> bool {
        self.has_collab(id) && self.collab(id).fragments.len() > 0
    }

    /// What the status query finds.
    pub open spec fn status_row(self, workspace_id: WorkspaceId, object_id: ObjectId) -> Option<
        IndexStatusRow,
    > {
        if self.has_workspace(workspace_id) {
            Some(
                IndexStatusRow {
                    disable_search_indexing: self.workspace(workspace_id).disable_search_indexing,
                    has_index: Some(
                        !self.indexing_disabled(workspace_id) && self.has_index(object_id),
                    ),
                },
            )
        } else {
            None
        }
    }

    /// The indexing status of an object.
    pub open spec fn status(self, workspace_id: WorkspaceId, object_id: ObjectId) -> IndexingStatus {
        index_status_of(self.status_row(workspace_id, object_id))
    }

    /// Whether `upsert` goes through, and why not.
    pub open spec fn upsert_result(
        self,
        workspace_id: WorkspaceId,
        object_id: ObjectId,
        fragments: Seq<FragmentView>,
    ) -> Result<(), IndexError> {
        if !self.has_workspace(workspace_id) {
            Err(IndexError::UnknownWorkspace)
        } else if !self.has_collab(object_id) || self.collab(object_id).workspace_id
            != workspace_id {
            Err(IndexError::UnknownObject)
        } else if !distinct_fragment_ids(fragments) {
            Err(IndexError::DuplicateFragment)
        } else {
            Ok(())
        }
    }

    /// After `upsert`: if it goes through, the object's fragments are the
    /// given set and its token cost is the given one; if not, nothing has
    /// changed.
    pub open spec fn upsert(
        self,
        workspace_id: WorkspaceId,
        object_id: ObjectId,
        tokens_used: nat,
        fragments: Seq<FragmentView>,
    ) -> IndexStoreView {
        if self.upsert_result(workspace_id, object_id, fragments) is Ok {
            self.with_collab(
                object_id,
                CollabRowView { tokens_used, fragments, ..self.collab(object_id) },
            )
        } else {
            self
        }
    }

    /// After `update_collab_indexed_at`: an object of the given kind is
    /// indexed up to the given time. Nothing changes if the store has no
    /// such object.
    pub open spec fn mark_indexed(self, object_id: ObjectId, kind: CollabType, at: int) -> IndexStoreView {
        if self.has_collab(object_id) && self.collab(object_id).collab_type == kind {
            self.with_collab(
                object_id,
                CollabRowView { indexed_at: Some(at), ..self.collab(object_id) },
            )
        } else {
            self
        }
    }

    /// After `touch`: the object's content changed at the given time.
    pub open spec fn touch(self, object_id: ObjectId, at: int) -> IndexStoreView {
        if self.has_collab(object_id) {
            self.with_collab(object_id, CollabRowView { updated_at: at, ..self.collab(object_id) })
        } else {
            self
        }
    }

    /// The object in row `i` belongs to the backlog of the workspace: it
    /// is in the workspace, the workspace has a row and has not opted out,
    /// and the object is stale.
    pub open spec fn in_backlog(self, workspace_id: WorkspaceId, i: int) -> bool {
        &&& 0 <= i < self.collabs.len()
        &&& self.collabs[i].workspace_id == workspace_id
        &&& self.has_workspace(workspace_id)
        &&& !self.indexing_disabled(workspace_id)
        &&& self.collabs[i].is_stale()
    }

    /// How many of the first `n` rows belong to the backlog of the
    /// workspace.
    pub open spec fn backlog_count(self, workspace_id: WorkspaceId, n: int) -> int
        decreases n,
    {
        if n <= 0 {
            0
        } else {
            self.backlog_count(workspace_id, n - 1) + if self.in_backlog(workspace_id, n - 1) {
                1int
            } else {
                0int
            }
        }
    }

    /// How many objects the backlog of the workspace holds.
    pub open spec fn backlog_size(self, workspace_id: WorkspaceId) -> int {
        self.backlog_count(workspace_id, self.collabs.len() as int)
    }
}

/// In a well-formed store a workspace's row is the only one with its id.
pub proof fn lemma_workspace_unique(s: IndexStoreView, id: WorkspaceId, i: int)
    requires
        s.wf(),
        0 <= i < s.workspaces.len(),
        s.workspaces[i].workspace_id == id,
    ensures
        s.has_workspace(id),
        s.workspace_index(id) == i,
{
    let k = s.workspace_index(id);
    if k < i {
        assert(s.workspaces[k].workspace_id != s.workspaces[i].workspace_id);
    } else if i < k {
        assert(s.workspaces[i].workspace_id != s.workspaces[k].workspace_id);
    }
}

/// In a well-formed store an object's row is the only one with its id.
pub proof fn lemma_collab_unique(s: IndexStoreView, id: ObjectId, i: int)
    requires
        s.wf(),
        0 <= i < s.collabs.len(),
        s.collabs[i].object_id == id,
    ensures
        s.has_collab(id),
        s.collab_index(id) == i,
{
    let k = s.collab_index(id);
    if k < i {
        assert(s.collabs[k].object_id != s.collabs[i].object_id);
    } else if i < k {
        assert(s.collabs[i].object_id != s.collabs[k].object_id);
    }
}

/// Replacing an object's row by one with the same id keeps the store
/// well-formed, and changes no other object's row and no workspace.
pub proof fn lemma_with_collab(s: IndexStoreView, id: ObjectId, r: CollabRowView)
    requires
        s.wf(),
        s.has_collab(id),
        r.object_id == id,
    ensures
        s.with_collab(id, r).wf(),
        s.with_collab(id, r).has_collab(id),
        s.with_collab(id, r).collab(id) == r,
        s.with_collab(id, r).collab_index(id) == s.collab_index(id),
        forall|w: WorkspaceId|
            s.with_collab(id, r).has_workspace(w) == s.has_workspace(w) && s.with_collab(
                id,
                r,
            ).workspace_index(w) == s.workspace_index(w),
        forall|o: ObjectId| s.with_collab(id, r).has_collab(o) == s.has_collab(o),
        forall|o: ObjectId|
            o != id && s.has_collab(o) ==> s.with_collab(id, r).collab(o) == s.collab(o),
{
    let k = s.collab_index(id);
    let d = s.with_collab(id, r);
    assert(d.replaced_at(s, k, r));
    lemma_replaced_at(s, d, k, r);
}

impl IndexStoreView {
    /// `self` is `s` with row `k` replaced by `r`.
    pub open spec fn replaced_at(self, s: IndexStoreView, k: int, r: CollabRowView) -> bool {
        &&& 0 <= k < s.collabs.len()
        &&& self.workspaces == s.workspaces
        &&& self.collabs == s.collabs.update(k, r)
    }
}

proof fn lemma_replaced_at(s: IndexStoreView, d: IndexStoreView, k: int, r: CollabRowView)
    requires
        s.wf(),
        d.replaced_at(s, k, r),
        r.object_id == s.collabs[k].object_id,
    ensures
        d.wf(),
        d.has_collab(r.object_id),
        d.collab_index(r.object_id) == k,
        d.collab(r.object_id) == r,
        forall|w: WorkspaceId|
            d.has_workspace(w) == s.has_workspace(w) && d.workspace_index(w) == s.workspace_index(
                w,
            ),
        forall|o: ObjectId| d.has_collab(o) == s.has_collab(o),
        forall|o: ObjectId| o != r.object_id && s.has_collab(o) ==> d.collab(o) == s.collab(o),
{
    assert forall|i: int, j: int| 0 <= i < j < d.collabs.len() implies (#[trigger] d.collabs[i]).object_id
        != (#[trigger] d.collabs[j]).object_id by {
        assert(d.collabs[i].object_id == s.collabs[i].object_id);
        assert(d.collabs[j].object_id == s.collabs[j].object_id);
    }
    assert(d.collabs[k] == r);
    lemma_collab_unique(d, r.object_id, k);
    assert forall|o: ObjectId| d.has_collab(o) == s.has_collab(o) by {
        if s.has_collab(o) {
            let i = s.collab_index(o);
            assert(d.collabs[i].object_id == o);
        }
        if d.has_collab(o) {
            let i = d.collab_index(o);
            assert(s.collabs[i].object_id == o);
        }
    }
    assert forall|o: ObjectId| o != r.object_id && s.has_collab(o) implies d.collab(o) == s.collab(
        o,
    ) by {
        let i = s.collab_index(o);
        assert(d.collabs[i] == s.collabs[i]);
        lemma_collab_unique(d, o, i);
    }
}

/// The rows that the indexing pipeline reads and writes.
pub struct IndexStore {
    workspaces: Vec<WorkspaceRow>,
    collabs: Vec<CollabRow>,
}

impl View for IndexStore {
    type V = IndexStoreView;

    closed spec fn view(&self) -> IndexStoreView {
        IndexStoreView { workspaces: self.workspaces@, collabs: collab_views(self.collabs@) }
    }
}

impl IndexStore {
    /// A store without rows.
    pub fn new() -> (s: IndexStore)
        ensures
            s@.wf(),
            s@.workspaces.len() == 0,
            s@.collabs.len() == 0,
    {
        IndexStore { workspaces: Vec::new(), collabs: Vec::new() }
    }

    fn find_workspace(&self, id: &WorkspaceId) -> (r: Option<usize>)
        requires
            self@.wf(),
        ensures
            match r {
                Some(i) => i < self.workspaces@.len() && self@.has_workspace(*id)
                    && self@.workspace_index(*id) == i,
                None => !self@.has_workspace(*id),
            },
    {
        let mut i: usize = 0;
        while i < self.workspaces.len()
            invariant
                self@.wf(),
                i <= self.workspaces@.len(),
                forall|j: int| 0 <= j < i ==> self.workspaces@[j].workspace_id != *id,
            decreases self.workspaces@.len() - i,
        {
            if self.workspaces[i].workspace_id == *id {
                proof {
                    lemma_workspace_unique(self@, *id, i as int);
                }
                return Some(i);
            }
            i = i + 1;
        }
        None
    }

    fn find_collab(&self, id: &ObjectId) -> (r: Option<usize>)
        requires
            self@.wf(),
        ensures
            match r {
                Some(i) => i < self.collabs@.len() && self@.has_collab(*id) && self@.collab_index(
                    *id,
                ) == i && self@.collab(*id) == self.collabs@[i as int]@,
                None => !self@.has_collab(*id),
            },
    {
        let mut i: usize = 0;
        while i < self.collabs.len()
            invariant
                self@.wf(),
                i <= self.collabs@.len(),
                forall|j: int| 0 <= j < i ==> self.collabs@[j].object_id != *id,
            decreases self.collabs@.len() - i,
        {
            if self.collabs[i].object_id == *id {
                proof {
                    assert(self@.collabs[i as int] == self.collabs@[i as int]@);
                    lemma_collab_unique(self@, *id, i as int);
                }
                return Some(i);
            }
            i = i + 1;
        }
        proof {
            if self@.has_collab(*id) {
                let k = self@.collab_index(*id);
                assert(self@.collabs[k] == self.collabs@[k]@);
            }
        }
        None
    }

    /// Adds the row of a workspace.
    pub fn add_workspace(&mut self, workspace_id: WorkspaceId, disable_search_indexing: Option<bool>) -> (r:
        Result<(), IndexError>)
        requires
            old(self)@.wf(),
        ensures
            final(self)@.wf(),
            match r {
                Ok(_) => !old(self)@.has_workspace(workspace_id) && final(self)@ == (IndexStoreView {
                    workspaces: old(self)@.workspaces.push(
                        WorkspaceRow { workspace_id, disable_search_indexing },
                    ),
                    ..old(self)@
                }),
                Err(e) => e == IndexError::WorkspaceExists && old(self)@.has_workspace(workspace_id)
                    && final(self)@ == old(self)@,
            },
    {
        if self.find_workspace(&workspace_id).is_some() {
            return Err(IndexError::WorkspaceExists);
        }
        self.workspaces.push(WorkspaceRow { workspace_id, disable_search_indexing });
        proof {
            let c = old(self)@;
            let d = self@;
            assert forall|i: int, j: int| 0 <= i < j < d.workspaces.len() implies (
            #[trigger] d.workspaces[i]).workspace_id != (#[trigger] d.workspaces[j]).workspace_id by {
                assert(d.workspaces[i] == c.workspaces[i]);
                if j < c.workspaces.len() {
                    assert(d.workspaces[j] == c.workspaces[j]);
                }
            }
        }
        Ok(())
    }

    /// Changes the search-indexing setting of a workspace. Fragments that
    /// exist are kept.
    pub fn set_disable_search_indexing(&mut self, workspace_id: &WorkspaceId, disabled: bool) -> (r:
        Result<(), IndexError>)
        requires
            old(self)@.wf(),
        ensures
            final(self)@.wf(),
            match r {
                Ok(_) => old(self)@.has_workspace(*workspace_id) && final(self)@ == (IndexStoreView {
                    workspaces: old(self)@.workspaces.update(
                        old(self)@.workspace_index(*workspace_id),
                        WorkspaceRow {
                            workspace_id: *workspace_id,
                            disable_search_indexing: Some(disabled),
                        },
                    ),
                    ..old(self)@
                }),
                Err(e) => e == IndexError::UnknownWorkspace && !old(self)@.has_workspace(
                    *workspace_id,
                ) && final(self)@ == old(self)@,
            },
    {
        let i = match self.find_workspace(workspace_id) {
            Some(i) => i,
            None => {
                return Err(IndexError::UnknownWorkspace);
            },
        };
        self.workspaces[i].disable_search_indexing = Some(disabled);
        proof {
            let c = old(self)@;
            let d = self@;
            assert(d.workspaces =~= c.workspaces.update(
                i as int,
                WorkspaceRow { workspace_id: *workspace_id, disable_search_indexing: Some(disabled) },
            ));
            assert forall|a: int, b: int| 0 <= a < b < d.workspaces.len() implies (
            #[trigger] d.workspaces[a]).workspace_id != (#[trigger] d.workspaces[b]).workspace_id by {
                assert(d.workspaces[a].workspace_id == c.workspaces[a].workspace_id);
                assert(d.workspaces[b].workspace_id == c.workspaces[b].workspace_id);
            }
        }
        Ok(())
    }

    /// Adds the row of a new object: never indexed, without fragments.
    pub fn add_collab(
        &mut self,
        workspace_id: WorkspaceId,
        object_id: ObjectId,
        collab_type: CollabType,
        updated_at: i64,
    ) -> (r: Result<(), IndexError>)
        requires
            old(self)@.wf(),
        ensures
            final(self)@.wf(),
            match r {
                Ok(_) => !old(self)@.has_collab(object_id) && final(self)@ == (IndexStoreView {
                    collabs: old(self)@.collabs.push(
                        CollabRowView {
                            workspace_id,
                            object_id,
                            collab_type,
                            updated_at: updated_at as int,
                            indexed_at: None,
                            tokens_used: 0,
                            fragments: Seq::empty(),
                        },
                    ),
                    ..old(self)@
                }),
                Err(e) => e == IndexError::ObjectExists && old(self)@.has_collab(object_id)
                    && final(self)@ == old(self)@,
            },
    {
        if self.find_collab(&object_id).is_some() {
            return Err(IndexError::ObjectExists);
        }
        let row = CollabRow {
            workspace_id,
            object_id,
            collab_type,
            updated_at,
            indexed_at: None,
            tokens_used: 0,
            fragments: Vec::new(),
        };
        let ghost before = self.collabs@;
        let ghost added = row@;
        proof {
            assert(added.fragments =~= Seq::<FragmentView>::empty());
        }
        self.collabs.push(row);
        proof {
            let c = old(self)@;
            let d = self@;
            assert(collab_views(self.collabs@) =~= collab_views(before).push(added));
            assert forall|i: int, j: int| 0 <= i < j < d.collabs.len() implies (
            #[trigger] d.collabs[i]).object_id != (#[trigger] d.collabs[j]).object_id by {
                assert(d.collabs[i] == c.collabs[i]);
                if j < c.collabs.len() {
                    assert(d.collabs[j] == c.collabs[j]);
                }
            }
        }
        Ok(())
    }

    /// Records that the object's content changed at the given time.
    pub fn touch(&mut self, object_id: &ObjectId, updated_at: i64) -> (r: Result<(), IndexError>)
        requires
            old(self)@.wf(),
        ensures
            final(self)@.wf(),
            final(self)@ == old(self)@.touch(*object_id, updated_at as int),
            r == if old(self)@.has_collab(*object_id) {
                Ok::<(), IndexError>(())
            } else {
                Err::<(), IndexError>(IndexError::UnknownObject)
            },
    {
        let i = match self.find_collab(object_id) {
            Some(i) => i,
            None => {
                return Err(IndexError::UnknownObject);
            },
        };
        self.collabs[i].updated_at = updated_at;
        proof {
            let c = old(self)@;
            let r = CollabRowView { updated_at: updated_at as int, ..c.collab(*object_id) };
            assert(collab_views(self.collabs@) =~= c.collabs.update(i as int, r));
            lemma_with_collab(c, *object_id, r);
        }
        Ok(())
    }

    /// The indexing status of an object: `Disabled` if the workspace has
    /// opted out, whether or not fragments exist; otherwise `Indexed` if
    /// the object has fragments and `NotIndexed` if it has none. An object
    /// whose workspace has no row yet is `NotIndexed`.
    pub fn get_index_status(&self, workspace_id: &WorkspaceId, object_id: &ObjectId) -> (status:
        IndexingStatus)
        requires
            self@.wf(),
        ensures
            status == self@.status(*workspace_id, *object_id),
    {
        let row = match self.find_workspace(workspace_id) {
            None => None,
            Some(w) => {
                let disabled = self.workspaces[w].disable_search_indexing;
                let has_index = match disabled {
                    Some(true) => false,
                    _ => match self.find_collab(object_id) {
                        Some(i) => self.collabs[i].fragments.len() > 0,
                        None => false,
                    },
                };
                Some(IndexStatusRow { disable_search_indexing: disabled, has_index: Some(has_index) })
            },
        };
        resolve_index_status(row)
    }

    /// Replaces all embedding fragments of an object by the given set and
    /// records what it cost to produce them. All or nothing: on an error
    /// the store is exactly as it was.
    pub fn upsert_collab_embeddings(
        &mut self,
        workspace_id: &WorkspaceId,
        object_id: &ObjectId,
        tokens_used: u32,
        records: Vec<AFCollabEmbeddedChunk>,
    ) -> (r: Result<(), IndexError>)
        requires
            old(self)@.wf(),
        ensures
            final(self)@.wf(),
            r == old(self)@.upsert_result(*workspace_id, *object_id, chunk_views(records@)),
            final(self)@ == old(self)@.upsert(
                *workspace_id,
                *object_id,
                tokens_used as nat,
                chunk_views(records@),
            ),
    {
        if self.find_workspace(workspace_id).is_none() {
            return Err(IndexError::UnknownWorkspace);
        }
        let i = match self.find_collab(object_id) {
            Some(i) => i,
            None => {
                return Err(IndexError::UnknownObject);
            },
        };
        if self.collabs[i].workspace_id != *workspace_id {
            return Err(IndexError::UnknownObject);
        }
        let fragments = fragments_from_chunks(records);
        if !has_distinct_fragment_ids(&fragments) {
            return Err(IndexError::DuplicateFragment);
        }
        self.collabs[i].fragments = fragments;
        self.collabs[i].tokens_used = tokens_used;
        proof {
            let c = old(self)@;
            let r = CollabRowView {
                tokens_used: tokens_used as nat,
                fragments: chunk_views(records@),
                ..c.collab(*object_id)
            };
            assert(collab_views(self.collabs@) =~= c.collabs.update(i as int, r));
            lemma_with_collab(c, *object_id, r);
        }
        Ok(())
    }

    /// Writes the fragments of an object and, only if that went through,
    /// records that the object has been indexed up to the given time. If
    /// the write is refused, the fragments and the time of the last
    /// indexing are what they were, so the object stays in the backlog.
    pub fn index_collab(
        &mut self,
        workspace_id: &WorkspaceId,
        object_id: &ObjectId,
        collab_type: &CollabType,
        tokens_used: u32,
        records: Vec<AFCollabEmbeddedChunk>,
        indexed_at: i64,
    ) -> (r: Result<(), IndexError>)
        requires
            old(self)@.wf(),
        ensures
            final(self)@.wf(),
            r == old(self)@.upsert_result(*workspace_id, *object_id, chunk_views(records@)),
            final(self)@ == if r is Ok {
                old(self)@.upsert(
                    *workspace_id,
                    *object_id,
                    tokens_used as nat,
                    chunk_views(records@),
                ).mark_indexed(*object_id, *collab_type, indexed_at as int)
            } else {
                old(self)@
            },
    {
        match self.upsert_collab_embeddings(workspace_id, object_id, tokens_used, records) {
            Ok(()) => {
                self.update_collab_indexed_at(object_id, collab_type, indexed_at);
                Ok(())
            },
            Err(e) => Err(e),
        }
    }

    /// Records that the content of an object of the given kind has been
    /// indexed up to the given time. To be called only after the object's
    /// fragments were written.
    pub fn update_collab_indexed_at(
        &mut self,
        object_id: &ObjectId,
        collab_type: &CollabType,
        indexed_at: i64,
    )
        requires
            old(self)@.wf(),
        ensures
            final(self)@.wf(),
            final(self)@ == old(self)@.mark_indexed(*object_id, *collab_type, indexed_at as int),
    {
        match self.find_collab(object_id) {
            Some(i) => {
                if self.collabs[i].collab_type == *collab_type {
                    self.collabs[i].indexed_at = Some(indexed_at);
                    proof {
                        let c = old(self)@;
                        let r = CollabRowView {
                            indexed_at: Some(indexed_at as int),
                            ..c.collab(*object_id)
                        };
                        assert(collab_views(self.collabs@) =~= c.collabs.update(i as int, r));
                        lemma_with_collab(c, *object_id, r);
                    }
                }
            },
            None => {},
        }
    }
}

/// Whether no two fragments carry the same id.
pub fn has_distinct_fragment_ids(fragments: &Vec<Fragment>) -> (r: bool)
    ensures
        r == distinct_fragment_ids(fragment_views(fragments@)),
{
    let ghost views = fragment_views(fragments@);
    let mut j: usize = 0;
    while j < fragments.len()
        invariant
            j <= fragments@.len(),
            views == fragment_views(fragments@),
            forall|a: int, b: int|
                0 <= a < b < j ==> (#[trigger] views[a]).fragment_id != (
                #[trigger] views[b]).fragment_id,
        decreases fragments@.len() - j,
    {
        let mut i: usize = 0;
        while i < j
            invariant
                i <= j < fragments@.len(),
                views == fragment_views(fragments@),
                forall|a: int| 0 <= a < i ==> (#[trigger] views[a]).fragment_id != views[j as int].fragment_id,
            decreases j - i,
        {
            if fragments[i].fragment_id == fragments[j].fragment_id {
                proof {
                    assert(views[i as int].fragment_id == views[j as int].fragment_id);
                }
                return false;
            }
            i = i + 1;
        }
        j = j + 1;
    }
    true
}


/// How many objects a backlog query with this limit may return: a limit
/// below one gives none.
pub open spec fn backlog_limit(limit: i64) -> int {
    if limit > 0 {
        limit as int
    } else {
        0
    }
}

/// Row `i` comes before row `j` in a backlog: it changed more recently,
/// or at the same time and stands earlier in the store.
pub open spec fn ranks_before(rows: Seq<CollabRowView>, i: int, j: int) -> bool {
    rows[i].updated_at > rows[j].updated_at || (rows[i].updated_at == rows[j].updated_at && i < j)
}

/// An object that waits to be indexed.
#[derive(Clone, Copy, Debug, PartialEq, Eq, Structural)]
pub struct CollabId {
    pub collab_type: CollabType,
    pub workspace_id: WorkspaceId,
    pub object_id: ObjectId,
}

/// Which object to fetch.
#[derive(Clone, Copy, Debug, PartialEq, Eq, Structural)]
pub struct QueryCollab {
    pub object_id: ObjectId,
    pub collab_type: CollabType,
}

/// Which object of which workspace to fetch.
#[derive(Clone, Copy, Debug, PartialEq, Eq, Structural)]
pub struct QueryCollabParams {
    pub workspace_id: WorkspaceId,
    pub inner: QueryCollab,
}

impl From<CollabId> for QueryCollabParams {
    fn from(value: CollabId) -> (q: QueryCollabParams) {
        QueryCollabParams {
            workspace_id: value.workspace_id,
            inner: QueryCollab { object_id: value.object_id, collab_type: value.collab_type },
        }
    }
}

impl FromSpecImpl<CollabId> for QueryCollabParams {
    open spec fn obeys_from_spec() -> bool {
        true
    }

    open spec fn from_spec(value: CollabId) -> QueryCollabParams {
        QueryCollabParams {
            workspace_id: value.workspace_id,
            inner: QueryCollab { object_id: value.object_id, collab_type: value.collab_type },
        }
    }
}

/// The backlog entry of an object's row.
pub open spec fn collab_id_of(r: CollabRowView) -> CollabId {
    CollabId { collab_type: r.collab_type, workspace_id: r.workspace_id, object_id: r.object_id }
}

/// For each of the asked-for objects that have been indexed, by the
/// value of its id: the time up to which it has been indexed.
pub open spec fn indexed_times(collabs: Seq<CollabRowView>, oids: Seq<ObjectId>) -> Map<u128, int>
    decreases collabs.len(),
{
    if collabs.len() == 0 {
        Map::empty()
    } else {
        let rest = indexed_times(collabs.drop_last(), oids);
        let last = collabs.last();
        if oids.contains(last.object_id) && last.indexed_at is Some {
            rest.insert(last.object_id.value, last.indexed_at.unwrap())
        } else {
            rest
        }
    }
}

/// For each object of which a row carries a time, by the value of its
/// id: that time. Of several rows of one object the last one counts.
pub open spec fn times_by_object(rows: Seq<(ObjectId, Option<i64>)>) -> Map<u128, i64>
    decreases rows.len(),
{
    if rows.len() == 0 {
        Map::empty()
    } else {
        let rest = times_by_object(rows.drop_last());
        match rows.last().1 {
            Some(t) => rest.insert(rows.last().0.value, t),
            None => rest,
        }
    }
}

/// Keeps, of the rows that the batch query returned, those of objects
/// that have been indexed, keyed by the value of the object's id.
pub fn collect_indexed_at(rows: Vec<(ObjectId, Option<i64>)>) -> (out: HashMap<u128, i64>)
    ensures
        out@ == times_by_object(rows@),
{
    broadcast use vstd::std_specs::hash::group_hash_axioms;

    let mut out: HashMap<u128, i64> = HashMap::new();
    let mut i: usize = 0;
    proof {
        assert(rows@.take(0) =~= Seq::<(ObjectId, Option<i64>)>::empty());
    }
    while i < rows.len()
        invariant
            i <= rows@.len(),
            out@ == times_by_object(rows@.take(i as int)),
        decreases rows@.len() - i,
    {
        proof {
            assert(rows@.take(i as int + 1).drop_last() =~= rows@.take(i as int));
            assert(rows@.take(i as int + 1).last() == rows@[i as int]);
        }
        let oid = rows[i].0;
        match rows[i].1 {
            Some(t) => {
                out.insert(oid.value, t);
            },
            None => {},
        }
        i = i + 1;
    }
    proof {
        assert(rows@.take(rows@.len() as int) =~= rows@);
    }
    out
}

/// The times of a map as mathematical integers.
pub open spec fn times_view(m: Map<u128, i64>) -> Map<u128, int> {
    m.map_values(|t: i64| t as int)
}

/// Whether the list holds the id.
pub fn contains_id(oids: &Vec<ObjectId>, id: &ObjectId) -> (r: bool)
    ensures
        r == oids@.contains(*id),
{
    let mut i: usize = 0;
    while i < oids.len()
        invariant
            i <= oids@.len(),
            forall|j: int| 0 <= j < i ==> oids@[j] != *id,
        decreases oids@.len() - i,
    {
        if oids[i] == *id {
            return true;
        }
        i = i + 1;
    }
    false
}

impl IndexStore {
    /// For many objects at once: the time up to which each has been
    /// indexed, by the value of the object's id. Objects that have no row
    /// or have never been indexed are left out.
    pub fn get_collabs_indexed_at(&self, oids: Vec<ObjectId>) -> (out: HashMap<u128, i64>)
        ensures
            times_view(out@) == indexed_times(self@.collabs, oids@),
    {
        broadcast use vstd::std_specs::hash::group_hash_axioms;

        let mut out: HashMap<u128, i64> = HashMap::new();
        let mut i: usize = 0;
        let ghost rows = self@.collabs;
        proof {
            assert(rows.take(0) =~= Seq::<CollabRowView>::empty());
            assert(times_view(out@) =~= indexed_times(rows.take(0), oids@));
        }
        while i < self.collabs.len()
            invariant
                i <= self.collabs@.len(),
                rows == self@.collabs,
                times_view(out@) == indexed_times(rows.take(i as int), oids@),
            decreases self.collabs@.len() - i,
        {
            proof {
                assert(rows.take(i as int + 1).drop_last() =~= rows.take(i as int));
                assert(rows.take(i as int + 1).last() == rows[i as int]);
                assert(rows[i as int] == self.collabs@[i as int]@);
            }
            let row = &self.collabs[i];
            if contains_id(&oids, &row.object_id) {
                match row.indexed_at {
                    Some(t) => {
                        let ghost before = out@;
                        out.insert(row.object_id.value, t);
                        proof {
                            assert(times_view(out@) =~= times_view(before).insert(
                                row.object_id.value,
                                t as int,
                            ));
                        }
                    },
                    None => {},
                }
            }
            i = i + 1;
        }
        proof {
            assert(rows.take(rows.len() as int) =~= rows);
        }
        out
    }

    /// The objects of a workspace that wait to be indexed: those that
    /// have never been indexed or have changed since, most recently
    /// changed first, at most `limit` of them. A workspace that has opted
    /// out, or has no row, has none. A `limit` below one gives none.
    ///
    /// The result holds as many objects as the backlog has, but at most
    /// `limit`; no object twice, only objects of the backlog, in the order
    /// of `ranks_before`; and an object of the backlog is left out only
    /// if `limit` objects that rank before it are in the result.
    pub fn stream_collabs_without_embeddings(&self, workspace_id: WorkspaceId, limit: i64) -> (ids:
        Vec<CollabId>)
        requires
            self@.wf(),
        ensures
            ids@.len() == if self@.backlog_size(workspace_id) <= backlog_limit(limit) {
                self@.backlog_size(workspace_id)
            } else {
                backlog_limit(limit)
            },
            self@.backlog_size(workspace_id) <= backlog_limit(limit) ==> forall|i: int|
                self@.in_backlog(workspace_id, i) ==> exists|k: int|
                    0 <= k < ids@.len() && (#[trigger] ids@[k]).object_id
                        == self@.collabs[i].object_id,
            forall|k: int|
                0 <= k < ids@.len() ==> self@.has_collab((#[trigger] ids@[k]).object_id)
                    && self@.in_backlog(workspace_id, self@.collab_index(ids@[k].object_id))
                    && ids@[k] == collab_id_of(self@.collab(ids@[k].object_id)),
            forall|a: int, b: int|
                0 <= a < b < ids@.len() ==> (#[trigger] ids@[a]).object_id != (
                #[trigger] ids@[b]).object_id && ranks_before(
                    self@.collabs,
                    self@.collab_index(ids@[a].object_id),
                    self@.collab_index(ids@[b].object_id),
                ),
            forall|i: int|
                self@.in_backlog(workspace_id, i) && (forall|k: int|
                    0 <= k < ids@.len() ==> (#[trigger] ids@[k]).object_id
                        != self@.collabs[i].object_id) ==> ids@.len() == backlog_limit(limit) && (
                forall|k: int|
                    0 <= k < ids@.len() ==> ranks_before(
                        self@.collabs,
                        self@.collab_index((#[trigger] ids@[k]).object_id),
                        i,
                    )),
    {
        let mut ids: Vec<CollabId> = Vec::new();
        let enabled = match self.find_workspace(&workspace_id) {
            Some(w) => match self.workspaces[w].disable_search_indexing {
                Some(true) => false,
                _ => true,
            },
            None => false,
        };
        if !enabled || limit <= 0 {
            proof {
                let none = Seq::<int>::empty();
                lemma_backlog_holds(self@, workspace_id, none, self@.collabs.len() as int);
                if !enabled {
                    lemma_backlog_held(self@, workspace_id, none, self@.collabs.len() as int);
                }
                assert forall|i: int| self@.in_backlog(workspace_id, i) implies self@.backlog_size(
                    workspace_id,
                ) > backlog_limit(limit) by {
                    lemma_backlog_holds(self@, workspace_id, seq![i], self@.collabs.len() as int);
                }
            }
            return ids;
        }
        let n: usize = self.collabs.len();
        let mut taken: Vec<bool> = Vec::new();
        let mut t: usize = 0;
        while t < n
            invariant
                t <= n,
                taken@.len() == t,
                forall|i: int| 0 <= i < t ==> !taken@[i],
            decreases n - t,
        {
            taken.push(false);
            t = t + 1;
        }
        let ghost rows = self@.collabs;
        let ghost mut picked: Seq<int> = Seq::empty();
        let mut done: bool = false;
        while !done && (ids.len() as u64) < (limit as u64)
            invariant
                self@.wf(),
                rows == self@.collabs,
                n == self.collabs@.len(),
                taken@.len() == n,
                limit > 0,
                self@.has_workspace(workspace_id),
                !self@.indexing_disabled(workspace_id),
                picked.len() == ids@.len(),
                ids@.len() <= limit,
                ids@.len() <= n,
                forall|k: int|
                    0 <= k < picked.len() ==> 0 <= (#[trigger] picked[k]) < n && taken@[picked[k]]
                        && self@.in_backlog(workspace_id, picked[k]) && ids@[k] == collab_id_of(
                        rows[picked[k]],
                    ),
                forall|i: int| 0 <= i < n && #[trigger] taken@[i] ==> picked.contains(i),
                forall|a: int, b: int|
                    0 <= a < b < picked.len() ==> (#[trigger] picked[a]) != (#[trigger] picked[b])
                        && ranks_before(rows, picked[a], picked[b]),
                forall|i: int, k: int|
                    #![trigger taken@[i], picked[k]]
                    self@.in_backlog(workspace_id, i) && !taken@[i] && 0 <= k < picked.len()
                        ==> ranks_before(rows, picked[k], i),
                done ==> forall|i: int| self@.in_backlog(workspace_id, i) ==> taken@[i],
            decreases (if done { 0int } else { 1int }), n - ids@.len(),
        {
            let mut best: Option<usize> = None;
            let mut i: usize = 0;
            while i < n
                invariant
                    i <= n,
                    rows == self@.collabs,
                    n == self.collabs@.len(),
                    taken@.len() == n,
                    self@.has_workspace(workspace_id),
                    !self@.indexing_disabled(workspace_id),
                    match best {
                        Some(b) => b < i && !taken@[b as int] && self@.in_backlog(
                            workspace_id,
                            b as int,
                        ) && forall|j: int|
                            0 <= j < i && j != b && self@.in_backlog(workspace_id, j) && !taken@[j]
                                ==> ranks_before(rows, b as int, j),
                        None => forall|j: int|
                            0 <= j < i && self@.in_backlog(workspace_id, j) ==> taken@[j],
                    },
                decreases n - i,
            {
                proof {
                    assert(rows[i as int] == self.collabs@[i as int]@);
                }
                let row = &self.collabs[i];
                let stale = match row.indexed_at {
                    None => true,
                    Some(at) => at < row.updated_at,
                };
                if !taken[i] && row.workspace_id == workspace_id && stale {
                    let better = match best {
                        None => true,
                        Some(b) => {
                            proof {
                                assert(rows[b as int] == self.collabs@[b as int]@);
                            }
                            self.collabs[b].updated_at < row.updated_at
                        },
                    };
                    if better {
                        best = Some(i);
                    }
                }
                i = i + 1;
            }
            match best {
                None => {
                    done = true;
                },
                Some(b) => {
                    proof {
                        assert(rows[b as int] == self.collabs@[b as int]@);
                        if ids@.len() >= n {
                            lemma_all_taken(picked, n as int, taken@);
                        }
                    }
                    let row = &self.collabs[b];
                    ids.push(
                        CollabId {
                            collab_type: row.collab_type,
                            workspace_id: row.workspace_id,
                            object_id: row.object_id,
                        },
                    );
                    taken.set(b, true);
                    proof {
                        let before = picked;
                        picked = picked.push(b as int);
                        assert forall|i: int| 0 <= i < n && #[trigger] taken@[i] implies picked.contains(
                            i,
                        ) by {
                            if i == b {
                                assert(picked[before.len() as int] == b);
                            } else {
                                assert(before.contains(i));
                                let k = choose|k: int| 0 <= k < before.len() && before[k] == i;
                                assert(picked[k] == i);
                            }
                        }
                        assert forall|k: int| 0 <= k < picked.len() implies 0 <= (
                        #[trigger] picked[k]) < n && taken@[picked[k]] && self@.in_backlog(
                            workspace_id,
                            picked[k],
                        ) && ids@[k] == collab_id_of(rows[picked[k]]) by {
                            if k < before.len() {
                                assert(picked[k] == before[k]);
                            }
                        }
                        assert forall|x: int, y: int| 0 <= x < y < picked.len() implies (
                        #[trigger] picked[x]) != (#[trigger] picked[y]) && ranks_before(
                            rows,
                            picked[x],
                            picked[y],
                        ) by {
                            assert(picked[x] == before[x]);
                            if y < before.len() {
                                assert(picked[y] == before[y]);
                            }
                        }
                        assert forall|i: int, k: int|
                            #![trigger taken@[i], picked[k]]
                            self@.in_backlog(workspace_id, i) && !taken@[i] && 0 <= k
                                < picked.len() implies ranks_before(rows, picked[k], i) by {
                            if k < before.len() {
                                assert(picked[k] == before[k]);
                            }
                        }
                    }
                },
            }
        }
        proof {
            lemma_backlog_holds(self@, workspace_id, picked, n as int);
            if done {
                assert forall|i: int|
                    0 <= i < n && self@.in_backlog(workspace_id, i) implies picked.contains(i) by {
                    assert(taken@[i]);
                }
                lemma_backlog_held(self@, workspace_id, picked, n as int);
            }
            if self@.backlog_size(workspace_id) <= backlog_limit(limit) {
                assert forall|i: int| self@.in_backlog(workspace_id, i) implies exists|k: int|
                    0 <= k < ids@.len() && (#[trigger] ids@[k]).object_id
                        == self@.collabs[i].object_id by {
                    if !picked.contains(i) {
                        let more = picked.push(i);
                        assert forall|k: int| 0 <= k < more.len() implies 0 <= (#[trigger] more[k])
                            < n && self@.in_backlog(workspace_id, more[k]) by {
                            if k < picked.len() {
                                assert(more[k] == picked[k]);
                            }
                        }
                        assert forall|a: int, b: int| 0 <= a < b < more.len() implies (
                        #[trigger] more[a]) != (#[trigger] more[b]) by {
                            assert(more[a] == picked[a]);
                            if b < picked.len() {
                                assert(more[b] == picked[b]);
                            }
                        }
                        lemma_backlog_holds(self@, workspace_id, more, n as int);
                        assert(done);
                        assert(taken@[i]);
                    }
                    let k = choose|k: int| 0 <= k < picked.len() && picked[k] == i;
                    assert(ids@[k].object_id == rows[i].object_id);
                }
            }
            assert forall|k: int| 0 <= k < ids@.len() implies self@.has_collab(
                (#[trigger] ids@[k]).object_id,
            ) && self@.collab_index(ids@[k].object_id) == picked[k] by {
                lemma_collab_unique(self@, ids@[k].object_id, picked[k]);
            }
            assert forall|i: int|
                self@.in_backlog(workspace_id, i) && (forall|k: int|
                    0 <= k < ids@.len() ==> (#[trigger] ids@[k]).object_id
                        != self@.collabs[i].object_id) implies ids@.len() == backlog_limit(limit)
                && (forall|k: int|
                0 <= k < ids@.len() ==> ranks_before(
                    self@.collabs,
                    self@.collab_index((#[trigger] ids@[k]).object_id),
                    i,
                )) by {
                if taken@[i] {
                    assert(picked.contains(i));
                    let k = choose|k: int| 0 <= k < picked.len() && picked[k] == i;
                    assert(ids@[k].object_id == rows[i].object_id);
                }
            }
        }
        ids
    }
}

/// A list of `n` different row numbers below `n` holds every row number.
proof fn lemma_all_taken(picked: Seq<int>, n: int, taken: Seq<bool>)
    requires
        picked.len() >= n,
        taken.len() == n,
        forall|k: int| 0 <= k < picked.len() ==> 0 <= (#[trigger] picked[k]) < n && taken[picked[k]],
        forall|a: int, b: int|
            0 <= a < b < picked.len() ==> (#[trigger] picked[a]) != (#[trigger] picked[b]),
    ensures
        forall|i: int| 0 <= i < n ==> #[trigger] taken[i],
    decreases n,
{
    if n > 0 {
        if exists|i: int| 0 <= i < n && !taken[i] {
            let miss = choose|i: int| 0 <= i < n && !taken[i];
            // Rename the row numbers so that the missing one is the last,
            // drop nothing, and find `n` different numbers below `n - 1`.
            let moved = picked.map_values(|x: int| if x == n - 1 { miss } else { x });
            let fewer = Seq::new((n - 1) as nat, |i: int| true);
            assert forall|k: int| 0 <= k < moved.len() implies 0 <= (#[trigger] moved[k]) < n - 1
                && fewer[moved[k]] by {
                assert(picked[k] != miss);
            }
            assert forall|a: int, b: int| 0 <= a < b < moved.len() implies (#[trigger] moved[a]) != (
            #[trigger] moved[b]) by {
                assert(picked[a] != picked[b]);
                assert(picked[a] != miss);
                assert(picked[b] != miss);
            }
            lemma_distinct_bound(moved, n - 1);
        }
    }
}

/// Different rows of the backlog among the first `n` rows are at most as
/// many as the backlog holds there.
proof fn lemma_backlog_holds(s: IndexStoreView, workspace_id: WorkspaceId, picked: Seq<int>, n: int)
    requires
        0 <= n <= s.collabs.len(),
        forall|k: int|
            0 <= k < picked.len() ==> 0 <= (#[trigger] picked[k]) < n && s.in_backlog(
                workspace_id,
                picked[k],
            ),
        forall|a: int, b: int|
            0 <= a < b < picked.len() ==> (#[trigger] picked[a]) != (#[trigger] picked[b]),
    ensures
        picked.len() <= s.backlog_count(workspace_id, n),
        0 <= s.backlog_count(workspace_id, n),
    decreases n,
{
    if n > 0 {
        if exists|k: int| 0 <= k < picked.len() && picked[k] == n - 1 {
            let at = choose|k: int| 0 <= k < picked.len() && picked[k] == n - 1;
            let rest = picked.remove(at);
            assert forall|k: int| 0 <= k < rest.len() implies 0 <= (#[trigger] rest[k]) < n - 1
                && s.in_backlog(workspace_id, rest[k]) by {
                let k2 = if k < at {
                    k
                } else {
                    k + 1
                };
                assert(rest[k] == picked[k2]);
                if k2 < at {
                    assert(picked[k2] != picked[at]);
                } else {
                    assert(picked[at] != picked[k2]);
                }
            }
            assert forall|a: int, b: int| 0 <= a < b < rest.len() implies (#[trigger] rest[a]) != (
            #[trigger] rest[b]) by {
                let a2 = if a < at {
                    a
                } else {
                    a + 1
                };
                let b2 = if b < at {
                    b
                } else {
                    b + 1
                };
                assert(rest[a] == picked[a2]);
                assert(rest[b] == picked[b2]);
                assert(picked[a2] != picked[b2]);
            }
            lemma_backlog_holds(s, workspace_id, rest, n - 1);
            assert(s.in_backlog(workspace_id, picked[at]));
        } else {
            assert forall|k: int| 0 <= k < picked.len() implies 0 <= (#[trigger] picked[k]) < n - 1
                && s.in_backlog(workspace_id, picked[k]) by {}
            lemma_backlog_holds(s, workspace_id, picked, n - 1);
        }
    } else {
        if picked.len() > 0 {
            assert(0 <= picked[0] < n);
        }
    }
}

/// Rows that hold every row of the backlog among the first `n` rows are
/// at least as many as the backlog holds there.
proof fn lemma_backlog_held(s: IndexStoreView, workspace_id: WorkspaceId, picked: Seq<int>, n: int)
    requires
        0 <= n <= s.collabs.len(),
        forall|i: int| 0 <= i < n && s.in_backlog(workspace_id, i) ==> picked.contains(i),
    ensures
        s.backlog_count(workspace_id, n) <= picked.len(),
    decreases n,
{
    if n > 0 {
        if s.in_backlog(workspace_id, n - 1) {
            assert(picked.contains(n - 1));
            let at = choose|k: int| 0 <= k < picked.len() && picked[k] == n - 1;
            let rest = picked.remove(at);
            assert forall|i: int| 0 <= i < n - 1 && s.in_backlog(workspace_id, i) implies rest.contains(
                i,
            ) by {
                assert(picked.contains(i));
                let k = choose|k: int| 0 <= k < picked.len() && picked[k] == i;
                if k < at {
                    assert(rest[k] == i);
                } else {
                    assert(rest[k - 1] == i);
                }
            }
            lemma_backlog_held(s, workspace_id, rest, n - 1);
        } else {
            lemma_backlog_held(s, workspace_id, picked, n - 1);
        }
    }
}

/// A list of different numbers below `n` holds at most `n` numbers.
proof fn lemma_distinct_bound(s: Seq<int>, n: int)
    requires
        n >= 0,
        forall|k: int| 0 <= k < s.len() ==> 0 <= (#[trigger] s[k]) < n,
        forall|a: int, b: int| 0 <= a < b < s.len() ==> (#[trigger] s[a]) != (#[trigger] s[b]),
    ensures
        s.len() <= n,
    decreases n,
{
    if s.len() == 0 {
    } else if n == 0 {
        let first = s[0];
        assert(0 <= first < n);
    } else {
        // Drop the entry that holds `n - 1`, if any, or else the last one.
        let at = if exists|k: int| 0 <= k < s.len() && s[k] == n - 1 {
            choose|k: int| 0 <= k < s.len() && s[k] == n - 1
        } else {
            s.len() - 1
        };
        let rest = s.remove(at);
        assert forall|k: int| 0 <= k < rest.len() implies 0 <= (#[trigger] rest[k]) < n - 1 by {
            if k < at {
                assert(rest[k] == s[k]);
                assert(s[k] != s[at]);
            } else {
                assert(rest[k] == s[k + 1]);
                assert(s[at] != s[k + 1]);
            }
        }
        assert forall|a: int, b: int| 0 <= a < b < rest.len() implies (#[trigger] rest[a]) != (
        #[trigger] rest[b]) by {
            let a2 = if a < at { a } else { a + 1 };
            let b2 = if b < at { b } else { b + 1 };
            assert(rest[a] == s[a2]);
            assert(rest[b] == s[b2]);
            assert(s[a2] != s[b2]);
        }
        lemma_distinct_bound(rest, n - 1);
    }
}

/// An opt-out always wins: the status of any object of a workspace that
/// has opted out is `Disabled`, whether or not the object has fragments.
pub proof fn lemma_disabled_wins(s: IndexStoreView, workspace_id: WorkspaceId, object_id: ObjectId)
    requires
        s.indexing_disabled(workspace_id),
    ensures
        s.status(workspace_id, object_id) == IndexingStatus::Disabled,
{
}

/// An object whose workspace has no row yet is `NotIndexed`.
pub proof fn lemma_missing_workspace_is_not_indexed(
    s: IndexStoreView,
    workspace_id: WorkspaceId,
    object_id: ObjectId,
)
    requires
        !s.has_workspace(workspace_id),
    ensures
        s.status(workspace_id, object_id) == IndexingStatus::NotIndexed,
{
}

/// After fragments were written for an object of a workspace that has
/// not opted out, the object is `Indexed`.
pub proof fn lemma_upsert_then_status(
    s: IndexStoreView,
    workspace_id: WorkspaceId,
    object_id: ObjectId,
    tokens_used: nat,
    fragments: Seq<FragmentView>,
)
    requires
        s.wf(),
        s.upsert_result(workspace_id, object_id, fragments) is Ok,
        fragments.len() > 0,
        !s.indexing_disabled(workspace_id),
    ensures
        s.upsert(workspace_id, object_id, tokens_used, fragments).status(workspace_id, object_id)
            == IndexingStatus::Indexed,
{
    let r = CollabRowView { tokens_used, fragments, ..s.collab(object_id) };
    lemma_with_collab(s, object_id, r);
    let d = s.upsert(workspace_id, object_id, tokens_used, fragments);
    assert(d.has_workspace(workspace_id));
    assert(d.workspace(workspace_id) == s.workspace(workspace_id));
}

/// A write of fragments that is refused leaves every row as it was: the
/// fragments, the token cost and the time of the last indexing.
pub proof fn lemma_failed_upsert_changes_nothing(
    s: IndexStoreView,
    workspace_id: WorkspaceId,
    object_id: ObjectId,
    tokens_used: nat,
    fragments: Seq<FragmentView>,
)
    requires
        s.upsert_result(workspace_id, object_id, fragments) is Err,
    ensures
        s.upsert(workspace_id, object_id, tokens_used, fragments) == s,
{
}

/// A write of fragments never moves the time of the last indexing, so an
/// object stays in the backlog until it is marked as indexed. Once it is
/// marked as indexed up to its last change it has left the backlog, and
/// a later change brings it back.
pub proof fn lemma_backlog_bookkeeping(
    s: IndexStoreView,
    workspace_id: WorkspaceId,
    object_id: ObjectId,
    tokens_used: nat,
    fragments: Seq<FragmentView>,
    at: int,
    later: int,
)
    requires
        s.wf(),
        s.has_collab(object_id),
        at >= s.collab(object_id).updated_at,
        later > at,
    ensures
        ({
            let i = s.collab_index(object_id);
            let kind = s.collab(object_id).collab_type;
            &&& s.upsert(workspace_id, object_id, tokens_used, fragments).in_backlog(workspace_id, i)
                == s.in_backlog(workspace_id, i)
            &&& !s.mark_indexed(object_id, kind, at).in_backlog(workspace_id, i)
            &&& s.mark_indexed(object_id, kind, at).touch(object_id, later).in_backlog(
                workspace_id,
                i,
            ) == (s.collab(object_id).workspace_id == workspace_id && s.has_workspace(workspace_id)
                && !s.indexing_disabled(workspace_id))
        }),
{
    let i = s.collab_index(object_id);
    let row = s.collab(object_id);
    let kind = row.collab_type;
    let up = CollabRowView { tokens_used, fragments, ..row };
    lemma_with_collab(s, object_id, up);
    let marked_row = CollabRowView { indexed_at: Some(at), ..row };
    lemma_with_collab(s, object_id, marked_row);
    let marked = s.mark_indexed(object_id, kind, at);
    let touched_row = CollabRowView { updated_at: later, ..marked_row };
    lemma_with_collab(marked, object_id, touched_row);
    let touched = marked.touch(object_id, later);
    assert(touched.collabs[i] == touched_row);
    assert(s.upsert(workspace_id, object_id, tokens_used, fragments).workspaces == s.workspaces);
    assert(marked.workspaces == s.workspaces);
    assert(touched.workspaces == s.workspaces);
}

} // verus!
