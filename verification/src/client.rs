//! Decisions of a client session that drives a workspace controller
//! against a server: how long to keep waiting for a sync or for the
//! server's state to match, what a stream of answer pieces adds up to,
//! and a few lookups in what the server returns.
//!
//! The waiting itself, the requests and the comparison of documents are
//! done by the caller. After each attempt the caller reports what it saw
//! and is told whether to stop, to try again after a pause, or to give up.

use crate::controller::ControllerError;
use crate::object_id::{ObjectId, WorkspaceId};
use crate::replica::SyncState;
use vstd::prelude::*;
use vstd::string::StringExecFns;

verus! {

/// How long `wait_object_sync_complete` waits for each change of state.
pub const DEFAULT_SYNC_WAIT_SECS: u64 = 60;

/// What the caller saw while waiting for a replica to finish syncing.
#[derive(Clone, Copy, Debug, PartialEq, Eq, Structural)]
pub enum SyncWaitEvent {
    /// The replica entered this state.
    State(SyncState),
    /// No more states will be reported.
    StreamEnded,
    /// No state was reported within the time allowed.
    TimedOut,
}

/// What the wait comes to after the given events: it succeeds with the
/// first report of `SyncFinished`, and fails with `SyncTimeout` if the
/// time runs out or the reports end before that. `None` says that the
/// events do not decide it yet.
pub open spec fn sync_wait_outcome(events: Seq<SyncWaitEvent>) -> Option<
    Result<(), ControllerError>,
>
    decreases events.len(),
{
    if events.len() == 0 {
        None
    } else {
        match events[0] {
            SyncWaitEvent::State(SyncState::SyncFinished) => Some(Ok(())),
            SyncWaitEvent::State(_) => sync_wait_outcome(events.skip(1)),
            _ => Some(Err(ControllerError::SyncTimeout)),
        }
    }
}

/// Decides on one event while waiting for a replica to finish syncing:
/// `None` means keep waiting.
pub fn wait_object_sync_complete_step(event: SyncWaitEvent) -> (r: Option<
    Result<(), ControllerError>,
>)
    ensures
        r == sync_wait_outcome(seq![event]),
{
    proof {
        reveal_with_fuel(sync_wait_outcome, 2);
        assert(seq![event].skip(1) =~= Seq::<SyncWaitEvent>::empty());
        assert(seq![event][0] == event);
    }
    match event {
        SyncWaitEvent::State(SyncState::SyncFinished) => Some(Ok(())),
        SyncWaitEvent::State(_) => None,
        _ => Some(Err(ControllerError::SyncTimeout)),
    }
}

/// Decides a wait from the events that were seen, first to last. Events
/// that end without a decision count as the end of the reports.
pub fn wait_object_sync_complete(events: &Vec<SyncWaitEvent>) -> (r: Result<(), ControllerError>)
    ensures
        r == match sync_wait_outcome(events@) {
            Some(outcome) => outcome,
            None => Err(ControllerError::SyncTimeout),
        },
{
    let mut i: usize = 0;
    proof {
        assert(events@.skip(0) =~= events@);
    }
    while i < events.len()
        invariant
            i <= events@.len(),
            sync_wait_outcome(events@) == sync_wait_outcome(events@.skip(i as int)),
        decreases events@.len() - i,
    {
        proof {
            assert(events@.skip(i as int)[0] == events@[i as int]);
            assert(events@.skip(i as int).skip(1) =~= events@.skip(i as int + 1));
        }
        match events[i] {
            SyncWaitEvent::State(SyncState::SyncFinished) => {
                return Ok(());
            },
            SyncWaitEvent::State(_) => {},
            _ => {
                return Err(ControllerError::SyncTimeout);
            },
        }
        i = i + 1;
    }
    Err(ControllerError::SyncTimeout)
}

/// What is left, in milliseconds, of a wait of `secs` seconds after
/// `elapsed_millis` of it have gone by; nothing once the time is up.
pub open spec fn remaining_millis(secs: u64, elapsed_millis: u64) -> Option<int> {
    if elapsed_millis < secs * 1000 {
        Some(secs * 1000 - elapsed_millis)
    } else {
        None
    }
}

/// How long a wait for a replica to finish syncing may still last. The
/// whole wait is bounded by `secs` seconds, however many changes of state
/// are seen on the way: once that time is up the result is `SyncTimeout`.
/// Until then it is the time left in milliseconds, or the largest number
/// of milliseconds there is if more than that is left.
pub fn remaining_wait(secs: u64, elapsed_millis: u64) -> (r: Result<u64, ControllerError>)
    ensures
        r == match remaining_millis(secs, elapsed_millis) {
            Some(left) => Ok::<u64, ControllerError>(
                if left <= u64::MAX {
                    left as u64
                } else {
                    u64::MAX
                },
            ),
            None => Err::<u64, ControllerError>(ControllerError::SyncTimeout),
        },
{
    let budget: u128 = (secs as u128) * 1000;
    let elapsed: u128 = elapsed_millis as u128;
    if elapsed < budget {
        let left: u128 = budget - elapsed;
        if left <= u64::MAX as u128 {
            Ok(left as u64)
        } else {
            Ok(u64::MAX)
        }
    } else {
        Err(ControllerError::SyncTimeout)
    }
}

/// What one attempt to compare the server's or the client's state with
/// what is expected came to.
#[derive(Clone, Copy, Debug, PartialEq, Eq, Structural)]
pub enum Observation {
    /// The attempt did not end within the time allowed.
    TimedOut,
    /// The request failed.
    Failed,
    /// The state was fetched. `included` says whether it holds all that is
    /// expected, `equal` whether it is exactly what is expected.
    Seen { included: bool, equal: bool },
}

/// Why a poll gave up.
#[derive(Clone, Copy, Debug, PartialEq, Eq, Structural)]
pub enum GiveUp {
    Timeout,
    RequestFailed,
    Mismatch,
}

/// What to do after an attempt.
#[derive(Clone, Copy, Debug, PartialEq, Eq, Structural)]
pub enum PollStep {
    /// The condition holds.
    Done,
    /// Try again after a pause.
    Retry { pause_millis: u64 },
    /// Stop: the condition cannot be met.
    GiveUp(GiveUp),
}

/// The number of attempts after one more, which never wraps.
pub open spec fn one_more(count: u32) -> u32 {
    if count < u32::MAX {
        (count + 1) as u32
    } else {
        count
    }
}

/// A poll that accepts a state which holds what is expected, and which
/// after `patience` attempts insists on `strict`: an attempt beyond that
/// ends the poll, with success only if `strict` holds.
pub open spec fn patient_step(attempts: u32, patience: u32, accepted: bool, strict: bool) -> PollStep {
    if attempts > patience {
        if strict {
            PollStep::Done
        } else {
            PollStep::GiveUp(GiveUp::Mismatch)
        }
    } else if accepted {
        PollStep::Done
    } else {
        PollStep::Retry { pause_millis: 1000 }
    }
}

/// The step after an attempt to match a snapshot on the server: the
/// attempt counts; a fetched snapshot is accepted if it holds what is
/// expected, and from the eleventh attempt on only if it is exactly what
/// is expected; a failed request is tried again up to the tenth attempt.
pub open spec fn server_snapshot_step(retry_count: u32, seen: Observation) -> PollStep {
    match seen {
        Observation::TimedOut => PollStep::GiveUp(GiveUp::Timeout),
        Observation::Failed => if one_more(retry_count) > 10 {
            PollStep::GiveUp(GiveUp::RequestFailed)
        } else {
            PollStep::Retry { pause_millis: 1000 }
        },
        Observation::Seen { included, equal } => patient_step(
            one_more(retry_count),
            10,
            included,
            equal,
        ),
    }
}

/// Decides on one attempt to match a snapshot on the server. The result
/// holds the new number of attempts.
pub fn assert_server_snapshot(retry_count: u32, seen: Observation) -> (r: (u32, PollStep))
    ensures
        r.0 == one_more(retry_count),
        r.1 == server_snapshot_step(retry_count, seen),
{
    let attempts: u32 = if retry_count < u32::MAX {
        retry_count + 1
    } else {
        retry_count
    };
    let step = match seen {
        Observation::TimedOut => PollStep::GiveUp(GiveUp::Timeout),
        Observation::Failed => {
            if attempts > 10 {
                PollStep::GiveUp(GiveUp::RequestFailed)
            } else {
                PollStep::Retry { pause_millis: 1000 }
            }
        },
        Observation::Seen { included, equal } => patient(attempts, 10, included, equal),
    };
    (attempts, step)
}

fn patient(attempts: u32, patience: u32, accepted: bool, strict: bool) -> (step: PollStep)
    ensures
        step == patient_step(attempts, patience, accepted, strict),
{
    if attempts > patience {
        if strict {
            PollStep::Done
        } else {
            PollStep::GiveUp(GiveUp::Mismatch)
        }
    } else if accepted {
        PollStep::Done
    } else {
        PollStep::Retry { pause_millis: 1000 }
    }
}

/// The step after an attempt to match an object on the server: done once
/// the object holds what is expected; anything else, a failed request
/// too, is tried again after a second, until the caller's time is up.
pub open spec fn server_collab_step(seen: Observation) -> PollStep {
    match seen {
        Observation::TimedOut => PollStep::GiveUp(GiveUp::Timeout),
        Observation::Seen { included: true, equal } => PollStep::Done,
        _ => PollStep::Retry { pause_millis: 1000 },
    }
}

/// Decides on one attempt to match an object on the server.
pub fn assert_server_collab(seen: Observation) -> (step: PollStep)
    ensures
        step == server_collab_step(seen),
{
    match seen {
        Observation::TimedOut => PollStep::GiveUp(GiveUp::Timeout),
        Observation::Seen { included: true, equal: _ } => PollStep::Done,
        _ => PollStep::Retry { pause_millis: 1000 },
    }
}

/// The step after a look at one key of a local replica: done once the
/// value under the key is the expected one; the sixty-first look decides.
/// `equal` says whether the values under the key agree.
pub open spec fn client_collab_step(retry_count: u32, seen: Observation) -> PollStep {
    match seen {
        Observation::Seen { included, equal } => patient_step(
            one_more(retry_count),
            60,
            equal,
            equal,
        ),
        _ => PollStep::GiveUp(GiveUp::Timeout),
    }
}

/// Decides on one look at a key of a local replica. The result holds the
/// new number of looks.
pub fn assert_client_collab_within_secs(retry_count: u32, seen: Observation) -> (r: (u32, PollStep))
    ensures
        r.0 == one_more(retry_count),
        r.1 == client_collab_step(retry_count, seen),
{
    let attempts: u32 = if retry_count < u32::MAX {
        retry_count + 1
    } else {
        retry_count
    };
    let step = match seen {
        Observation::Seen { included: _, equal } => patient(attempts, 60, equal, equal),
        _ => PollStep::GiveUp(GiveUp::Timeout),
    };
    (attempts, step)
}

/// The step after a look at a local replica that should hold a given
/// value: done once it does; the thirty-first look decides.
pub open spec fn client_include_step(retry_count: u32, seen: Observation) -> PollStep {
    match seen {
        Observation::Seen { included, equal } => patient_step(
            one_more(retry_count),
            30,
            included,
            included,
        ),
        _ => PollStep::GiveUp(GiveUp::Timeout),
    }
}

/// Decides on one look at a local replica that should hold a given value.
/// The result holds the new number of looks.
pub fn assert_client_collab_include_value(retry_count: u32, seen: Observation) -> (r: (
    u32,
    PollStep,
))
    ensures
        r.0 == one_more(retry_count),
        r.1 == client_include_step(retry_count, seen),
{
    let attempts: u32 = if retry_count < u32::MAX {
        retry_count + 1
    } else {
        retry_count
    };
    let step = match seen {
        Observation::Seen { included, equal: _ } => patient(attempts, 30, included, included),
        _ => PollStep::GiveUp(GiveUp::Timeout),
    };
    (attempts, step)
}

/// Decides on one answer to a batch query for embeddings: `found` is the
/// number of objects for which the server returned one, or `None` if the
/// request failed. Done once every object that was asked for has one;
/// until then the query is repeated every two seconds.
pub fn wait_until_all_embedding(found: Option<usize>, wanted: usize) -> (step: PollStep)
    ensures
        step == if found == Some(wanted) {
            PollStep::Done
        } else {
            PollStep::Retry { pause_millis: 2000 }
        },
{
    match found {
        Some(n) => {
            if n == wanted {
                PollStep::Done
            } else {
                PollStep::Retry { pause_millis: 2000 }
            }
        },
        None => PollStep::Retry { pause_millis: 2000 },
    }
}

/// Decides on one answer to a query for an object's embedding: done once
/// the server has one; until then the query is repeated every two
/// seconds.
pub fn wait_until_get_embedding(found: bool) -> (step: PollStep)
    ensures
        step == if found {
            PollStep::Done
        } else {
            PollStep::Retry { pause_millis: 2000 }
        },
{
    if found {
        PollStep::Done
    } else {
        PollStep::Retry { pause_millis: 2000 }
    }
}

/// Decides on one answer to a search: done once the search finds
/// anything; until then it is repeated every one and a half seconds.
pub fn wait_unit_get_search_result(found: usize) -> (step: PollStep)
    ensures
        step == if found > 0 {
            PollStep::Done
        } else {
            PollStep::Retry { pause_millis: 1500 }
        },
{
    if found > 0 {
        PollStep::Done
    } else {
        PollStep::Retry { pause_millis: 1500 }
    }
}

/// Decides on one listing of an object's snapshots: `accepted` says
/// whether the caller's condition holds of the listing, or is `None` if
/// the request failed, which ends the poll. Until the condition holds the
/// listing is fetched again every five seconds.
pub fn get_snapshot_list_until(accepted: Option<bool>) -> (step: PollStep)
    ensures
        step == match accepted {
            None => PollStep::GiveUp(GiveUp::RequestFailed),
            Some(true) => PollStep::Done,
            Some(false) => PollStep::Retry { pause_millis: 5000 },
        },
{
    match accepted {
        None => PollStep::GiveUp(GiveUp::RequestFailed),
        Some(true) => PollStep::Done,
        Some(false) => PollStep::Retry { pause_millis: 5000 },
    }
}

/// One piece of a streamed answer to a question.
#[derive(Debug, PartialEq)]
pub enum QuestionStreamValue {
    Answer { value: String },
    Metadata { value: String },
    KeepAlive,
}

/// One piece of a streamed completion.
#[derive(Debug, PartialEq)]
pub enum CompletionStreamValue {
    Answer { value: String },
    Comment { value: String },
}

/// The text that the answer pieces of a stream spell, in order.
pub open spec fn answer_text(values: Seq<QuestionStreamValue>) -> Seq<char>
    decreases values.len(),
{
    if values.len() == 0 {
        Seq::empty()
    } else {
        answer_text(values.drop_last()) + match values.last() {
            QuestionStreamValue::Answer { value } => value@,
            _ => Seq::empty(),
        }
    }
}

/// The text that the answer pieces (`comment` false) or the comment
/// pieces (`comment` true) of a completion spell, in order.
pub open spec fn completion_text(values: Seq<CompletionStreamValue>, comment: bool) -> Seq<char>
    decreases values.len(),
{
    if values.len() == 0 {
        Seq::empty()
    } else {
        completion_text(values.drop_last(), comment) + match values.last() {
            CompletionStreamValue::Answer { value } => if comment {
                Seq::empty()
            } else {
                value@
            },
            CompletionStreamValue::Comment { value } => if comment {
                value@
            } else {
                Seq::empty()
            },
        }
    }
}

/// Puts the answer pieces of a stream together.
pub fn collect_answer(stream: Vec<QuestionStreamValue>) -> (answer: String)
    ensures
        answer@ == answer_text(stream@),
{
    let mut answer = String::new();
    let mut i: usize = 0;
    proof {
        assert(stream@.take(0) =~= Seq::<QuestionStreamValue>::empty());
    }
    while i < stream.len()
        invariant
            i <= stream@.len(),
            answer@ == answer_text(stream@.take(i as int)),
        decreases stream@.len() - i,
    {
        proof {
            assert(stream@.take(i as int + 1).drop_last() =~= stream@.take(i as int));
            assert(stream@.take(i as int + 1).last() == stream@[i as int]);
        }
        match &stream[i] {
            QuestionStreamValue::Answer { value } => {
                answer.append(value.as_str());
            },
            QuestionStreamValue::Metadata { .. } => {
                proof {
                    assert(answer@ + Seq::<char>::empty() =~= answer@);
                }
            },
            QuestionStreamValue::KeepAlive => {
                proof {
                    assert(answer@ + Seq::<char>::empty() =~= answer@);
                }
            },
        }
        i = i + 1;
    }
    proof {
        assert(stream@.take(stream@.len() as int) =~= stream@);
    }
    answer
}

/// Puts the pieces of a streamed completion together: first the answer,
/// then the comment.
pub fn collect_completion_v2(stream: Vec<CompletionStreamValue>) -> (r: (String, String))
    ensures
        r.0@ == completion_text(stream@, false),
        r.1@ == completion_text(stream@, true),
{
    let mut answer = String::new();
    let mut comment = String::new();
    let mut i: usize = 0;
    proof {
        assert(stream@.take(0) =~= Seq::<CompletionStreamValue>::empty());
    }
    while i < stream.len()
        invariant
            i <= stream@.len(),
            answer@ == completion_text(stream@.take(i as int), false),
            comment@ == completion_text(stream@.take(i as int), true),
        decreases stream@.len() - i,
    {
        proof {
            assert(stream@.take(i as int + 1).drop_last() =~= stream@.take(i as int));
            assert(stream@.take(i as int + 1).last() == stream@[i as int]);
            assert(answer@ + Seq::<char>::empty() =~= answer@);
            assert(comment@ + Seq::<char>::empty() =~= comment@);
        }
        match &stream[i] {
            CompletionStreamValue::Answer { value } => {
                answer.append(value.as_str());
            },
            CompletionStreamValue::Comment { value } => {
                comment.append(value.as_str());
            },
        }
        i = i + 1;
    }
    proof {
        assert(stream@.take(stream@.len() as int) =~= stream@);
    }
    (answer, comment)
}

/// What the server tells about a workspace.
#[derive(Clone, Copy, Debug, PartialEq, Eq, Structural)]
pub struct AFWorkspace {
    pub workspace_id: WorkspaceId,
    pub database_storage_id: ObjectId,
}

/// An invitation to a workspace.
#[derive(Clone, Copy, Debug, PartialEq, Eq, Structural)]
pub struct AFWorkspaceInvitation {
    pub invite_id: ObjectId,
    pub workspace_id: WorkspaceId,
}

/// The place of the first workspace with the given id.
pub open spec fn first_workspace(workspaces: Seq<AFWorkspace>, id: WorkspaceId) -> Option<int>
    decreases workspaces.len(),
{
    if workspaces.len() == 0 {
        None
    } else if workspaces[0].workspace_id == id {
        Some(0)
    } else {
        match first_workspace(workspaces.skip(1), id) {
            Some(i) => Some(i + 1),
            None => None,
        }
    }
}

/// The place of the first invitation to the given workspace.
pub open spec fn first_invitation(invitations: Seq<AFWorkspaceInvitation>, id: WorkspaceId) -> Option<
    int,
>
    decreases invitations.len(),
{
    if invitations.len() == 0 {
        None
    } else if invitations[0].workspace_id == id {
        Some(0)
    } else {
        match first_invitation(invitations.skip(1), id) {
            Some(i) => Some(i + 1),
            None => None,
        }
    }
}

/// The id under which the databases of a workspace are stored, taken from
/// the first of the listed workspaces that has the given id.
pub fn get_workspace_database(workspaces: &Vec<AFWorkspace>, workspace_id: &WorkspaceId) -> (r:
    Option<ObjectId>)
    ensures
        r == match first_workspace(workspaces@, *workspace_id) {
            Some(i) => Some(workspaces@[i].database_storage_id),
            None => None,
        },
        first_workspace(workspaces@, *workspace_id) is Some ==> 0 <= first_workspace(
            workspaces@,
            *workspace_id,
        ).unwrap() < workspaces@.len(),
{
    let mut i: usize = 0;
    proof {
        assert(workspaces@.skip(0) =~= workspaces@);
    }
    while i < workspaces.len()
        invariant
            i <= workspaces@.len(),
            first_workspace(workspaces@, *workspace_id) == match first_workspace(
                workspaces@.skip(i as int),
                *workspace_id,
            ) {
                Some(k) => Some(k + i),
                None => None,
            },
        decreases workspaces@.len() - i,
    {
        proof {
            assert(workspaces@.skip(i as int)[0] == workspaces@[i as int]);
            assert(workspaces@.skip(i as int).skip(1) =~= workspaces@.skip(i as int + 1));
        }
        if workspaces[i].workspace_id == *workspace_id {
            return Some(workspaces[i].database_storage_id);
        }
        i = i + 1;
    }
    None
}

/// The first of the listed invitations that is to the given workspace.
pub fn find_invitation(invitations: &Vec<AFWorkspaceInvitation>, workspace_id: &WorkspaceId) -> (r:
    Option<AFWorkspaceInvitation>)
    ensures
        r == match first_invitation(invitations@, *workspace_id) {
            Some(i) => Some(invitations@[i]),
            None => None,
        },
{
    let mut i: usize = 0;
    proof {
        assert(invitations@.skip(0) =~= invitations@);
    }
    while i < invitations.len()
        invariant
            i <= invitations@.len(),
            first_invitation(invitations@, *workspace_id) == match first_invitation(
                invitations@.skip(i as int),
                *workspace_id,
            ) {
                Some(k) => Some(k + i),
                None => None,
            },
        decreases invitations@.len() - i,
    {
        proof {
            assert(invitations@.skip(i as int)[0] == invitations@[i as int]);
            assert(invitations@.skip(i as int).skip(1) =~= invitations@.skip(i as int + 1));
        }
        if invitations[i].workspace_id == *workspace_id {
            return Some(invitations[i]);
        }
        i = i + 1;
    }
    None
}


/// What a workspace knows about one of its databases.
#[derive(Debug, PartialEq)]
pub struct DatabaseMeta {
    pub database_id: String,
    pub linked_views: Vec<String>,
}

/// Why the database of a view was not found.
#[derive(Clone, Copy, Debug, PartialEq, Eq, Structural)]
pub enum LookupError {
    /// No database is linked to the view.
    NoDatabaseForView,
    /// The database's id is not an identifier.
    InvalidDatabaseId,
}

/// The database is linked to the view with this id text.
pub open spec fn links_view(meta: DatabaseMeta, view: Seq<char>) -> bool {
    exists|j: int| 0 <= j < meta.linked_views@.len() && (#[trigger] meta.linked_views@[j])@ == view
}

/// The place of the first database that is linked to the view, or the
/// number of databases if none is.
pub open spec fn first_database_with_view(metas: Seq<DatabaseMeta>, view: Seq<char>) -> int
    decreases metas.len(),
{
    if metas.len() == 0 {
        0
    } else if links_view(metas[0], view) {
        0
    } else {
        1 + first_database_with_view(metas.skip(1), view)
    }
}

/// Whether the list holds the text.
pub fn contains_text(texts: &Vec<String>, wanted: &String) -> (r: bool)
    ensures
        r == exists|j: int| 0 <= j < texts@.len() && (#[trigger] texts@[j])@ == wanted@,
{
    let mut j: usize = 0;
    while j < texts.len()
        invariant
            j <= texts@.len(),
            forall|k: int| 0 <= k < j ==> (#[trigger] texts@[k])@ != wanted@,
        decreases texts@.len() - j,
    {
        if texts[j] == *wanted {
            return true;
        }
        j = j + 1;
    }
    false
}

/// The place of the first database that is linked to the view with the
/// given id text; the number of databases if none is.
pub fn database_with_view(metas: &Vec<DatabaseMeta>, view: &String) -> (i: usize)
    ensures
        i == first_database_with_view(metas@, view@),
        i <= metas@.len(),
        i < metas@.len() ==> links_view(metas@[i as int], view@),
{
    let mut i: usize = 0;
    proof {
        assert(metas@.skip(0) =~= metas@);
    }
    while i < metas.len()
        invariant
            i <= metas@.len(),
            first_database_with_view(metas@, view@) == i + first_database_with_view(
                metas@.skip(i as int),
                view@,
            ),
        decreases metas@.len() - i,
    {
        proof {
            assert(metas@.skip(i as int)[0] == metas@[i as int]);
            assert(metas@.skip(i as int).skip(1) =~= metas@.skip(i as int + 1));
        }
        if contains_text(&metas[i].linked_views, view) {
            return i;
        }
        i = i + 1;
    }
    i
}

/// The id of the database that a view belongs to: the id of the first of
/// the workspace's databases that is linked to the view.
pub fn get_db_collab_from_view(metas: &Vec<DatabaseMeta>, view_id: &ObjectId) -> (r: Result<
    ObjectId,
    LookupError,
>)
    ensures
        r == ({
            let i = first_database_with_view(metas@, crate::object_id::uuid_text(view_id.value));
            if i >= metas@.len() {
                Err::<ObjectId, LookupError>(LookupError::NoDatabaseForView)
            } else {
                match crate::object_id::uuid_of_text(metas@[i].database_id@) {
                    Some(value) => Ok::<ObjectId, LookupError>(ObjectId { value }),
                    None => Err::<ObjectId, LookupError>(LookupError::InvalidDatabaseId),
                }
            }
        }),
{
    let view = view_id.to_string();
    let i = database_with_view(metas, &view);
    if i >= metas.len() {
        return Err(LookupError::NoDatabaseForView);
    }
    match ObjectId::parse_str(metas[i].database_id.as_str()) {
        Some(id) => Ok(id),
        None => Err(LookupError::InvalidDatabaseId),
    }
}

} // verus!
