use collab_sync::client::{
    assert_client_collab_include_value, assert_client_collab_within_secs, assert_server_collab,
    assert_server_snapshot, collect_answer, collect_completion_v2, contains_text, database_with_view,
    find_invitation, get_db_collab_from_view, get_snapshot_list_until, get_workspace_database,
    remaining_wait, wait_object_sync_complete, wait_object_sync_complete_step, wait_unit_get_search_result,
    wait_until_all_embedding, wait_until_get_embedding, AFWorkspace, AFWorkspaceInvitation,
    CompletionStreamValue, DatabaseMeta, GiveUp, LookupError, Observation, PollStep,
    QuestionStreamValue, SyncWaitEvent, DEFAULT_SYNC_WAIT_SECS,
};
use collab_sync::controller::ControllerError;
use collab_sync::object_id::ObjectId;
use collab_sync::publish::{publish_collabs, PublishCollabItem, PublishCollabMetadata, PublishSource};
use collab_sync::replica::SyncState;

const RETRY: PollStep = PollStep::Retry { pause_millis: 1000 };

fn seen(included: bool, equal: bool) -> Observation {
    Observation::Seen { included, equal }
}

#[test]
fn sync_wait_ends_with_the_first_decisive_event() {
    assert_eq!(DEFAULT_SYNC_WAIT_SECS, 60);
    assert_eq!(wait_object_sync_complete_step(SyncWaitEvent::State(SyncState::SyncFinished)), Some(Ok(())));
    for state in [SyncState::Uninitialized, SyncState::Connecting, SyncState::Syncing, SyncState::Disconnected] {
        assert_eq!(wait_object_sync_complete_step(SyncWaitEvent::State(state)), None);
    }
    assert_eq!(wait_object_sync_complete_step(SyncWaitEvent::TimedOut), Some(Err(ControllerError::SyncTimeout)));
    assert_eq!(wait_object_sync_complete_step(SyncWaitEvent::StreamEnded), Some(Err(ControllerError::SyncTimeout)));
    let syncing = SyncWaitEvent::State(SyncState::Syncing);
    let finished = SyncWaitEvent::State(SyncState::SyncFinished);
    assert_eq!(wait_object_sync_complete(&vec![syncing, syncing, finished]), Ok(()));
    assert_eq!(wait_object_sync_complete(&vec![finished, SyncWaitEvent::TimedOut]), Ok(()));
    assert_eq!(wait_object_sync_complete(&vec![syncing, SyncWaitEvent::TimedOut, finished]), Err(ControllerError::SyncTimeout));
    assert_eq!(wait_object_sync_complete(&vec![SyncWaitEvent::StreamEnded]), Err(ControllerError::SyncTimeout));
    assert_eq!(wait_object_sync_complete(&vec![syncing]), Err(ControllerError::SyncTimeout));
    assert_eq!(wait_object_sync_complete(&vec![]), Err(ControllerError::SyncTimeout));
}

#[test]
fn server_snapshot_poll() {
    assert_eq!(assert_server_snapshot(0, seen(true, false)), (1, PollStep::Done));
    assert_eq!(assert_server_snapshot(0, seen(false, false)), (1, RETRY));
    assert_eq!(assert_server_snapshot(9, seen(false, false)), (10, RETRY));
    assert_eq!(assert_server_snapshot(9, seen(true, false)), (10, PollStep::Done));
    assert_eq!(assert_server_snapshot(10, seen(true, false)), (11, PollStep::GiveUp(GiveUp::Mismatch)));
    assert_eq!(assert_server_snapshot(10, seen(true, true)), (11, PollStep::Done));
    assert_eq!(assert_server_snapshot(10, seen(false, false)), (11, PollStep::GiveUp(GiveUp::Mismatch)));
    assert_eq!(assert_server_snapshot(0, Observation::Failed), (1, RETRY));
    assert_eq!(assert_server_snapshot(9, Observation::Failed), (10, RETRY));
    assert_eq!(assert_server_snapshot(10, Observation::Failed), (11, PollStep::GiveUp(GiveUp::RequestFailed)));
    assert_eq!(assert_server_snapshot(3, Observation::TimedOut), (4, PollStep::GiveUp(GiveUp::Timeout)));
    assert_eq!(assert_server_snapshot(u32::MAX, seen(true, true)), (u32::MAX, PollStep::Done));
}

#[test]
fn server_collab_poll() {
    assert_eq!(assert_server_collab(seen(true, false)), PollStep::Done);
    assert_eq!(assert_server_collab(seen(true, true)), PollStep::Done);
    assert_eq!(assert_server_collab(seen(false, false)), RETRY);
    assert_eq!(assert_server_collab(Observation::Failed), RETRY);
    assert_eq!(assert_server_collab(Observation::TimedOut), PollStep::GiveUp(GiveUp::Timeout));
}

#[test]
fn client_collab_polls() {
    assert_eq!(assert_client_collab_within_secs(0, seen(true, true)), (1, PollStep::Done));
    assert_eq!(assert_client_collab_within_secs(0, seen(true, false)), (1, RETRY));
    assert_eq!(assert_client_collab_within_secs(59, seen(false, false)), (60, RETRY));
    assert_eq!(assert_client_collab_within_secs(60, seen(false, false)), (61, PollStep::GiveUp(GiveUp::Mismatch)));
    assert_eq!(assert_client_collab_within_secs(60, seen(false, true)), (61, PollStep::Done));
    assert_eq!(assert_client_collab_within_secs(5, Observation::TimedOut), (6, PollStep::GiveUp(GiveUp::Timeout)));
    assert_eq!(assert_client_collab_include_value(0, seen(true, false)), (1, PollStep::Done));
    assert_eq!(assert_client_collab_include_value(0, seen(false, true)), (1, RETRY));
    assert_eq!(assert_client_collab_include_value(29, seen(false, false)), (30, RETRY));
    assert_eq!(assert_client_collab_include_value(30, seen(false, false)), (31, PollStep::GiveUp(GiveUp::Mismatch)));
    assert_eq!(assert_client_collab_include_value(30, seen(true, false)), (31, PollStep::Done));
    assert_eq!(assert_client_collab_include_value(1, Observation::TimedOut), (2, PollStep::GiveUp(GiveUp::Timeout)));
}

#[test]
fn embedding_and_search_polls() {
    let every_two = PollStep::Retry { pause_millis: 2000 };
    assert_eq!(wait_until_all_embedding(Some(3), 3), PollStep::Done);
    assert_eq!(wait_until_all_embedding(Some(0), 0), PollStep::Done);
    assert_eq!(wait_until_all_embedding(Some(2), 3), every_two);
    assert_eq!(wait_until_all_embedding(Some(4), 3), every_two);
    assert_eq!(wait_until_all_embedding(None, 3), every_two);
    assert_eq!(wait_until_get_embedding(true), PollStep::Done);
    assert_eq!(wait_until_get_embedding(false), every_two);
    assert_eq!(wait_unit_get_search_result(0), PollStep::Retry { pause_millis: 1500 });
    assert_eq!(wait_unit_get_search_result(1), PollStep::Done);
    assert_eq!(get_snapshot_list_until(Some(true)), PollStep::Done);
    assert_eq!(get_snapshot_list_until(Some(false)), PollStep::Retry { pause_millis: 5000 });
    assert_eq!(get_snapshot_list_until(None), PollStep::GiveUp(GiveUp::RequestFailed));
}

#[test]
fn answers_are_put_together() {
    let stream = vec![
        QuestionStreamValue::KeepAlive,
        QuestionStreamValue::Answer { value: "Hel".to_string() },
        QuestionStreamValue::Metadata { value: "{\"source\":1}".to_string() },
        QuestionStreamValue::Answer { value: "lo".to_string() },
        QuestionStreamValue::Answer { value: String::new() },
        QuestionStreamValue::Answer { value: " w\u{f6}rld".to_string() },
    ];
    assert_eq!(collect_answer(stream), "Hello w\u{f6}rld");
    assert_eq!(collect_answer(vec![]), "");
    assert_eq!(collect_answer(vec![QuestionStreamValue::KeepAlive]), "");
    let stream = vec![
        CompletionStreamValue::Comment { value: "c1".to_string() },
        CompletionStreamValue::Answer { value: "a1".to_string() },
        CompletionStreamValue::Answer { value: "a2".to_string() },
        CompletionStreamValue::Comment { value: "c2".to_string() },
    ];
    assert_eq!(collect_completion_v2(stream), ("a1a2".to_string(), "c1c2".to_string()));
    assert_eq!(collect_completion_v2(vec![]), (String::new(), String::new()));
}

#[test]
fn workspace_lookups_take_the_first_match() {
    let w = |workspace: u128, storage: u128| AFWorkspace {
        workspace_id: ObjectId::from_u128(workspace),
        database_storage_id: ObjectId::from_u128(storage),
    };
    let workspaces = vec![w(1, 10), w(2, 20), w(2, 21), w(3, 30)];
    assert_eq!(get_workspace_database(&workspaces, &ObjectId::from_u128(1)), Some(ObjectId::from_u128(10)));
    assert_eq!(get_workspace_database(&workspaces, &ObjectId::from_u128(2)), Some(ObjectId::from_u128(20)));
    assert_eq!(get_workspace_database(&workspaces, &ObjectId::from_u128(3)), Some(ObjectId::from_u128(30)));
    assert_eq!(get_workspace_database(&workspaces, &ObjectId::from_u128(4)), None);
    assert_eq!(get_workspace_database(&vec![], &ObjectId::from_u128(1)), None);
    let inv = |invite: u128, workspace: u128| AFWorkspaceInvitation {
        invite_id: ObjectId::from_u128(invite),
        workspace_id: ObjectId::from_u128(workspace),
    };
    let invitations = vec![inv(100, 1), inv(101, 2), inv(102, 2)];
    assert_eq!(find_invitation(&invitations, &ObjectId::from_u128(2)), Some(inv(101, 2)));
    assert_eq!(find_invitation(&invitations, &ObjectId::from_u128(3)), None);
}

#[test]
fn database_of_a_view_is_found_by_the_view_id_text() {
    let view = ObjectId::from_u128(0x11111111_2222_3333_4444_555555555555);
    let other = ObjectId::from_u128(0x99999999_2222_3333_4444_555555555555);
    let database = ObjectId::from_u128(0xaaaaaaaa_bbbb_cccc_dddd_eeeeeeeeeeee);
    let metas = vec![
        DatabaseMeta { database_id: "not-an-id".to_string(), linked_views: vec![other.to_string()] },
        DatabaseMeta { database_id: "ffffffff-bbbb-cccc-dddd-eeeeeeeeeeee".to_string(), linked_views: vec![] },
        DatabaseMeta {
            database_id: "aaaaaaaa-bbbb-cccc-dddd-eeeeeeeeeeee".to_string(),
            linked_views: vec!["x".to_string(), "11111111-2222-3333-4444-555555555555".to_string()],
        },
        DatabaseMeta {
            database_id: "00000000-bbbb-cccc-dddd-eeeeeeeeeeee".to_string(),
            linked_views: vec!["11111111-2222-3333-4444-555555555555".to_string()],
        },
    ];
    assert_eq!(get_db_collab_from_view(&metas, &view), Ok(database));
    assert_eq!(get_db_collab_from_view(&metas, &other), Err(LookupError::InvalidDatabaseId));
    assert_eq!(get_db_collab_from_view(&metas, &database), Err(LookupError::NoDatabaseForView));
    assert_eq!(get_db_collab_from_view(&vec![], &view), Err(LookupError::NoDatabaseForView));
    assert_eq!(database_with_view(&metas, &"x".to_string()), 2);
    assert_eq!(database_with_view(&metas, &"y".to_string()), 4);
    assert!(contains_text(&vec!["a".to_string(), "b".to_string()], &"b".to_string()));
    assert!(!contains_text(&vec!["a".to_string(), "b".to_string()], &"c".to_string()));
}

#[test]
fn views_are_prepared_for_publishing() {
    let source = |n: u128, hex: &str| PublishSource {
        view_id: ObjectId::from_u128(n),
        publish_name: format!("name-{n}"),
        meta_json: format!("{{\"view\":{n}}}"),
        blob_hex: hex.to_string(),
    };
    let data = vec![source(1, "48656c6C6f"), source(2, ""), source(3, "00fFAb")];
    let items = publish_collabs(&data, true, false).unwrap();
    assert_eq!(
        items,
        vec![
            PublishCollabItem {
                meta: PublishCollabMetadata {
                    view_id: ObjectId::from_u128(1),
                    publish_name: "name-1".to_string(),
                    metadata: "{\"view\":1}".to_string(),
                },
                data: b"Hello".to_vec(),
                comments_enabled: true,
                duplicate_enabled: false,
            },
            PublishCollabItem {
                meta: PublishCollabMetadata {
                    view_id: ObjectId::from_u128(2),
                    publish_name: "name-2".to_string(),
                    metadata: "{\"view\":2}".to_string(),
                },
                data: vec![],
                comments_enabled: true,
                duplicate_enabled: false,
            },
            PublishCollabItem {
                meta: PublishCollabMetadata {
                    view_id: ObjectId::from_u128(3),
                    publish_name: "name-3".to_string(),
                    metadata: "{\"view\":3}".to_string(),
                },
                data: vec![0, 255, 171],
                comments_enabled: true,
                duplicate_enabled: false,
            },
        ]
    );
    assert_eq!(publish_collabs(&vec![], false, true), Ok(vec![]));
    assert_eq!(publish_collabs(&vec![source(1, "00"), source(2, "0"), source(3, "zz")], false, true), Err(1));
    assert_eq!(publish_collabs(&vec![source(1, "0g")], false, true), Err(0));
    assert_eq!(publish_collabs(&vec![source(1, "00"), source(2, "1 ")], false, true), Err(1));
}

#[test]
fn sync_wait_is_bounded_in_all() {
    assert_eq!(remaining_wait(60, 0), Ok(60_000));
    assert_eq!(remaining_wait(60, 1), Ok(59_999));
    assert_eq!(remaining_wait(60, 59_999), Ok(1));
    assert_eq!(remaining_wait(60, 60_000), Err(ControllerError::SyncTimeout));
    assert_eq!(remaining_wait(60, u64::MAX), Err(ControllerError::SyncTimeout));
    assert_eq!(remaining_wait(0, 0), Err(ControllerError::SyncTimeout));
    assert_eq!(remaining_wait(u64::MAX, 0), Ok(u64::MAX));
    assert_eq!(remaining_wait(u64::MAX, u64::MAX), Ok(u64::MAX));
    assert_eq!(remaining_wait(18_446_744_073_709_552, 0), Ok(u64::MAX));
    assert_eq!(remaining_wait(18_446_744_073_709_552, 1_000), Ok(18_446_744_073_709_551_000));
    assert_eq!(remaining_wait(18_446_744_073_709_551, u64::MAX), Err(ControllerError::SyncTimeout));
}
