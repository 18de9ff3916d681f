use liquid_breakout::io_queue::{take_next_for, GenericRoutes, WebsocketIoStruct};
use liquid_breakout::report::{Finding, ScanReport};
use liquid_breakout::rules::Rule;
use liquid_breakout::schema::{
    check_ban_request, check_unban_request, check_whitelist_request, default_error,
    default_line_col, default_malicious_reason, default_malicious_result, default_moderator,
    default_reason, default_script, default_share_id, default_user_id, default_user_id_u64,
    ApiTags, BanRequestSchema, ScanMapResult, UnbanRequestSchema, WhitelistRequestSchema,
};
use liquid_breakout::schema::{check_ban_query, check_unban_query, check_whitelist_query, QueryRefusal};

fn ban(user_id: u64, duration: i32) -> BanRequestSchema {
    BanRequestSchema { user_id, duration, moderator: default_moderator(), reason: default_reason() }
}

fn refusal(r: Result<(), liquid_breakout::schema::ApiError>) -> Option<String> {
    r.err().map(|e| e.error)
}

#[test]
fn ban_request_checks() {
    assert_eq!(refusal(check_ban_request(&ban(0, 10))), Some("userId cannot be negative or 0.".to_string()));
    assert_eq!(refusal(check_ban_request(&ban(0, -5))), Some("userId cannot be negative or 0.".to_string()));
    assert_eq!(refusal(check_ban_request(&ban(3, -2))), Some("duration can only be positive or -1.".to_string()));
    assert_eq!(refusal(check_ban_request(&ban(3, i32::MIN))), Some("duration can only be positive or -1.".to_string()));
    assert_eq!(refusal(check_ban_request(&ban(3, -1))), None);
    assert_eq!(refusal(check_ban_request(&ban(3, 0))), None);
    assert_eq!(refusal(check_ban_request(&ban(u64::MAX, 60))), None);
}

#[test]
fn unban_and_whitelist_checks() {
    assert_eq!(refusal(check_unban_request(&UnbanRequestSchema { user_id: 0 })), Some("userId cannot be negative or 0.".to_string()));
    assert_eq!(refusal(check_unban_request(&UnbanRequestSchema { user_id: 12 })), None);
    assert_eq!(
        refusal(check_whitelist_request(&WhitelistRequestSchema { asset_id: 5, user_id: 0 })),
        Some("userId cannot be negative or 0.".to_string())
    );
    assert_eq!(refusal(check_whitelist_request(&WhitelistRequestSchema { asset_id: 0, user_id: 1 })), None);
}

#[test]
fn defaults() {
    assert_eq!(default_user_id(), 1);
    assert_eq!(default_user_id_u64(), 1);
    assert_eq!(default_moderator(), "cutymeo");
    assert_eq!(default_reason(), "Misbehave moment");
    assert_eq!(default_error(), "your request is sussy");
    assert_eq!(default_share_id(), "abcdef");
    assert_eq!(default_script(), "Model.Abc.Def");
    assert_eq!(default_line_col(), 1);
    assert_eq!(default_malicious_reason(), "Used forbidden function");
    assert!(!default_malicious_result());
}

#[test]
fn tag_titles() {
    assert_eq!(ApiTags::MapTestOperation.title(), "Map Test Operation");
    assert_eq!(ApiTags::MapTestMapHub.title(), "Map Test - Map Hub");
    assert_eq!(ApiTags::MapTestIdSystem.title(), "Map Test - ID System");
    assert_eq!(ApiTags::Moderation.title(), "Ingame Moderation");
}

#[test]
fn scan_result_body() {
    let report = ScanReport {
        is_malicious: true,
        findings: vec![
            Finding { script_location: "Main.Loader".to_string(), line: 2, column: 7, rule: Rule::NumericRequire(77) },
            Finding { script_location: "Main.X".to_string(), line: 1, column: 1, rule: Rule::GlobalEnvRead },
        ],
    };
    let body = ScanMapResult::from_report(&report);
    assert!(body.is_malicious);
    assert_eq!(body.scripts.len(), 2);
    assert_eq!(body.scripts[0].script, "Main.Loader");
    assert_eq!((body.scripts[0].line, body.scripts[0].column), (2, 7));
    assert_eq!(
        body.scripts[0].reason,
        "Detected requiring by id (77). This is used to download malicious scripts, thus is not allowed."
    );
    assert_eq!(body.scripts[1].script, "Main.X");
    let empty = ScanMapResult::from_report(&ScanReport { is_malicious: false, findings: vec![] });
    assert!(!empty.is_malicious);
    assert!(empty.scripts.is_empty());
}

fn message(client: &str, action: &str) -> WebsocketIoStruct {
    WebsocketIoStruct { client: client.to_string(), action: action.to_string(), bgm: None, start_time: Some(3) }
}

#[test]
fn io_queue_hands_out_other_clients_messages() {
    let mut q = vec![message("alice", "a1"), message("bob", "b1"), message("alice", "a2"), message("carol", "c1")];
    let first = take_next_for(&mut q, &"alice".to_string()).unwrap();
    assert_eq!(first.action, "b1");
    let rest: Vec<&str> = q.iter().map(|m| m.action.as_str()).collect();
    assert_eq!(rest, vec!["a1", "a2", "c1"]);
    let second = take_next_for(&mut q, &"alice".to_string()).unwrap();
    assert_eq!(second.action, "c1");
    assert!(take_next_for(&mut q, &"alice".to_string()).is_none());
    assert_eq!(q.len(), 2);
    assert_eq!(take_next_for(&mut q, &"bob".to_string()).unwrap().action, "a1");
}

#[test]
fn generic_routes_start_empty() {
    let routes = GenericRoutes::new();
    assert!(routes.websocket_io_queue.lock().unwrap().is_empty());
}

#[test]
fn ban_query_checks_in_order() {
    let some = |s: &str| Some(s.to_string());
    assert_eq!(
        check_ban_query(None, None, &None, &None),
        Err(QueryRefusal::InvalidUser("Query `user_id` is not a number (u64).".to_string()))
    );
    assert_eq!(
        check_ban_query(Some(4), None, &None, &None),
        Err(QueryRefusal::InvalidDuration("Query `duration` is not a number (i32).".to_string()))
    );
    assert_eq!(
        check_ban_query(Some(4), Some(-7), &None, &None),
        Err(QueryRefusal::InvalidDuration("`duration` can only be positive or -1.".to_string()))
    );
    assert_eq!(
        check_ban_query(Some(4), Some(-1), &None, &some("x")),
        Err(QueryRefusal::InvalidString("Query `moderator` is not a String.".to_string()))
    );
    assert_eq!(
        check_ban_query(Some(4), Some(30), &some("mod"), &None),
        Err(QueryRefusal::InvalidString("Query `reason` is not a String.".to_string()))
    );
    assert_eq!(check_ban_query(Some(0), Some(0), &some("mod"), &some("why")), Ok(()));
}

#[test]
fn unban_and_whitelist_query_checks() {
    assert_eq!(
        check_unban_query(None),
        Err(QueryRefusal::InvalidUser("Query `user_id` is not a number (u64).".to_string()))
    );
    assert_eq!(check_unban_query(Some(9)), Ok(()));
    assert_eq!(check_whitelist_query(None, Some(1)), Err(QueryRefusal::InvalidAsset("Invalid Asset ID.".to_string())));
    assert_eq!(check_whitelist_query(Some(1), None), Err(QueryRefusal::InvalidUser("Invalid User ID.".to_string())));
    assert_eq!(check_whitelist_query(Some(1), Some(0)), Err(QueryRefusal::InvalidUser("Invalid User ID.".to_string())));
    assert_eq!(check_whitelist_query(Some(1), Some(2)), Ok(()));
}
