//! Request and response bodies of the service, their defaults, and the checks
//! that requests must pass before any work is done.
use vstd::prelude::*;
use crate::report::{Finding, ScanReport, message_text};

verus! {

pub fn default_user_id() -> (r: i64)
    ensures
        r == 1,
{
    1
}

pub fn default_user_id_u64() -> (r: u64)
    ensures
        r == 1,
{
    1
}

pub fn default_moderator() -> (r: String)
    ensures
        r@ == "cutymeo"@,
{
    "cutymeo".to_owned()
}

pub fn default_reason() -> (r: String)
    ensures
        r@ == "Misbehave moment"@,
{
    "Misbehave moment".to_owned()
}

pub fn default_error() -> (r: String)
    ensures
        r@ == "your request is sussy"@,
{
    "your request is sussy".to_owned()
}

pub fn default_share_id() -> (r: String)
    ensures
        r@ == "abcdef"@,
{
    "abcdef".to_owned()
}

pub fn default_script() -> (r: String)
    ensures
        r@ == "Model.Abc.Def"@,
{
    "Model.Abc.Def".to_owned()
}

pub fn default_line_col() -> (r: u64)
    ensures
        r == 1,
{
    1
}

pub fn default_malicious_reason() -> (r: String)
    ensures
        r@ == "Used forbidden function"@,
{
    "Used forbidden function".to_owned()
}

pub fn default_malicious_result() -> (r: bool)
    ensures
        !r,
{
    false
}

/// Body of a ban request.
#[derive(Clone, Debug, PartialEq, Eq)]
pub struct BanRequestSchema {
    pub user_id: u64,
    /// Minutes; `-1` bans without end.
    pub duration: i32,
    pub moderator: String,
    pub reason: String,
}

/// Body of an unban request.
#[derive(Clone, Debug, PartialEq, Eq)]
pub struct UnbanRequestSchema {
    pub user_id: u64,
}

/// Body of a scan request.
#[derive(Clone, Debug, PartialEq, Eq)]
pub struct ScanMapRequestSchema {
    pub asset_id: u64,
}

/// Body of a whitelist request.
#[derive(Clone, Debug, PartialEq, Eq)]
pub struct WhitelistRequestSchema {
    pub asset_id: u64,
    pub user_id: u64,
}

/// The groups that the documented operations fall into.
#[derive(PartialEq, Eq, Structural, Clone, Copy, Debug)]
pub enum ApiTags {
    MapTestOperation,
    MapTestMapHub,
    MapTestIdSystem,
    Moderation,
}

pub open spec fn tag_title(t: ApiTags) -> Seq<char> {
    match t {
        ApiTags::MapTestOperation => "Map Test Operation"@,
        ApiTags::MapTestMapHub => "Map Test - Map Hub"@,
        ApiTags::MapTestIdSystem => "Map Test - ID System"@,
        ApiTags::Moderation => "Ingame Moderation"@,
    }
}

impl ApiTags {
    /// The title under which the group is documented.
    pub fn title(&self) -> (r: &'static str)
        ensures
            r@ == tag_title(*self),
    {
        match self {
            ApiTags::MapTestOperation => "Map Test Operation",
            ApiTags::MapTestMapHub => "Map Test - Map Hub",
            ApiTags::MapTestIdSystem => "Map Test - ID System",
            ApiTags::Moderation => "Ingame Moderation",
        }
    }
}

/// An error body.
pub struct ApiError {
    pub error: String,
}

/// One entry of the ban list.
pub struct BanEntryObject {
    pub user_id: i64,
    pub banned_time: i64,
    pub banned_until: i64,
    pub moderator: String,
    pub reason: String,
}

/// The body of a successful whitelist request.
pub struct WhitelistInfo {
    pub share_id: String,
}

/// One finding as the scan response reports it.
pub struct MaliciousScriptEntry {
    pub script: String,
    pub line: u64,
    pub column: u64,
    pub reason: String,
}

/// The verdict and findings of a scan.
pub struct ScanMapResult {
    pub is_malicious: bool,
    pub scripts: Vec<MaliciousScriptEntry>,
}

/// The body of a successful scan request.
pub struct ScanMapInfo {
    pub result: ScanMapResult,
}

pub open spec fn user_id_message() -> Seq<char> {
    "userId cannot be negative or 0."@
}

pub open spec fn duration_message() -> Seq<char> {
    "duration can only be positive or -1."@
}

/// Why a ban request is refused, if it is: a zero user id, or a negative
/// duration other than `-1`.
pub open spec fn ban_refusal(user_id: u64, duration: i32) -> Option<Seq<char>> {
    if user_id == 0 {
        Some(user_id_message())
    } else if duration < 0 && duration != -1 {
        Some(duration_message())
    } else {
        None
    }
}

/// Why a request that names a user is refused, if it is: a zero user id.
pub open spec fn user_refusal(user_id: u64) -> Option<Seq<char>> {
    if user_id == 0 {
        Some(user_id_message())
    } else {
        None
    }
}

fn refusal(message: &str) -> (r: Result<(), ApiError>)
    ensures
        r matches Err(e) && e.error@ == message@,
{
    Err(ApiError { error: message.to_owned() })
}

/// Checks a ban request before the ban is recorded.
pub fn check_ban_request(body: &BanRequestSchema) -> (r: Result<(), ApiError>)
    ensures
        match ban_refusal(body.user_id, body.duration) {
            Some(m) => r matches Err(e) && e.error@ == m,
            None => r is Ok,
        },
{
    if body.user_id == 0 {
        return refusal("userId cannot be negative or 0.");
    }
    if body.duration < 0 && body.duration != -1 {
        return refusal("duration can only be positive or -1.");
    }
    Ok(())
}

/// Checks an unban request before the ban is lifted.
pub fn check_unban_request(body: &UnbanRequestSchema) -> (r: Result<(), ApiError>)
    ensures
        match user_refusal(body.user_id) {
            Some(m) => r matches Err(e) && e.error@ == m,
            None => r is Ok,
        },
{
    if body.user_id == 0 {
        return refusal("userId cannot be negative or 0.");
    }
    Ok(())
}

/// Checks a whitelist request before the asset is whitelisted.
pub fn check_whitelist_request(body: &WhitelistRequestSchema) -> (r: Result<(), ApiError>)
    ensures
        match user_refusal(body.user_id) {
            Some(m) => r matches Err(e) && e.error@ == m,
            None => r is Ok,
        },
{
    if body.user_id == 0 {
        return refusal("userId cannot be negative or 0.");
    }
    Ok(())
}

/// The response entry of a finding.
pub open spec fn entry_matches(e: MaliciousScriptEntry, f: Finding) -> bool {
    &&& e.script == f.script_location
    &&& e.line == f.line as u64
    &&& e.column == f.column as u64
    &&& e.reason@ == message_text(f.rule)
}

impl MaliciousScriptEntry {
    pub fn from_finding(f: &Finding) -> (r: Self)
        ensures
            entry_matches(r, *f),
    {
        MaliciousScriptEntry {
            script: f.script_location.clone(),
            line: f.line as u64,
            column: f.column as u64,
            reason: f.message(),
        }
    }
}

impl ScanMapResult {
    /// The response body of a report: its verdict, and one entry per finding, in order.
    pub fn from_report(report: &ScanReport) -> (r: Self)
        ensures
            r.is_malicious == report.is_malicious,
            r.scripts@.len() == report.findings@.len(),
            forall|i: int|
                0 <= i < r.scripts@.len() ==> entry_matches(
                    #[trigger] r.scripts@[i],
                    report.findings@[i],
                ),
    {
        let mut scripts: Vec<MaliciousScriptEntry> = Vec::new();
        let mut i: usize = 0;
        while i < report.findings.len()
            invariant
                i <= report.findings@.len(),
                scripts@.len() == i,
                forall|k: int|
                    0 <= k < i ==> entry_matches(#[trigger] scripts@[k], report.findings@[k]),
            decreases report.findings@.len() - i,
        {
            scripts.push(MaliciousScriptEntry::from_finding(&report.findings[i]));
            i = i + 1;
        }
        ScanMapResult { is_malicious: report.is_malicious, scripts }
    }
}

/// Why a request given as query parameters is refused, and with which response.
#[derive(PartialEq, Eq, Clone, Debug)]
pub enum QueryRefusal {
    InvalidUser(String),
    InvalidDuration(String),
    InvalidString(String),
    InvalidAsset(String),
}

pub open spec fn refusal_text(r: QueryRefusal) -> Seq<char> {
    match r {
        QueryRefusal::InvalidUser(m) => m@,
        QueryRefusal::InvalidDuration(m) => m@,
        QueryRefusal::InvalidString(m) => m@,
        QueryRefusal::InvalidAsset(m) => m@,
    }
}

/// The kind of refusal, without its text.
#[derive(PartialEq, Eq, Structural, Clone, Copy, Debug)]
pub enum RefusalKind {
    User,
    Duration,
    Text,
    Asset,
}

pub open spec fn refusal_kind(r: QueryRefusal) -> RefusalKind {
    match r {
        QueryRefusal::InvalidUser(_) => RefusalKind::User,
        QueryRefusal::InvalidDuration(_) => RefusalKind::Duration,
        QueryRefusal::InvalidString(_) => RefusalKind::Text,
        QueryRefusal::InvalidAsset(_) => RefusalKind::Asset,
    }
}

/// The first problem of a ban given as query parameters, in the order the
/// parameters are read: a missing user id, a missing or invalid duration, a
/// missing moderator, a missing reason.
pub open spec fn ban_query_refusal(
    user_id: Option<u64>,
    duration: Option<i32>,
    has_moderator: bool,
    has_reason: bool,
) -> Option<(RefusalKind, Seq<char>)> {
    if user_id is None {
        Some((RefusalKind::User, "Query `user_id` is not a number (u64)."@))
    } else if duration is None {
        Some((RefusalKind::Duration, "Query `duration` is not a number (i32)."@))
    } else if duration->0 < 0 && duration->0 != -1 {
        Some((RefusalKind::Duration, "`duration` can only be positive or -1."@))
    } else if !has_moderator {
        Some((RefusalKind::Text, "Query `moderator` is not a String."@))
    } else if !has_reason {
        Some((RefusalKind::Text, "Query `reason` is not a String."@))
    } else {
        None
    }
}

/// The first problem of a whitelist request given as query parameters: a
/// missing asset id, then a missing or zero user id.
pub open spec fn whitelist_query_refusal(asset_id: Option<u64>, user_id: Option<u64>) -> Option<
    (RefusalKind, Seq<char>),
> {
    if asset_id is None {
        Some((RefusalKind::Asset, "Invalid Asset ID."@))
    } else if user_id is None || user_id->0 == 0 {
        Some((RefusalKind::User, "Invalid User ID."@))
    } else {
        None
    }
}

pub open spec fn refused_as(r: Result<(), QueryRefusal>, expected: Option<(RefusalKind, Seq<char>)>) -> bool {
    match expected {
        Some((kind, text)) => r matches Err(e) && refusal_kind(e) == kind && refusal_text(e) == text,
        None => r is Ok,
    }
}

/// Checks a ban given as query parameters.
pub fn check_ban_query(
    user_id: Option<u64>,
    duration: Option<i32>,
    moderator: &Option<String>,
    reason: &Option<String>,
) -> (r: Result<(), QueryRefusal>)
    ensures
        refused_as(r, ban_query_refusal(user_id, duration, moderator is Some, reason is Some)),
{
    if user_id.is_none() {
        return Err(QueryRefusal::InvalidUser("Query `user_id` is not a number (u64).".to_owned()));
    }
    match duration {
        None => {
            return Err(
                QueryRefusal::InvalidDuration("Query `duration` is not a number (i32).".to_owned()),
            );
        },
        Some(d) => {
            if d < 0 && d != -1 {
                return Err(
                    QueryRefusal::InvalidDuration("`duration` can only be positive or -1.".to_owned()),
                );
            }
        },
    }
    if moderator.is_none() {
        return Err(QueryRefusal::InvalidString("Query `moderator` is not a String.".to_owned()));
    }
    if reason.is_none() {
        return Err(QueryRefusal::InvalidString("Query `reason` is not a String.".to_owned()));
    }
    Ok(())
}

/// Checks an unban given as query parameters: the user id must be present.
pub fn check_unban_query(user_id: Option<u64>) -> (r: Result<(), QueryRefusal>)
    ensures
        refused_as(
            r,
            if user_id is None {
                Some((RefusalKind::User, "Query `user_id` is not a number (u64)."@))
            } else {
                None
            },
        ),
{
    if user_id.is_none() {
        return Err(QueryRefusal::InvalidUser("Query `user_id` is not a number (u64).".to_owned()));
    }
    Ok(())
}

/// Checks a whitelist request given as query parameters.
pub fn check_whitelist_query(asset_id: Option<u64>, user_id: Option<u64>) -> (r: Result<(), QueryRefusal>)
    ensures
        refused_as(r, whitelist_query_refusal(asset_id, user_id)),
{
    if asset_id.is_none() {
        return Err(QueryRefusal::InvalidAsset("Invalid Asset ID.".to_owned()));
    }
    match user_id {
        None => Err(QueryRefusal::InvalidUser("Invalid User ID.".to_owned())),
        Some(u) => {
            if u == 0 {
                Err(QueryRefusal::InvalidUser("Invalid User ID.".to_owned()))
            } else {
                Ok(())
            }
        },
    }
}

} // verus!
