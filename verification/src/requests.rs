//! The paths and query parameters of the Live, Meet and OAuth requests, and what the
//! library makes of the answers it reads itself.
use vstd::prelude::*;
use crate::text::{
    bool_text, bool_to_string, decimal, i64_to_string, int_decimal, lemma_parse_decimal_round_trip, parse_u64,
    parse_u64_spec, texts, u64_to_string,
};
use crate::json::{distinct_names, json_document, lemma_member_in_distinct, member_in, parse_json, JsonDoc, JsonDocView, JsonScalar, JsonScalarView};

verus! {

/// Appends `b` to `a`.
fn cat(a: String, b: &str) -> (r: String)
    ensures
        r@ == a@ + b@,
{
    let mut a = a;
    a.append(b);
    a
}

/// The decimal text of an `i32`.
fn i32_text(i: i32) -> (r: String)
    ensures
        r@ == int_decimal(i as int),
{
    i64_to_string(i as i64)
}

/// The view of query parameters.
pub open spec fn query_view(q: Seq<(&'static str, String)>) -> Seq<(Seq<char>, Seq<char>)> {
    q.map_values(|p: (&'static str, String)| (p.0@, p.1@))
}

/// `length` and `offset` parameters.
pub open spec fn lo_params(length: u32, offset: u32) -> Seq<(Seq<char>, Seq<char>)> {
    seq![("length"@, decimal(length as nat)), ("offset"@, decimal(offset as nat))]
}

/// Returns query params for length and offset
pub fn query_lo(length: u32, offset: u32) -> (r: Vec<(&'static str, String)>)
    ensures
        query_view(r@) == lo_params(length, offset),
{
    let mut r: Vec<(&'static str, String)> = Vec::new();
    r.push(("length", u64_to_string(length as u64)));
    r.push(("offset", u64_to_string(offset as u64)));
    proof {
        assert(query_view(r@) =~= lo_params(length, offset));
    }
    r
}

/// Appends a parameter to a query.
fn push_param(q: &mut Vec<(&'static str, String)>, key: &'static str, value: String)
    ensures
        query_view(final(q)@) == query_view(old(q)@).push((key@, value@)),
{
    q.push((key, value));
    proof {
        assert(query_view(q@) =~= query_view(old(q)@).push((key@, value@)));
    }
}

/// The two kinds of monthly campaign.
#[derive(Debug, Clone, Copy, PartialEq, Eq)]
pub enum MonthlyCampaignType {
    Royal,
    TOTD,
}

/// The query of the monthly campaign request: `length`, `offset`, and `royal=true` for the
/// Royal campaign.
pub fn monthly_campaign_query(ty: MonthlyCampaignType, length: u32, offset: u32) -> (r: Vec<(&'static str, String)>)
    ensures
        query_view(r@) == (match ty {
            MonthlyCampaignType::Royal => lo_params(length, offset).push(("royal"@, "true"@)),
            MonthlyCampaignType::TOTD => lo_params(length, offset),
        }),
{
    let mut q = query_lo(length, offset);
    match ty {
        MonthlyCampaignType::Royal => push_param(&mut q, "royal", "true".to_owned()),
        MonthlyCampaignType::TOTD => {},
    }
    q
}

/// The query of a leaderboard top request: `length`, `offset` and `onlyWorld`.
pub fn map_group_leaderboard_query(only_world: bool, length: u32, offset: u32) -> (r: Vec<(&'static str, String)>)
    ensures
        query_view(r@) == lo_params(length, offset).push(("onlyWorld"@, bool_text(only_world))),
{
    let mut q = query_lo(length, offset);
    push_param(&mut q, "onlyWorld", bool_to_string(only_world));
    q
}

/// The query of a listing that can be filtered by name: `length`, `offset`, and `name` when
/// given.
pub fn named_list_query(length: u32, offset: u32, name: Option<&str>) -> (r: Vec<(&'static str, String)>)
    ensures
        query_view(r@) == (match name {
            Some(n) => lo_params(length, offset).push(("name"@, n@)),
            None => lo_params(length, offset),
        }),
{
    let mut q = query_lo(length, offset);
    match name {
        Some(n) => push_param(&mut q, "name", n.to_owned()),
        None => {},
    }
    q
}

/// The query of the club activities request: `length`, `offset`, and `active` when given.
pub fn club_activities_query(length: u32, offset: u32, active: Option<bool>) -> (r: Vec<(&'static str, String)>)
    ensures
        query_view(r@) == (match active {
            Some(a) => lo_params(length, offset).push(("active"@, bool_text(a))),
            None => lo_params(length, offset),
        }),
{
    let mut q = query_lo(length, offset);
    match active {
        Some(a) => push_param(&mut q, "active", bool_to_string(a)),
        None => {},
    }
    q
}

/// The query of a surround request: `score` and `onlyWorld`.
pub fn surround_query(score: u32, only_world: bool) -> (r: Vec<(&'static str, String)>)
    ensures
        query_view(r@) == seq![("score"@, decimal(score as nat)), ("onlyWorld"@, bool_text(only_world))],
{
    let mut q: Vec<(&'static str, String)> = Vec::new();
    push_param(&mut q, "score", u64_to_string(score as u64));
    push_param(&mut q, "onlyWorld", bool_to_string(only_world));
    proof {
        assert(query_view(q@) =~= seq![("score"@, decimal(score as nat)), ("onlyWorld"@, bool_text(only_world))]);
    }
    q
}

/// `scores[<uid>]`
pub open spec fn scores_key(uid: Seq<char>) -> Seq<char> {
    "scores["@ + uid + "]"@
}

/// The query of a positions request: `scores[<uid>]=<score>` for each map.
pub fn lb_positions_query(uid_scores: &Vec<(String, u32)>) -> (r: Vec<(String, String)>)
    ensures
        r@.len() == uid_scores@.len(),
        forall|i: int| 0 <= i < r@.len() ==> #[trigger] r@[i].0@ == scores_key(uid_scores@[i].0@)
            && r@[i].1@ == decimal(uid_scores@[i].1 as nat),
{
    let mut r: Vec<(String, String)> = Vec::new();
    let mut i: usize = 0;
    while i < uid_scores.len()
        invariant
            i <= uid_scores@.len(),
            r@.len() == i,
            forall|j: int| 0 <= j < i ==> #[trigger] r@[j].0@ == scores_key(uid_scores@[j].0@)
                && r@[j].1@ == decimal(uid_scores@[j].1 as nat),
        decreases uid_scores@.len() - i,
    {
        let key = cat(cat("scores[".to_owned(), uid_scores[i].0.as_str()), "]");
        r.push((key, u64_to_string(uid_scores[i].1 as u64)));
        i = i + 1;
    }
    r
}

/// The entries of the `maps` list in the body of a leaderboard-positions request: for each
/// map uid, in the order given, its pair (map uid, group uid), sent as
/// `{"mapUid": .., "groupUid": ..}`.
pub fn lb_positions_body_maps(uid_scores: &Vec<(String, u32)>, group_uid: &str) -> (r: Vec<(String, String)>)
    ensures
        r@.len() == uid_scores@.len(),
        forall|i: int| 0 <= i < r@.len() ==> #[trigger] r@[i].0@ == uid_scores@[i].0@ && r@[i].1@ == group_uid@,
{
    let mut r: Vec<(String, String)> = Vec::new();
    let mut i: usize = 0;
    while i < uid_scores.len()
        invariant
            i <= uid_scores@.len(),
            r@.len() == i,
            forall|j: int| 0 <= j < i ==> #[trigger] r@[j].0@ == uid_scores@[j].0@ && r@[j].1@ == group_uid@,
        decreases uid_scores@.len() - i,
    {
        r.push((uid_scores[i].0.clone(), group_uid.to_owned()));
        i = i + 1;
    }
    r
}

/// The fields of a club activity edit: `public` with its value when one is given, then
/// `active` likewise; none when neither is.
pub open spec fn activity_edit_fields(public: Option<bool>, active: Option<bool>) -> Seq<(Seq<char>, bool)> {
    let p = match public {
        Some(b) => seq![("public"@, b)],
        None => Seq::empty(),
    };
    let a = match active {
        Some(b) => seq![("active"@, b)],
        None => Seq::empty(),
    };
    p + a
}

/// The fields of the body of a club activity edit, in order, each by its name and value.
pub fn club_activity_edit_fields(public: Option<bool>, active: Option<bool>) -> (r: Vec<(&'static str, bool)>)
    ensures
        r@.map_values(|f: (&'static str, bool)| (f.0@, f.1)) == activity_edit_fields(public, active),
{
    let mut r: Vec<(&'static str, bool)> = Vec::new();
    if let Some(b) = public {
        r.push(("public", b));
    }
    if let Some(b) = active {
        r.push(("active", b));
    }
    proof {
        assert(r@.map_values(|f: (&'static str, bool)| (f.0@, f.1)) =~= activity_edit_fields(public, active));
    }
    r
}

/// The Live service endpoints that the client calls, with what their paths hold.
#[derive(Debug, Clone)]
pub enum LiveEndpoint {
    /// `api/token/campaign/month`
    MonthlyCampaign,
    /// `api/token/leaderboard/group/{group_uid}/map/{map_uid}/top`
    MapGroupLeaderboard { group_uid: String, map_uid: String },
    /// `api/token/leaderboard/group/map`
    LbPositionsByTime,
    /// `api/token/leaderboard/group/{group_uid}/map/{map_uid}/surround/{lower}/{upper}`
    GroupSurround { group_uid: String, map_uid: String, lower: i32, upper: i32 },
    /// `api/token/map/{map_uid}`
    MapInfo { map_uid: String },
    /// `api/token/club/{club_id}`
    ClubInfo { club_id: i32 },
    /// `api/token/club/{club_id}/campaign/{campaign_id}`
    ClubCampaignById { club_id: i32, campaign_id: i32 },
    /// `api/token/club/campaign`
    ClubCampaigns,
    /// `api/token/club/room`
    ClubRooms,
    /// `api/token/club/{club_id}/room/{room_id}`
    ClubRoomById { club_id: i32, room_id: i32 },
    /// `api/token/club/{club_id}/room/{room_id}/edit`
    EditClubRoom { club_id: i32, room_id: i32 },
    /// `api/token/club/{club_id}/room/create`
    CreateClubRoom { club_id: i32 },
    /// `api/token/club/{club_id}/activity`
    ClubActivities { club_id: i32 },
    /// `api/token/club/{club_id}/activity/{activity_id}/edit`
    EditClubActivity { club_id: i32, activity_id: i32 },
    /// `api/token/club`
    Clubs,
    /// `api/token/club/mine`
    ClubsMine,
    /// `api/token/club/{club_id}/member/create`
    BecomeClubMember { club_id: i32 },
    /// `api/token/club/{club_id}/member/{member_wsid}`
    ClubMember { club_id: i32, member_wsid: String },
    /// `api/token/club/{club_id}/member/{member_wsid}/delete`
    LeaveClub { club_id: i32, member_wsid: String },
}

/// `api/token/club/{club_id}`
pub open spec fn club_path(club_id: i32) -> Seq<char> {
    "api/token/club/"@ + int_decimal(club_id as int)
}

/// `api/token/leaderboard/group/{group_uid}/map/{map_uid}`
pub open spec fn group_map_path(group_uid: Seq<char>, map_uid: Seq<char>) -> Seq<char> {
    "api/token/leaderboard/group/"@ + group_uid + "/map/"@ + map_uid
}

/// The path of an endpoint, relative to the Live service's base URL.
pub open spec fn live_path(e: LiveEndpoint) -> Seq<char> {
    match e {
        LiveEndpoint::MonthlyCampaign => "api/token/campaign/month"@,
        LiveEndpoint::MapGroupLeaderboard { group_uid, map_uid } =>
            group_map_path(group_uid@, map_uid@) + "/top"@,
        LiveEndpoint::LbPositionsByTime => "api/token/leaderboard/group/map"@,
        LiveEndpoint::GroupSurround { group_uid, map_uid, lower, upper } =>
            group_map_path(group_uid@, map_uid@) + "/surround/"@ + int_decimal(lower as int) + "/"@
                + int_decimal(upper as int),
        LiveEndpoint::MapInfo { map_uid } => "api/token/map/"@ + map_uid@,
        LiveEndpoint::ClubInfo { club_id } => club_path(club_id),
        LiveEndpoint::ClubCampaignById { club_id, campaign_id } =>
            club_path(club_id) + "/campaign/"@ + int_decimal(campaign_id as int),
        LiveEndpoint::ClubCampaigns => "api/token/club/campaign"@,
        LiveEndpoint::ClubRooms => "api/token/club/room"@,
        LiveEndpoint::ClubRoomById { club_id, room_id } =>
            club_path(club_id) + "/room/"@ + int_decimal(room_id as int),
        LiveEndpoint::EditClubRoom { club_id, room_id } =>
            club_path(club_id) + "/room/"@ + int_decimal(room_id as int) + "/edit"@,
        LiveEndpoint::CreateClubRoom { club_id } => club_path(club_id) + "/room/create"@,
        LiveEndpoint::ClubActivities { club_id } => club_path(club_id) + "/activity"@,
        LiveEndpoint::EditClubActivity { club_id, activity_id } =>
            club_path(club_id) + "/activity/"@ + int_decimal(activity_id as int) + "/edit"@,
        LiveEndpoint::Clubs => "api/token/club"@,
        LiveEndpoint::ClubsMine => "api/token/club/mine"@,
        LiveEndpoint::BecomeClubMember { club_id } => club_path(club_id) + "/member/create"@,
        LiveEndpoint::ClubMember { club_id, member_wsid } =>
            club_path(club_id) + "/member/"@ + member_wsid@,
        LiveEndpoint::LeaveClub { club_id, member_wsid } =>
            club_path(club_id) + "/member/"@ + member_wsid@ + "/delete"@,
    }
}

/// `api/token/club/{club_id}`
fn club_path_text(club_id: i32) -> (r: String)
    ensures
        r@ == club_path(club_id),
{
    let id = i32_text(club_id);
    cat("api/token/club/".to_owned(), id.as_str())
}

/// `api/token/leaderboard/group/{group_uid}/map/{map_uid}`
fn group_map_path_text(group_uid: &String, map_uid: &String) -> (r: String)
    ensures
        r@ == group_map_path(group_uid@, map_uid@),
{
    let p = cat("api/token/leaderboard/group/".to_owned(), group_uid.as_str());
    cat(cat(p, "/map/"), map_uid.as_str())
}

/// `{prefix}{text of id}{suffix}`
fn with_id(prefix: String, id: i32, suffix: &str) -> (r: String)
    ensures
        r@ == prefix@ + int_decimal(id as int) + suffix@,
{
    let t = i32_text(id);
    cat(cat(prefix, t.as_str()), suffix)
}

/// The path of a club's info names the whole club id: it is `api/token/club/` followed by the
/// decimal text of the id, which parses back to the id (after a minus sign for a negative
/// id), for every club id.
pub proof fn lemma_club_path_names_club(club_id: i32)
    ensures
        ({
            let p = live_path(LiveEndpoint::ClubInfo { club_id });
            &&& p.len() > 15
            &&& p.take(15) == "api/token/club/"@
            &&& club_id >= 0 ==> parse_u64_spec(p.skip(15)) == Some(club_id as u64)
            &&& club_id < 0 ==> p[15] == '-' && parse_u64_spec(p.skip(16)) == Some((-club_id) as u64)
        }),
{
    reveal_strlit("api/token/club/");
    let pre = "api/token/club/"@;
    assert(pre.len() == 15);
    let p = live_path(LiveEndpoint::ClubInfo { club_id });
    if club_id >= 0 {
        let n = club_id as u64;
        lemma_parse_decimal_round_trip(n);
        assert(p =~= pre + decimal(n as nat));
        assert(p.skip(15) =~= decimal(n as nat));
        assert(p.take(15) =~= pre);
        assert(decimal(n as nat).len() > 0);
    } else {
        let n = (-club_id) as u64;
        lemma_parse_decimal_round_trip(n);
        assert(p =~= pre + (seq!['-'] + decimal(n as nat)));
        assert(p.skip(16) =~= decimal(n as nat));
        assert(p.take(15) =~= pre);
    }
}

/// Every path under a club is the club's path followed by what names the resource, so each
/// names the whole club id as the club's own path does.
pub proof fn lemma_club_paths_extend_club(club_id: i32, other: i32, member_wsid: String)
    ensures
        ({
            let c = live_path(LiveEndpoint::ClubInfo { club_id });
            &&& live_path(LiveEndpoint::ClubCampaignById { club_id, campaign_id: other }) == c + "/campaign/"@
                + int_decimal(other as int)
            &&& live_path(LiveEndpoint::ClubRoomById { club_id, room_id: other }) == c + "/room/"@ + int_decimal(
                other as int,
            )
            &&& live_path(LiveEndpoint::EditClubRoom { club_id, room_id: other }) == c + "/room/"@ + int_decimal(
                other as int,
            ) + "/edit"@
            &&& live_path(LiveEndpoint::CreateClubRoom { club_id }) == c + "/room/create"@
            &&& live_path(LiveEndpoint::ClubActivities { club_id }) == c + "/activity"@
            &&& live_path(LiveEndpoint::EditClubActivity { club_id, activity_id: other }) == c + "/activity/"@
                + int_decimal(other as int) + "/edit"@
            &&& live_path(LiveEndpoint::BecomeClubMember { club_id }) == c + "/member/create"@
            &&& live_path(LiveEndpoint::ClubMember { club_id, member_wsid }) == c + "/member/"@ + member_wsid@
            &&& live_path(LiveEndpoint::LeaveClub { club_id, member_wsid }) == c + "/member/"@ + member_wsid@
                + "/delete"@
        }),
{
}

impl LiveEndpoint {
    /// The path of the endpoint, relative to the Live service's base URL.
    pub fn path(&self) -> (r: String)
        ensures
            r@ == live_path(*self),
    {
        proof {
            reveal_strlit("");
            assert(""@ =~= Seq::<char>::empty());
        }
        match self {
            LiveEndpoint::MonthlyCampaign => "api/token/campaign/month".to_owned(),
            LiveEndpoint::MapGroupLeaderboard { group_uid, map_uid } =>
                cat(group_map_path_text(group_uid, map_uid), "/top"),
            LiveEndpoint::LbPositionsByTime => "api/token/leaderboard/group/map".to_owned(),
            LiveEndpoint::GroupSurround { group_uid, map_uid, lower, upper } => {
                let p = with_id(cat(group_map_path_text(group_uid, map_uid), "/surround/"), *lower, "/");
                with_id(p, *upper, "")
            },
            LiveEndpoint::MapInfo { map_uid } => cat("api/token/map/".to_owned(), map_uid.as_str()),
            LiveEndpoint::ClubInfo { club_id } => club_path_text(*club_id),
            LiveEndpoint::ClubCampaignById { club_id, campaign_id } =>
                with_id(cat(club_path_text(*club_id), "/campaign/"), *campaign_id, ""),
            LiveEndpoint::ClubCampaigns => "api/token/club/campaign".to_owned(),
            LiveEndpoint::ClubRooms => "api/token/club/room".to_owned(),
            LiveEndpoint::ClubRoomById { club_id, room_id } =>
                with_id(cat(club_path_text(*club_id), "/room/"), *room_id, ""),
            LiveEndpoint::EditClubRoom { club_id, room_id } =>
                with_id(cat(club_path_text(*club_id), "/room/"), *room_id, "/edit"),
            LiveEndpoint::CreateClubRoom { club_id } => cat(club_path_text(*club_id), "/room/create"),
            LiveEndpoint::ClubActivities { club_id } => cat(club_path_text(*club_id), "/activity"),
            LiveEndpoint::EditClubActivity { club_id, activity_id } =>
                with_id(cat(club_path_text(*club_id), "/activity/"), *activity_id, "/edit"),
            LiveEndpoint::Clubs => "api/token/club".to_owned(),
            LiveEndpoint::ClubsMine => "api/token/club/mine".to_owned(),
            LiveEndpoint::BecomeClubMember { club_id } => cat(club_path_text(*club_id), "/member/create"),
            LiveEndpoint::ClubMember { club_id, member_wsid } =>
                cat(cat(club_path_text(*club_id), "/member/"), member_wsid.as_str()),
            LiveEndpoint::LeaveClub { club_id, member_wsid } =>
                cat(cat(cat(club_path_text(*club_id), "/member/"), member_wsid.as_str()), "/delete"),
        }
    }
}

/// The parts joined with `sep` between each two.
pub open spec fn joined(parts: Seq<Seq<char>>, sep: Seq<char>) -> Seq<char>
    decreases parts.len(),
{
    if parts.len() == 0 {
        Seq::empty()
    } else if parts.len() == 1 {
        parts[0]
    } else {
        joined(parts.drop_last(), sep) + sep + parts.last()
    }
}

/// Joins the strings with `sep` between each two, as `join` does.
pub fn join_strings(parts: &Vec<String>, sep: &str) -> (r: String)
    ensures
        r@ == joined(texts(parts@), sep@),
{
    let mut r = String::new();
    let mut i: usize = 0;
    proof {
        assert(texts(parts@).take(0) =~= Seq::<Seq<char>>::empty());
    }
    while i < parts.len()
        invariant
            i <= parts@.len(),
            r@ == joined(texts(parts@).take(i as int), sep@),
        decreases parts@.len() - i,
    {
        let ghost before = texts(parts@).take(i as int);
        let ghost after = texts(parts@).take(i + 1);
        proof {
            assert(after.drop_last() =~= before);
            assert(after.last() == parts@[i as int]@);
        }
        if i > 0 {
            r.append(sep);
        }
        r.append(parts[i].as_str());
        proof {
            if i == 0 {
                assert(before =~= Seq::<Seq<char>>::empty());
                assert(r@ =~= after[0]);
            }
        }
        i = i + 1;
    }
    proof {
        assert(texts(parts@).take(parts@.len() as int) =~= texts(parts@));
    }
    r
}

/// The path of the request for several maps' information, relative to the Live service's
/// base URL: their uids joined by commas. More than a hundred uids are refused.
pub fn map_info_multiple_path(map_uids: &Vec<String>) -> (r: Result<String, String>)
    ensures
        map_uids@.len() > 100 ==> (r matches Err(e) && e@ == "map_uids length must be <= 100"@),
        map_uids@.len() <= 100 ==> (r matches Ok(p) && p@ == "api/token/map/get-multiple?mapUidList="@
            + joined(texts(map_uids@), ","@)),
{
    if map_uids.len() > 100 {
        return Err("map_uids length must be <= 100".to_owned());
    }
    let uids = join_strings(map_uids, ",");
    Ok(cat("api/token/map/get-multiple?mapUidList=".to_owned(), uids.as_str()))
}

/// The most account ids that one display-name request takes.
pub const MAX_DISPLAY_NAME_IDS: usize = 50;

/// The path of the display-name request for the given account ids, relative to the OAuth
/// service's base URL; `None` when there is no id to ask for, an error for too many.
pub fn display_names_path(account_ids: &Vec<String>) -> (r: Result<Option<String>, String>)
    ensures
        account_ids@.len() == 0 ==> r matches Ok(None),
        account_ids@.len() > MAX_DISPLAY_NAME_IDS ==> (r matches Err(e) && e@ == "Too many account ids (max 50)"@),
        0 < account_ids@.len() <= MAX_DISPLAY_NAME_IDS ==> (r matches Ok(Some(p)) && p@ == "display-names?accountId[]="@
            + joined(texts(account_ids@), "&accountId[]="@)),
{
    if account_ids.len() == 0 {
        return Ok(None);
    }
    if account_ids.len() > MAX_DISPLAY_NAME_IDS {
        return Err("Too many account ids (max 50)".to_owned());
    }
    let ids = join_strings(account_ids, "&accountId[]=");
    Ok(Some(cat("display-names?accountId[]=".to_owned(), ids.as_str())))
}

/// Whether some member is named `k`.
pub open spec fn has_key(m: Seq<(Seq<char>, JsonScalarView)>, k: Seq<char>) -> bool {
    exists|i: int| 0 <= i < m.len() && #[trigger] m[i].0 == k
}

/// Whether some pair has the key `k`.
pub open spec fn pair_key_in(r: Seq<(Seq<char>, Seq<char>)>, k: Seq<char>) -> bool {
    exists|i: int| 0 <= i < r.len() && #[trigger] r[i].0 == k
}

/// The display name that an answer gives for an account: the member's string value, the
/// account id itself when the member is not a string, or the empty string when there is no
/// member for it.
pub open spec fn display_name_value(m: Seq<(Seq<char>, JsonScalarView)>, k: Seq<char>) -> Seq<char> {
    if has_key(m, k) {
        match member_in(m, k) {
            JsonScalarView::Str(s) => s,
            _ => k,
        }
    } else {
        Seq::empty()
    }
}

/// Whether `r`, read as a map, maps each member name and each asked id to its display name,
/// and nothing else.
pub open spec fn display_names_are(
    r: Seq<(Seq<char>, Seq<char>)>,
    m: Seq<(Seq<char>, JsonScalarView)>,
    ids: Seq<Seq<char>>,
) -> bool {
    &&& forall|i: int, j: int| 0 <= i < j < r.len() ==> r[i].0 != r[j].0
    &&& forall|k: Seq<char>| pair_key_in(r, k) <==> (has_key(m, k) || ids.contains(k))
    &&& forall|i: int| 0 <= i < r.len() ==> #[trigger] r[i].1 == display_name_value(m, r[i].0)
}

/// The view of a list of pairs of strings.
pub open spec fn pairs_view(r: Seq<(String, String)>) -> Seq<(Seq<char>, Seq<char>)> {
    r.map_values(|p: (String, String)| (p.0@, p.1@))
}

/// What the display-name service's answer, read as JSON, gives for the asked ids: an empty
/// array means no names; an object maps ids to names; anything else is refused.
pub open spec fn display_names_answer(doc: JsonDocView, ids: Seq<Seq<char>>, r: Result<Seq<(Seq<char>, Seq<char>)>, Seq<char>>) -> bool {
    match doc {
        JsonDocView::Invalid(e) => r == Err::<Seq<(Seq<char>, Seq<char>)>, Seq<char>>(e),
        JsonDocView::Array(n, _, d) => if n == 0 {
            r matches Ok(v) && display_names_are(v, Seq::empty(), ids)
        } else {
            r == Err::<Seq<(Seq<char>, Seq<char>)>, Seq<char>>("Not a json obj: "@ + d)
        },
        JsonDocView::Scalar(_, d) => r == Err::<Seq<(Seq<char>, Seq<char>)>, Seq<char>>("Not a json obj: "@ + d),
        JsonDocView::Object(m, _) => r matches Ok(v) && display_names_are(v, m, ids),
    }
}

/// Whether a list of pairs has the key `k`.
fn has_pair_key(r: &Vec<(String, String)>, k: &String) -> (b: bool)
    ensures
        b == pair_key_in(pairs_view(r@), k@),
{
    let mut i: usize = 0;
    while i < r.len()
        invariant
            i <= r@.len(),
            forall|j: int| 0 <= j < i ==> #[trigger] pairs_view(r@)[j].0 != k@,
        decreases r@.len() - i,
    {
        if r[i].0 == *k {
            proof {
                assert(pairs_view(r@)[i as int].0 == k@);
            }
            return true;
        }
        i = i + 1;
    }
    false
}

/// Adds, for each id that has no pair yet, the id with an empty name.
fn fill_missing_ids(
    r: &mut Vec<(String, String)>,
    ids: &Vec<String>,
    Ghost(m): Ghost<Seq<(Seq<char>, JsonScalarView)>>,
)
    requires
        forall|i: int, j: int| 0 <= i < j < old(r)@.len() ==> pairs_view(old(r)@)[i].0 != pairs_view(old(r)@)[j].0,
        forall|k: Seq<char>| pair_key_in(pairs_view(old(r)@), k) <==> has_key(m, k),
        forall|i: int| 0 <= i < old(r)@.len() ==> #[trigger] pairs_view(old(r)@)[i].1 == display_name_value(m, pairs_view(old(r)@)[i].0),
    ensures
        display_names_are(pairs_view(final(r)@), m, texts(ids@)),
{
    let mut t: usize = 0;
    while t < ids.len()
        invariant
            t <= ids@.len(),
            forall|i: int, j: int| 0 <= i < j < r@.len() ==> pairs_view(r@)[i].0 != pairs_view(r@)[j].0,
            forall|k: Seq<char>| pair_key_in(pairs_view(r@), k) <==> (has_key(m, k) || texts(ids@).take(t as int).contains(k)),
            forall|i: int| 0 <= i < r@.len() ==> #[trigger] pairs_view(r@)[i].1 == display_name_value(m, pairs_view(r@)[i].0),
        decreases ids@.len() - t,
    {
        let ghost before = pairs_view(r@);
        let ghost ts = texts(ids@);
        let ghost t0 = ts.take(t as int);
        let ghost t1 = ts.take(t + 1);
        proof {
            assert forall|k: Seq<char>| t1.contains(k) <==> (t0.contains(k) || k == ts[t as int]) by {
                if t1.contains(k) {
                    let w = choose|w: int| 0 <= w < t1.len() && t1[w] == k;
                    if w < t {
                        assert(t0[w] == k);
                    }
                }
                if t0.contains(k) {
                    let w = choose|w: int| 0 <= w < t0.len() && t0[w] == k;
                    assert(t1[w] == k);
                }
                if k == ts[t as int] {
                    assert(t1[t as int] == k);
                }
            }
        }
        if !has_pair_key(r, &ids[t]) {
            let id = ids[t].clone();
            r.push((id, String::new()));
            proof {
                let after = pairs_view(r@);
                assert(after =~= before.push((ts[t as int], Seq::<char>::empty())));
                assert(!has_key(m, ts[t as int]));
                assert forall|k: Seq<char>| pair_key_in(after, k) <==> (pair_key_in(before, k) || k == ts[t as int]) by {
                    if pair_key_in(after, k) {
                        let w = choose|w: int| 0 <= w < after.len() && after[w].0 == k;
                        if w < before.len() {
                            assert(before[w].0 == k);
                        }
                    }
                    if pair_key_in(before, k) {
                        let w = choose|w: int| 0 <= w < before.len() && before[w].0 == k;
                        assert(after[w].0 == k);
                    }
                    if k == ts[t as int] {
                        assert(after[before.len() as int].0 == k);
                    }
                }
                assert forall|i: int| 0 <= i < after.len() implies #[trigger] after[i].1 == display_name_value(m, after[i].0) by {
                    if i < before.len() {
                        assert(after[i] == before[i]);
                    }
                }
                assert forall|i: int, j: int| 0 <= i < j < after.len() implies after[i].0 != after[j].0 by {
                    if j == before.len() {
                        assert(after[i] == before[i]);
                        if before[i].0 == ts[t as int] {
                            assert(pair_key_in(before, ts[t as int]));
                        }
                    } else {
                        assert(after[i] == before[i] && after[j] == before[j]);
                    }
                }
                assert forall|k: Seq<char>| pair_key_in(after, k) <==> (has_key(m, k) || t1.contains(k)) by {
                    assert(pair_key_in(before, k) <==> (has_key(m, k) || t0.contains(k)));
                }
            }
        } else {
            proof {
                assert(pairs_view(r@) == before);
                assert(pair_key_in(before, ts[t as int]));
                assert forall|k: Seq<char>| pair_key_in(before, k) <==> (has_key(m, k) || t1.contains(k)) by {
                    assert(pair_key_in(before, k) <==> (has_key(m, k) || t0.contains(k)));
                }
            }
        }
        t = t + 1;
    }
    proof {
        let pv = pairs_view(r@);
        assert(texts(ids@).take(ids@.len() as int) =~= texts(ids@));
        assert forall|k: Seq<char>| pair_key_in(pv, k) <==> (has_key(m, k) || texts(ids@).contains(k)) by {
            assert(pair_key_in(pv, k) <==> (has_key(m, k) || texts(ids@).take(ids@.len() as int).contains(k)));
        }
    }
}

/// The name an answer gives for an account when its member holds `v`.
fn display_name_of(k: &String, v: &JsonScalar) -> (r: String)
    ensures
        r@ == (match v@ {
            JsonScalarView::Str(s) => s,
            _ => k@,
        }),
{
    match v {
        JsonScalar::Str(s) => s.clone(),
        _ => k.clone(),
    }
}

/// Reads the display-name service's answer for the asked ids: each id and its name. An empty
/// array gives every id an empty name; an object maps its member names to their string values
/// (or to themselves), and ids it does not name to the empty string.
pub fn display_names_from_answer(account_ids: &Vec<String>, body: &JsonDoc) -> (r: Result<Vec<(String, String)>, String>)
    requires
        body@ matches JsonDocView::Object(m, _) ==> distinct_names(m),
    ensures
        display_names_answer(body@, texts(account_ids@), match r {
            Ok(v) => Ok::<Seq<(Seq<char>, Seq<char>)>, Seq<char>>(pairs_view(v@)),
            Err(e) => Err::<Seq<(Seq<char>, Seq<char>)>, Seq<char>>(e@),
        }),
{
    match body {
        JsonDoc::Invalid(e) => Err(e.clone()),
        JsonDoc::Array(n, _, d) => {
            if *n == 0 {
                let mut r: Vec<(String, String)> = Vec::new();
                proof {
                    assert(pairs_view(r@) =~= Seq::<(Seq<char>, Seq<char>)>::empty());
                }
                fill_missing_ids(&mut r, account_ids, Ghost(Seq::empty()));
                Ok(r)
            } else {
                Err(cat("Not a json obj: ".to_owned(), d.as_str()))
            }
        },
        JsonDoc::Scalar(_, d) => Err(cat("Not a json obj: ".to_owned(), d.as_str())),
        JsonDoc::Object(members, _) => {
            let ghost m = members@.map_values(|e: (String, JsonScalar)| (e.0@, e.1@));
            let mut r: Vec<(String, String)> = Vec::new();
            let mut i: usize = 0;
            while i < members.len()
                invariant
                    i <= members@.len(),
                    m == members@.map_values(|e: (String, JsonScalar)| (e.0@, e.1@)),
                    distinct_names(m),
                    r@.len() == i,
                    forall|j: int| 0 <= j < i ==> #[trigger] pairs_view(r@)[j] == (m[j].0, match m[j].1 {
                        JsonScalarView::Str(s) => s,
                        _ => m[j].0,
                    }),
                decreases members@.len() - i,
            {
                let name = display_name_of(&members[i].0, &members[i].1);
                let ghost prev = pairs_view(r@);
                r.push((members[i].0.clone(), name));
                proof {
                    assert(pairs_view(r@) =~= prev.push(pairs_view(r@)[i as int]));
                    assert(pairs_view(r@)[i as int] == (m[i as int].0, match m[i as int].1 {
                        JsonScalarView::Str(s) => s,
                        _ => m[i as int].0,
                    }));
                }
                i = i + 1;
            }
            proof {
                let pv = pairs_view(r@);
                assert forall|a: int, b: int| 0 <= a < b < pv.len() implies pv[a].0 != pv[b].0 by {
                    assert(pv[a].0 == m[a].0 && pv[b].0 == m[b].0);
                }
                assert forall|k: Seq<char>| pair_key_in(pv, k) <==> has_key(m, k) by {
                    if pair_key_in(pv, k) {
                        let w = choose|w: int| 0 <= w < pv.len() && pv[w].0 == k;
                        assert(m[w].0 == k);
                    }
                    if has_key(m, k) {
                        let w = choose|w: int| 0 <= w < m.len() && m[w].0 == k;
                        assert(pv[w].0 == k);
                    }
                }
                assert forall|a: int| 0 <= a < pv.len() implies #[trigger] pv[a].1 == display_name_value(m, pv[a].0) by {
                    lemma_member_in_distinct(m, a);
                    assert(has_key(m, m[a].0));
                }
            }
            fill_missing_ids(&mut r, account_ids, Ghost(m));
            Ok(r)
        },
    }
}

/// An object answer names each account it has a member for by that member's whole string
/// value, or by the account id when the value is not a string; an asked account it has no
/// member for gets the empty name; and every member and every asked id gets a pair.
pub proof fn lemma_display_names_from_members(
    m: Seq<(Seq<char>, JsonScalarView)>,
    text: Seq<char>,
    ids: Seq<Seq<char>>,
    v: Seq<(Seq<char>, Seq<char>)>,
)
    requires
        distinct_names(m),
        display_names_answer(JsonDocView::Object(m, text), ids, Ok(v)),
    ensures
        forall|i: int, j: int|
            0 <= i < m.len() && 0 <= j < v.len() && #[trigger] v[j].0 == #[trigger] m[i].0 ==> v[j].1 == (
            match m[i].1 {
                JsonScalarView::Str(s) => s,
                _ => m[i].0,
            }),
        forall|i: int| 0 <= i < m.len() ==> exists|j: int| 0 <= j < v.len() && v[j].0 == #[trigger] m[i].0,
        forall|k: Seq<char>| #[trigger] ids.contains(k) ==> exists|j: int| 0 <= j < v.len() && v[j].0 == k,
        forall|j: int|
            0 <= j < v.len() && (forall|i: int| 0 <= i < m.len() ==> m[i].0 != v[j].0) ==> #[trigger] v[j].1
                == Seq::<char>::empty(),
{
    assert forall|i: int, j: int|
        0 <= i < m.len() && 0 <= j < v.len() && #[trigger] v[j].0 == #[trigger] m[i].0 implies v[j].1 == (
        match m[i].1 {
            JsonScalarView::Str(s) => s,
            _ => m[i].0,
        }) by {
        lemma_member_in_distinct(m, i);
        assert(has_key(m, m[i].0));
    }
    assert forall|i: int| 0 <= i < m.len() implies exists|j: int| 0 <= j < v.len() && v[j].0 == #[trigger] m[i].0 by {
        assert(has_key(m, m[i].0));
        assert(pair_key_in(v, m[i].0));
    }
    assert forall|k: Seq<char>| #[trigger] ids.contains(k) implies exists|j: int| 0 <= j < v.len() && v[j].0 == k by {
        assert(pair_key_in(v, k));
    }
    assert forall|j: int|
        0 <= j < v.len() && (forall|i: int| 0 <= i < m.len() ==> m[i].0 != v[j].0) implies #[trigger] v[j].1
            == Seq::<char>::empty() by {
        if has_key(m, v[j].0) {
            let i = choose|i: int| 0 <= i < m.len() && #[trigger] m[i].0 == v[j].0;
        }
    }
}

/// Reads the body of the display-name service's answer for the asked ids, as
/// `display_names_from_answer` reads it once parsed.
pub fn display_names_from_body(account_ids: &Vec<String>, body: &[u8]) -> (r: Result<Vec<(String, String)>, String>)
    ensures
        display_names_answer(json_document(body@), texts(account_ids@), match r {
            Ok(v) => Ok::<Seq<(Seq<char>, Seq<char>)>, Seq<char>>(pairs_view(v@)),
            Err(e) => Err::<Seq<(Seq<char>, Seq<char>)>, Seq<char>>(e@),
        }),
{
    let doc = parse_json(body);
    display_names_from_answer(account_ids, &doc)
}

/// The size that a `content-length` header gives: 0 without the header or when it is not
/// visible ASCII (read as "0"), 1 when it does not parse as a `u64`.
pub open spec fn file_size_spec(header: Option<Option<Seq<char>>>) -> u64 {
    match header {
        None => 0,
        Some(None) => 0,
        Some(Some(text)) => match parse_u64_spec(text) {
            Some(n) => n,
            None => 1,
        },
    }
}

/// Reads the size of a file from its `content-length` header: `None` when the answer has no
/// such header, `Some(None)` when its value is not visible ASCII.
pub fn file_size_from_header(header: Option<Option<&str>>) -> (r: u64)
    ensures
        r == file_size_spec(match header {
            None => None,
            Some(None) => Some(None),
            Some(Some(t)) => Some(Some(t@)),
        }),
{
    match header {
        None => 0,
        Some(None) => 0,
        Some(Some(text)) => match parse_u64(text) {
            Some(n) => n,
            None => 1,
        },
    }
}

} // verus!
