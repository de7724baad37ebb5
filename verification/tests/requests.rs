use nadeo_api::requests::{
    club_activities_query, club_activity_edit_fields, display_names_from_body, display_names_path, file_size_from_header,
    join_strings, lb_positions_body_maps, lb_positions_query, map_group_leaderboard_query, map_info_multiple_path,
    monthly_campaign_query, named_list_query, query_lo, surround_query, LiveEndpoint,
    MonthlyCampaignType,
};

fn owned(q: Vec<(&'static str, String)>) -> Vec<(String, String)> {
    q.into_iter().map(|(k, v)| (k.to_string(), v)).collect()
}

fn pairs(p: &[(&str, &str)]) -> Vec<(String, String)> {
    p.iter().map(|(k, v)| (k.to_string(), v.to_string())).collect()
}

#[test]
fn length_offset_query() {
    assert_eq!(owned(query_lo(10, 0)), pairs(&[("length", "10"), ("offset", "0")]));
    assert_eq!(owned(query_lo(u32::MAX, 7)), pairs(&[("length", "4294967295"), ("offset", "7")]));
}

#[test]
fn monthly_campaign_queries() {
    assert_eq!(
        owned(monthly_campaign_query(MonthlyCampaignType::Royal, 1, 2)),
        pairs(&[("length", "1"), ("offset", "2"), ("royal", "true")])
    );
    assert_eq!(
        owned(monthly_campaign_query(MonthlyCampaignType::TOTD, 1, 2)),
        pairs(&[("length", "1"), ("offset", "2")])
    );
}

#[test]
fn other_queries() {
    assert_eq!(
        owned(map_group_leaderboard_query(true, 5, 0)),
        pairs(&[("length", "5"), ("offset", "0"), ("onlyWorld", "true")])
    );
    assert_eq!(
        owned(named_list_query(5, 10, Some("club"))),
        pairs(&[("length", "5"), ("offset", "10"), ("name", "club")])
    );
    assert_eq!(owned(named_list_query(5, 10, None)), pairs(&[("length", "5"), ("offset", "10")]));
    assert_eq!(
        owned(club_activities_query(1, 0, Some(false))),
        pairs(&[("length", "1"), ("offset", "0"), ("active", "false")])
    );
    assert_eq!(owned(club_activities_query(1, 0, None)), pairs(&[("length", "1"), ("offset", "0")]));
    assert_eq!(owned(surround_query(60000, false)), pairs(&[("score", "60000"), ("onlyWorld", "false")]));
    assert_eq!(
        lb_positions_query(&vec![("abc".to_string(), 12u32), ("def".to_string(), 3)]),
        pairs(&[("scores[abc]", "12"), ("scores[def]", "3")])
    );
}

#[test]
fn live_paths() {
    let cases: Vec<(LiveEndpoint, &str)> = vec![
        (LiveEndpoint::MonthlyCampaign, "api/token/campaign/month"),
        (
            LiveEndpoint::MapGroupLeaderboard { group_uid: "Personal_Best".to_string(), map_uid: "M".to_string() },
            "api/token/leaderboard/group/Personal_Best/map/M/top",
        ),
        (LiveEndpoint::LbPositionsByTime, "api/token/leaderboard/group/map"),
        (
            LiveEndpoint::GroupSurround { group_uid: "G".to_string(), map_uid: "M".to_string(), lower: -1, upper: 1 },
            "api/token/leaderboard/group/G/map/M/surround/-1/1",
        ),
        (LiveEndpoint::MapInfo { map_uid: "M".to_string() }, "api/token/map/M"),
        (LiveEndpoint::ClubInfo { club_id: 42 }, "api/token/club/42"),
        (LiveEndpoint::ClubCampaignById { club_id: 1, campaign_id: 2 }, "api/token/club/1/campaign/2"),
        (LiveEndpoint::ClubCampaigns, "api/token/club/campaign"),
        (LiveEndpoint::ClubRooms, "api/token/club/room"),
        (LiveEndpoint::ClubRoomById { club_id: 1, room_id: 2 }, "api/token/club/1/room/2"),
        (LiveEndpoint::EditClubRoom { club_id: 1, room_id: 2 }, "api/token/club/1/room/2/edit"),
        (LiveEndpoint::CreateClubRoom { club_id: 1 }, "api/token/club/1/room/create"),
        (LiveEndpoint::ClubActivities { club_id: 1 }, "api/token/club/1/activity"),
        (LiveEndpoint::EditClubActivity { club_id: 1, activity_id: 9 }, "api/token/club/1/activity/9/edit"),
        (LiveEndpoint::Clubs, "api/token/club"),
        (LiveEndpoint::ClubsMine, "api/token/club/mine"),
        (LiveEndpoint::BecomeClubMember { club_id: 3 }, "api/token/club/3/member/create"),
        (LiveEndpoint::ClubMember { club_id: 3, member_wsid: "W".to_string() }, "api/token/club/3/member/W"),
        (LiveEndpoint::LeaveClub { club_id: 3, member_wsid: "W".to_string() }, "api/token/club/3/member/W/delete"),
    ];
    for (e, p) in cases {
        assert_eq!(e.path(), p);
    }
}

#[test]
fn joins() {
    let v = vec!["a".to_string(), "b".to_string(), "c".to_string()];
    assert_eq!(join_strings(&v, ","), "a,b,c");
    assert_eq!(join_strings(&vec![], ","), "");
    assert_eq!(join_strings(&vec!["x".to_string()], ","), "x");
}

#[test]
fn map_info_multiple() {
    let v = vec!["a".to_string(), "b".to_string()];
    assert_eq!(map_info_multiple_path(&v).unwrap(), "api/token/map/get-multiple?mapUidList=a,b");
    let many: Vec<String> = (0..101).map(|i| i.to_string()).collect();
    assert_eq!(map_info_multiple_path(&many).unwrap_err(), "map_uids length must be <= 100");
    assert!(map_info_multiple_path(&many[..100].to_vec()).is_ok());
}

#[test]
fn display_name_paths() {
    assert_eq!(display_names_path(&vec![]), Ok(None));
    let ids = vec!["a".to_string(), "b".to_string()];
    assert_eq!(display_names_path(&ids), Ok(Some("display-names?accountId[]=a&accountId[]=b".to_string())));
    let many: Vec<String> = (0..51).map(|i| i.to_string()).collect();
    assert_eq!(display_names_path(&many), Err("Too many account ids (max 50)".to_string()));
    assert!(display_names_path(&many[..50].to_vec()).unwrap().is_some());
}

fn sorted(mut v: Vec<(String, String)>) -> Vec<(String, String)> {
    v.sort();
    v
}

#[test]
fn display_names_answers() {
    let ids = vec!["a".to_string(), "b".to_string(), "c".to_string(), "a".to_string()];
    let obj: &[u8] = br#"{"a":"Alice","b":5}"#;
    assert_eq!(
        sorted(display_names_from_body(&ids, obj).unwrap()),
        pairs(&[("a", "Alice"), ("b", "b"), ("c", "")])
    );
    let empty: &[u8] = b"[]";
    assert_eq!(sorted(display_names_from_body(&ids, empty).unwrap()), pairs(&[("a", ""), ("b", ""), ("c", "")]));
    let arr: &[u8] = b"[1]";
    assert_eq!(display_names_from_body(&ids, arr).unwrap_err(), "Not a json obj: Array [Number(1)]");
    let s: &[u8] = br#""x""#;
    assert_eq!(display_names_from_body(&ids, s).unwrap_err(), "Not a json obj: String(\"x\")");
    let bad: &[u8] = b"{";
    assert!(display_names_from_body(&ids, bad).is_err());
    // names the answer gives for ids not asked for are kept
    let extra: &[u8] = br#"{"z":"Zed"}"#;
    assert_eq!(
        sorted(display_names_from_body(&vec!["a".to_string()], extra).unwrap()),
        pairs(&[("a", ""), ("z", "Zed")])
    );
}

#[test]
fn file_sizes() {
    assert_eq!(file_size_from_header(None), 0);
    assert_eq!(file_size_from_header(Some(None)), 0);
    assert_eq!(file_size_from_header(Some(Some("1234"))), 1234);
    assert_eq!(file_size_from_header(Some(Some("+5"))), 5);
    assert_eq!(file_size_from_header(Some(Some("12a"))), 1);
    assert_eq!(file_size_from_header(Some(Some(""))), 1);
    assert_eq!(file_size_from_header(Some(Some("18446744073709551616"))), 1);
    assert_eq!(file_size_from_header(Some(Some("18446744073709551615"))), u64::MAX);
}

#[test]
fn lb_positions_body_pairs_in_order() {
    let maps = lb_positions_body_maps(
        &vec![("abc".to_string(), 12u32), ("def".to_string(), 3), ("abc".to_string(), 5)],
        "Personal_Best",
    );
    assert_eq!(
        maps,
        pairs(&[("abc", "Personal_Best"), ("def", "Personal_Best"), ("abc", "Personal_Best")])
    );
    assert!(lb_positions_body_maps(&vec![], "g").is_empty());
}

#[test]
fn club_activity_edit_fields_by_given_values() {
    assert_eq!(club_activity_edit_fields(None, None), vec![]);
    assert_eq!(club_activity_edit_fields(Some(true), None), vec![("public", true)]);
    assert_eq!(club_activity_edit_fields(None, Some(false)), vec![("active", false)]);
    assert_eq!(
        club_activity_edit_fields(Some(false), Some(true)),
        vec![("public", false), ("active", true)]
    );
}
