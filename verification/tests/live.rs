use nadeo_api::live::{
    batch_results, batch_uid_scores, BatcherLbPosByTimeQueue, ClubMember, ClubRoom_ScriptSetting,
    RecordsByTime, RecordsByTime_Zone, RecordsByTime_ZoneRanking, ScoreToPos,
};

fn member(role: &str) -> ClubMember {
    ClubMember {
        accountId: "acc".to_string(),
        clubId: 1,
        role: role.to_string(),
        creationTimestamp: 0,
        vip: false,
        moderator: false,
        hasFeatured: false,
        pin: false,
        useTag: false,
    }
}

#[test]
fn club_member_roles() {
    let none = member("");
    assert!(!none.is_a_member() && !none.is_member() && !none.is_any_admin());
    let m = member("Member");
    assert!(m.is_a_member() && m.is_member() && !m.is_admin() && !m.is_creator());
    let a = member("Admin");
    assert!(a.is_admin() && a.is_any_admin() && !a.is_limited_admin() && !a.is_member());
    let c = member("Creator");
    assert!(c.is_creator() && c.is_any_admin() && c.is_limited_admin() && !c.is_admin());
}

#[test]
fn score_to_pos_pair() {
    let s = ScoreToPos { score: 12345, pos: Some(7) };
    assert_eq!(s.get_s_p(), (12345, Some(7)));
    assert_eq!(ScoreToPos { score: 1, pos: None }.get_s_p(), (1, None));
}

fn record(uid: &str, positions: &[i32]) -> RecordsByTime {
    RecordsByTime {
        groupUid: "Personal_Best".to_string(),
        mapUid: uid.to_string(),
        score: 0,
        zones: positions
            .iter()
            .map(|p| RecordsByTime_Zone {
                zoneId: "z".to_string(),
                zoneName: "Z".to_string(),
                ranking: RecordsByTime_ZoneRanking { position: *p, length: 100 },
            })
            .collect(),
    }
}

#[test]
fn global_position_is_first_zone() {
    assert_eq!(record("m", &[3, 1, 1]).get_global_pos(), Some(3));
    assert_eq!(record("m", &[]).get_global_pos(), None);
}

#[test]
fn script_settings() {
    let t = ClubRoom_ScriptSetting::text("k", "v");
    assert_eq!((t.key.as_str(), t.value.as_str(), t.setting_type.as_str()), ("k", "v", "text"));
    let i = ClubRoom_ScriptSetting::integer("k", -42);
    assert_eq!((i.value.as_str(), i.setting_type.as_str()), ("-42", "integer"));
    let b = ClubRoom_ScriptSetting::boolean("k", true);
    assert_eq!((b.value.as_str(), b.setting_type.as_str()), ("true", "boolean"));
    let tl = ClubRoom_ScriptSetting::time_limit(300);
    assert_eq!((tl.key.as_str(), tl.value.as_str()), ("S_TimeLimit", "300"));
    assert_eq!(ClubRoom_ScriptSetting::chat_time(10).key, "S_ChatTime");
    assert_eq!(ClubRoom_ScriptSetting::loading_screen_image_url("u").key, "S_LoadingScreenImageUrl");
    assert_eq!(ClubRoom_ScriptSetting::delay_before_next_map(0).key, "S_DelayBeforeNextMap");
    assert_eq!(ClubRoom_ScriptSetting::warm_up_nb(1).key, "S_WarmUpNb");
    assert_eq!(ClubRoom_ScriptSetting::warm_up_duration(1).key, "S_WarmUpDuration");
    let d = ClubRoom_ScriptSetting::disable_go_to_map(false);
    assert_eq!((d.key.as_str(), d.value.as_str()), ("S_DisableGoToMap", "false"));
    assert_eq!(ClubRoom_ScriptSetting::deco_image_url_checkpoint("u").key, "S_DecoImageUrl_Checkpoint");
    assert_eq!(ClubRoom_ScriptSetting::deco_image_url_sponsor_4x1("u").key, "S_DecoImageUrl_DecalSponsor4x1");
    assert_eq!(ClubRoom_ScriptSetting::deco_image_url_screen_16x1("u").key, "S_DecoImageUrl_Screen16x1");
    assert_eq!(ClubRoom_ScriptSetting::deco_image_url_screen_16x9("u").key, "S_DecoImageUrl_Screen16x9");
    assert_eq!(ClubRoom_ScriptSetting::deco_image_url_screen_8x1("u").key, "S_DecoImageUrl_Screen8x1");
    assert_eq!(ClubRoom_ScriptSetting::deco_image_url_who_am_i("u").key, "S_DecoImageUrl_WhoAmIUrl");
}

#[test]
fn queue_push_and_take() {
    let mut q = BatcherLbPosByTimeQueue::new();
    assert_eq!(q.nb_queued, 0);
    q.push("a", 100, 1);
    q.push("b", 200, 2);
    q.push("a", 101, 3);
    q.push("c", 300, 4);
    assert_eq!(q.nb_queued, 4);
    let first = q.take_up_to(2);
    assert_eq!(first.len(), 2);
    assert_ne!(first[0].0, first[1].0);
    // each taken request is the newest of its map uid
    for (uid, score, ticket) in &first {
        let newest = match uid.as_str() {
            "a" => (101, 3),
            "b" => (200, 2),
            "c" => (300, 4),
            _ => panic!("unknown map uid"),
        };
        assert_eq!((*score, *ticket), newest);
    }
    assert_eq!(q.nb_queued, 2);
    assert_eq!(q.nb_batches, 1);
    assert_eq!(q.nb_batched, 2);
    let mut all: Vec<(String, i64, u64)> = first;
    while q.nb_queued > 0 {
        let batch = q.take_up_to(50);
        assert!(!batch.is_empty());
        all.extend(batch);
    }
    all.sort();
    assert_eq!(
        all,
        vec![
            ("a".to_string(), 100, 1),
            ("a".to_string(), 101, 3),
            ("b".to_string(), 200, 2),
            ("c".to_string(), 300, 4),
        ]
    );
    assert!(q.take_up_to(50).is_empty());
}

#[test]
fn queue_take_with_zero_limit_takes_one() {
    let mut q = BatcherLbPosByTimeQueue::new();
    q.push("a", 1, 1);
    q.push("b", 2, 2);
    assert_eq!(q.take_up_to(0).len(), 1);
    assert_eq!(q.nb_queued, 1);
}

#[test]
fn queue_in_progress_counts() {
    let mut q = BatcherLbPosByTimeQueue::new();
    q.start_batch(3);
    assert_eq!(q.nb_in_progress, 3);
    q.finish_batch(2);
    assert_eq!(q.nb_in_progress, 1);
}

#[test]
fn batch_scores_and_results() {
    let batch = vec![("a".to_string(), 100i64, 7u64), ("b".to_string(), 200, 8), ("c".to_string(), 300, 9)];
    assert_eq!(
        batch_uid_scores(&batch),
        vec![("a".to_string(), 100u32), ("b".to_string(), 200), ("c".to_string(), 300)]
    );
    let resp = vec![record("a", &[5]), record("b", &[]), record("a", &[6, 1])];
    let r = batch_results(&batch, &resp);
    let got: Vec<(u64, (i64, Option<i32>))> = r.iter().map(|(t, s)| (*t, s.get_s_p())).collect();
    assert_eq!(got, vec![(7, (100, Some(6))), (8, (200, None)), (9, (300, None))]);
}

#[test]
fn full_batch_takes_every_map_uid() {
    let mut q = BatcherLbPosByTimeQueue::new();
    for (i, uid) in ["x", "y", "z"].iter().enumerate() {
        q.push(uid, i as i64, i as u64);
        q.push(uid, 10 + i as i64, 10 + i as u64);
    }
    let mut batch = q.take_up_to(3);
    batch.sort();
    assert_eq!(
        batch,
        vec![("x".to_string(), 10, 10), ("y".to_string(), 11, 11), ("z".to_string(), 12, 12)]
    );
    assert_eq!(q.nb_queued, 3);
}

#[test]
fn batch_counters_keep_the_queue_usable() {
    let mut q = BatcherLbPosByTimeQueue::new();
    q.start_batch(0);
    q.finish_batch(0);
    q.push("a", 1, 1);
    assert_eq!(q.take_up_to(1), vec![("a".to_string(), 1, 1)]);
}

#[test]
fn queue_take_moves_requests() {
    let mut q = BatcherLbPosByTimeQueue::new();
    q.push("a", 1, 1);
    q.push("a", 2, 2);
    q.push("b", 3, 3);
    let batch = q.take_up_to(5);
    assert_eq!(batch.len(), 2);
    let mut all: Vec<(String, i64, u64)> = q
        .queue
        .iter()
        .flat_map(|(k, v)| v.iter().map(move |(s, t)| (k.clone(), *s, *t)))
        .collect();
    assert_eq!(all, vec![("a".to_string(), 1, 1)]);
    all.extend(batch);
    all.sort();
    assert_eq!(
        all,
        vec![("a".to_string(), 1, 1), ("a".to_string(), 2, 2), ("b".to_string(), 3, 3)]
    );
}
