use nadeo_api::zones::{Zone, ZoneTree};

fn zone(id: &str, name: &str, parent: Option<&str>) -> Zone {
    Zone {
        icon: format!("{}.png", id),
        name: name.to_string(),
        parentId: parent.map(|p| p.to_string()),
        timestamp: "2020".to_string(),
        zoneId: id.to_string(),
        depth: None,
    }
}

fn sample() -> Vec<Zone> {
    vec![
        zone("w", "World", None),
        zone("eu", "Europe", Some("w")),
        zone("fr", "France", Some("eu")),
        zone("idf", "Ile-de-France", Some("fr")),
        zone("paris", "Paris", Some("idf")),
        zone("na", "North America", Some("w")),
        zone("lost", "Lost", Some("nowhere")),
    ]
}

#[test]
fn zone_tree_depths() {
    let t = ZoneTree::new(sample());
    assert_eq!(t.world_id, "w");
    let depth = |id: &str| t.get_zone(id).unwrap().depth;
    assert_eq!(depth("w"), Some(0));
    assert_eq!(depth("eu"), Some(1));
    assert_eq!(depth("na"), Some(1));
    assert_eq!(depth("fr"), Some(2));
    assert_eq!(depth("idf"), Some(3));
    assert_eq!(depth("paris"), Some(4));
    assert_eq!(depth("lost"), None);
    assert!(t.get_zone("nowhere").is_none());
}

#[test]
fn zone_tree_children() {
    let t = ZoneTree::new(sample());
    assert_eq!(t.get_children("w").unwrap(), &vec!["eu".to_string(), "na".to_string()]);
    assert_eq!(t.get_children("fr").unwrap(), &vec!["idf".to_string()]);
    assert!(t.get_children("paris").is_none());
    assert_eq!(t.get_children("nowhere").unwrap(), &vec!["lost".to_string()]);
}

#[test]
fn zone_tree_country_or_higher() {
    let t = ZoneTree::new(sample());
    assert_eq!(t.get_country_or_higher("paris").unwrap().zoneId, "fr");
    assert_eq!(t.get_country_or_higher("fr").unwrap().zoneId, "fr");
    assert_eq!(t.get_country_or_higher("eu").unwrap().zoneId, "eu");
    assert_eq!(t.get_country_or_higher("w").unwrap().zoneId, "w");
    assert!(t.get_country_or_higher("unknown").is_none());
}

#[test]
fn zone_tree_last_listing_counts() {
    let mut zs = sample();
    zs.push(zone("fr", "France (renamed)", Some("eu")));
    let t = ZoneTree::new(zs);
    assert_eq!(t.get_zone("fr").unwrap().name, "France (renamed)");
    assert_eq!(t.get_zone("fr").unwrap().depth, Some(2));
}

#[test]
fn zone_clone_keeps_fields() {
    let z = zone("x", "X", Some("w"));
    let c = z.clone();
    assert_eq!((c.zoneId, c.name, c.parentId), (z.zoneId, z.name, z.parentId));
}

#[test]
fn zone_tree_world_with_outside_parent() {
    // World names a parent that is not below it: depths are still distances below World
    let mut zs = sample();
    zs[0] = zone("w", "World", Some("universe"));
    let t = ZoneTree::new(zs);
    assert_eq!(t.get_zone("w").unwrap().depth, Some(0));
    assert_eq!(t.get_zone("paris").unwrap().depth, Some(4));
    assert_eq!(t.get_country_or_higher("idf").unwrap().zoneId, "fr");
}

fn with_depth(mut z: Zone, depth: Option<u32>) -> Zone {
    z.depth = depth;
    z
}

#[test]
fn zone_tree_counts_from_world_depth() {
    let mut zs = sample();
    zs[0] = with_depth(zone("w", "World", None), Some(5));
    let t = ZoneTree::new(zs);
    assert_eq!(t.get_zone("w").unwrap().depth, Some(5));
    assert_eq!(t.get_zone("eu").unwrap().depth, Some(6));
    assert_eq!(t.get_zone("paris").unwrap().depth, Some(9));
    assert_eq!(t.get_zone("lost").unwrap().depth, None);
}

#[test]
fn zone_tree_lone_world_keeps_no_depth() {
    let zs = vec![zone("w", "World", None), zone("lost", "Lost", Some("nowhere"))];
    let t = ZoneTree::new(zs);
    assert_eq!(t.get_zone("w").unwrap().depth, None);
    assert_eq!(t.get_zone("lost").unwrap().depth, None);
}

#[test]
fn zone_tree_lone_world_keeps_its_depth() {
    let zs = vec![with_depth(zone("w", "World", None), Some(3))];
    let t = ZoneTree::new(zs);
    assert_eq!(t.get_zone("w").unwrap().depth, Some(3));
}

#[test]
fn zone_tree_country_from_world_depth_one() {
    let mut zs = sample();
    zs[0] = with_depth(zone("w", "World", None), Some(1));
    let t = ZoneTree::new(zs);
    assert_eq!(t.get_zone("fr").unwrap().depth, Some(3));
    assert_eq!(t.get_country_or_higher("paris").unwrap().zoneId, "eu");
    assert_eq!(t.get_country_or_higher("w").unwrap().zoneId, "w");
}

#[test]
fn zone_tree_unreachable_zone_keeps_depth() {
    let mut zs = sample();
    zs[6] = with_depth(zone("lost", "Lost", Some("nowhere")), Some(7));
    let t = ZoneTree::new(zs);
    assert_eq!(t.get_zone("lost").unwrap().depth, Some(7));
}

#[test]
fn zone_tree_world_in_a_loop() {
    let mut zs = sample();
    zs[0] = zone("w", "World", Some("x"));
    zs.push(zone("x", "X", Some("eu")));
    let t = ZoneTree::new(zs);
    let depth = |id: &str| t.get_zone(id).unwrap().depth;
    assert_eq!(depth("eu"), Some(1));
    assert_eq!(depth("x"), Some(2));
    assert_eq!(depth("fr"), Some(2));
    assert_eq!(depth("paris"), Some(4));
    assert_eq!(depth("w"), Some(3));
}

#[test]
fn zone_tree_world_its_own_parent() {
    let mut zs = sample();
    zs[0] = zone("w", "World", Some("w"));
    let t = ZoneTree::new(zs);
    let depth = |id: &str| t.get_zone(id).unwrap().depth;
    assert_eq!(depth("w"), Some(1));
    assert_eq!(depth("eu"), Some(2));
    assert_eq!(depth("na"), Some(2));
    assert_eq!(depth("fr"), Some(3));
}

#[test]
fn zone_tree_country_of_world_in_a_loop() {
    let mut zs = sample();
    zs[0] = zone("w", "World", Some("x"));
    zs.push(zone("x", "X", Some("fr")));
    let t = ZoneTree::new(zs);
    assert_eq!(t.get_zone("w").unwrap().depth, Some(4));
    assert_eq!(t.get_country_or_higher("w").unwrap().zoneId, "fr");
    assert_eq!(t.get_country_or_higher("paris").unwrap().zoneId, "fr");
    assert_eq!(t.get_country_or_higher("na").unwrap().zoneId, "na");
}
