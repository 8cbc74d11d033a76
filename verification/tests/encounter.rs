use bpsr_meter::encounter::{
    build_players, dps_report, encounter_record, get_header_info, get_player_window, get_skill_window, history_limit,
    toggle_pause_encounter,
    CachedPlayer, CombatStats, Encounter, Entities, Entity, HeaderInfo, PlayerCache, ReportSkip, SkillTable, StatType,
    MIN_DURATION_MS,
};
use std::collections::HashMap;

fn stats(value: u64, hits: u64) -> CombatStats {
    CombatStats { value, hits, crit_hits: 1, crit_value: 2, lucky_hits: 3, lucky_value: 4 }
}

fn zero() -> CombatStats {
    CombatStats { value: 0, hits: 0, crit_hits: 0, crit_value: 0, lucky_hits: 0, lucky_value: 0 }
}

fn entity(uid: i64, is_player: bool, name: Option<&str>, dmg: u64, heal: u64) -> Entity {
    Entity {
        uid,
        is_player,
        name: name.map(|n| n.to_string()),
        class: None,
        class_spec: None,
        ability_score: None,
        dmg_stats: if dmg > 0 { stats(dmg, 10) } else { zero() },
        dmg_stats_boss_only: if dmg > 0 { stats(dmg / 2, 5) } else { zero() },
        heal_stats: if heal > 0 { stats(heal, 6) } else { zero() },
        dps_skills: SkillTable::new(),
        dps_skills_boss_only: SkillTable::new(),
        heal_skills: SkillTable::new(),
    }
}

fn table(entries: &[(i32, CombatStats)]) -> SkillTable {
    let mut t = SkillTable::new();
    for &(uid, s) in entries {
        t.insert(uid, s);
    }
    t
}

fn entities(list: Vec<Entity>) -> Entities {
    let mut es = Entities::new();
    for e in list {
        es.insert(e);
    }
    es
}

fn encounter(start: u64, last: u64) -> Encounter {
    encounter_ordered(start, last, false)
}

fn encounter_ordered(start: u64, last: u64, reversed: bool) -> Encounter {
    let mut ann = entity(10, true, Some("Ann"), 500, 0);
    ann.class = Some(1);
    ann.ability_score = Some(5000);
    ann.dps_skills = table(&[(101, stats(300, 6)), (102, stats(200, 4))]);
    let mut bob = entity(20, true, None, 800, 50);
    bob.dps_skills = table(&[(201, stats(800, 10))]);
    bob.heal_skills = table(&[(201, stats(30, 2)), (202, stats(20, 3))]);
    let monster = entity(30, false, Some("Boss"), 1000, 0);
    let mut healer = entity(40, true, None, 0, 100);
    healer.heal_skills = table(&[(401, stats(100, 6))]);
    let mut list = vec![ann, bob, monster, healer];
    if reversed {
        list.reverse();
    }
    Encounter {
        time_fight_start_ms: start,
        time_last_combat_packet_ms: last,
        dmg_stats: stats(2300, 30),
        dmg_stats_boss_only: stats(1150, 15),
        heal_stats: stats(150, 12),
        entities: entities(list),
        local_player_uid: 10,
        is_encounter_paused: false,
    }
}

fn cache() -> PlayerCache {
    let mut players = HashMap::new();
    players.insert(
        20i64,
        CachedPlayer { name: Some("Bob".to_string()), class: Some(2), class_spec: Some(3), ability_score: None },
    );
    PlayerCache { players }
}

#[test]
fn player_window_ranks_players_by_damage() {
    let enc = encounter(1000, 5000);
    let w = get_player_window(&enc, StatType::Dmg, &cache(), 10);
    let names: Vec<&str> = w.player_rows.iter().map(|r| r.name.as_str()).collect();
    assert_eq!(names, vec!["Bob", "Ann"]);
    assert_eq!(w.top_value, 800);
    assert_eq!(w.encounter_value, 2300);
    assert_eq!(w.elapsed_ms, 4000);
    assert_eq!(w.local_player_uid, 10);
    let bob = &w.player_rows[0];
    assert_eq!((bob.uid, bob.class, bob.class_spec, bob.ability_score), (20, Some(2), Some(3), -1));
    let ann = &w.player_rows[1];
    assert_eq!((ann.class, ann.class_spec, ann.ability_score), (Some(1), None, 5000));
    assert_eq!(ann.stats, stats(500, 10));
}

#[test]
fn heal_window_lists_healers_with_default_names() {
    let enc = encounter(1000, 5000);
    let w = get_player_window(&enc, StatType::Heal, &cache(), 10);
    let names: Vec<&str> = w.player_rows.iter().map(|r| r.name.as_str()).collect();
    assert_eq!(names, vec!["Player 40", "Bob"]);
    assert_eq!(w.top_value, 100);
    assert_eq!(w.encounter_value, 150);
}

#[test]
fn boss_only_window_and_empty_window() {
    let enc = encounter(1000, 5000);
    let w = get_player_window(&enc, StatType::DmgBossOnly, &cache(), 10);
    let values: Vec<u64> = w.player_rows.iter().map(|r| r.stats.value).collect();
    assert_eq!(values, vec![400, 250]);
    let empty = Encounter { entities: Entities::new(), ..encounter(0, 0) };
    let w = get_player_window(&empty, StatType::Dmg, &cache(), 10);
    assert!(w.player_rows.is_empty());
    assert_eq!(w.top_value, 0);
}

#[test]
fn equal_totals_keep_entity_order() {
    let enc = Encounter {
        entities: entities(vec![
            entity(1, true, Some("A"), 100, 0),
            entity(2, true, Some("B"), 100, 0),
            entity(3, true, Some("C"), 200, 0),
        ]),
        ..encounter(1, 3000)
    };
    let w = get_player_window(&enc, StatType::Dmg, &cache(), 0);
    let names: Vec<&str> = w.player_rows.iter().map(|r| r.name.as_str()).collect();
    assert_eq!(names, vec!["C", "A", "B"]);
}

#[test]
fn skill_window_ranks_skills() {
    let enc = encounter(1000, 5000);
    let w = get_skill_window(&enc, 10, StatType::Dmg, &cache(), 10).unwrap();
    assert_eq!(w.inspected_player.name, "Ann");
    let uids: Vec<i32> = w.skill_rows.iter().map(|r| r.uid).collect();
    assert_eq!(uids, vec![101, 102]);
    assert_eq!(w.top_value, 300);
    assert_eq!(w.encounter_value, 2300);
    let heal = get_skill_window(&enc, 20, StatType::Heal, &cache(), 10).unwrap();
    let uids: Vec<i32> = heal.skill_rows.iter().map(|r| r.uid).collect();
    assert_eq!(uids, vec![201, 202]);
    assert_eq!(heal.inspected_player.stats.value, 50);
}

#[test]
fn skill_window_of_unknown_player_is_an_error() {
    let enc = encounter(1000, 5000);
    let err = get_skill_window(&enc, 99, StatType::Dmg, &cache(), 10).err().unwrap();
    assert_eq!(err, "Could not find player with uid 99");
}

#[test]
fn history_players_merge_damage_and_healing() {
    let enc = encounter(1000, 5000);
    let players = build_players(&enc, &cache());
    let uids: Vec<i64> = players.iter().map(|p| p.uid).collect();
    assert_eq!(uids, vec![20, 10, 40]);
    let bob = &players[0];
    assert_eq!(bob.name, "Bob");
    assert_eq!((bob.total_damage, bob.total_healing, bob.hits), (800, 50, 10));
    let skills: Vec<(i32, u64, u64, u64)> =
        bob.skills.iter().map(|s| (s.uid, s.total_damage, s.total_healing, s.hits)).collect();
    assert_eq!(skills, vec![(201, 800, 30, 10), (202, 0, 20, 0)]);
    let healer = &players[2];
    assert_eq!(healer.name, "Player 40");
    assert_eq!(healer.skills.len(), 1);
    assert_eq!((healer.skills[0].total_healing, healer.skills[0].hits), (100, 0));
}

#[test]
fn encounter_record_of_a_fight() {
    let enc = encounter(1000, 5000);
    let rec = encounter_record(&enc, &cache(), 10, 7).unwrap();
    assert_eq!(rec.duration_ms, 4000);
    assert_eq!(rec.total_damage, 2300);
    assert_eq!(rec.total_healing, 150);
    assert_eq!(rec.map_id, 7);
    assert_eq!(rec.reporter_name, "Ann");
    assert_eq!(rec.top_player_name, "Bob");
    assert_eq!(rec.player_count, 3);
    let rec = encounter_record(&enc, &cache(), 99, 7).unwrap();
    assert_eq!(rec.reporter_name, "Player 99");
}

#[test]
fn encounter_record_skips_trivial_fights() {
    assert!(encounter_record(&encounter(0, 5000), &cache(), 10, 7).is_none());
    assert!(encounter_record(&encounter(1000, 1000 + MIN_DURATION_MS - 1), &cache(), 10, 7).is_none());
    assert!(encounter_record(&encounter(1000, 1000 + MIN_DURATION_MS), &cache(), 10, 7).is_some());
    let mut no_damage = encounter(1000, 5000);
    no_damage.dmg_stats = zero();
    assert!(encounter_record(&no_damage, &cache(), 10, 7).is_none());
    let no_players = Encounter { entities: Entities::new(), ..encounter(1000, 5000) };
    assert!(encounter_record(&no_players, &cache(), 10, 7).is_none());
}

#[test]
fn dps_report_lists_damage_dealers_under_the_party_key() {
    let enc = encounter(1000, 5500);
    let key = Some("api".to_string());
    let rep = dps_report(&enc, &cache(), true, 7, &key).ok().unwrap();
    assert_eq!(rep.idempotency_key, "dps:7:30");
    assert_eq!(rep.api_key, "api");
    assert_eq!(rep.duration_ms, 4500);
    assert_eq!(rep.duration_seconds, 4);
    assert_eq!(rep.reporter_name, "Ann");
    let uids: Vec<i64> = rep.players.iter().map(|p| p.uid).collect();
    assert_eq!(uids, vec![20, 10]);
    let bob_skills: Vec<(i32, u64, u64, u64)> =
        rep.players[0].skills.iter().map(|s| (s.uid, s.total_damage, s.total_healing, s.hits)).collect();
    assert_eq!(bob_skills, vec![(201, 800, 30, 10), (202, 0, 20, 3)]);
}

#[test]
fn dps_report_key_ignores_player_order() {
    let enc = encounter(1000, 5500);
    let reversed = encounter_ordered(1000, 5500, true);
    let key = Some("api".to_string());
    let a = dps_report(&enc, &cache(), true, 7, &key).ok().unwrap();
    let b = dps_report(&reversed, &cache(), true, 7, &key).ok().unwrap();
    assert_eq!(a.idempotency_key, b.idempotency_key);
}

#[test]
fn dps_report_reporter_from_cache() {
    let mut enc = encounter(1000, 5500);
    enc.local_player_uid = 20;
    let rep = dps_report(&enc, &cache(), true, 1, &Some("k".to_string())).ok().unwrap();
    assert_eq!(rep.reporter_name, "Bob");
    enc.local_player_uid = 77;
    let rep = dps_report(&enc, &cache(), true, 1, &Some("k".to_string())).ok().unwrap();
    assert_eq!(rep.reporter_name, "Player 77");
}

#[test]
fn dps_report_skips() {
    let key = Some("api".to_string());
    assert_eq!(dps_report(&encounter(1000, 5000), &cache(), false, 7, &key).err(), Some(ReportSkip::Disabled));
    assert_eq!(dps_report(&encounter(0, 5000), &cache(), true, 7, &key).err(), Some(ReportSkip::EmptyEncounter));
    assert_eq!(dps_report(&encounter(1000, 2500), &cache(), true, 7, &key).err(), Some(ReportSkip::TooShort));
    assert_eq!(dps_report(&encounter(1000, 5000), &cache(), true, 7, &None).err(), Some(ReportSkip::NoApiKey));
}

#[test]
fn header_info_before_and_after_damage() {
    let enc = encounter(1000, 5000);
    assert_eq!(
        get_header_info(&enc),
        HeaderInfo { total_dmg: 2300, elapsed_ms: 4000, time_last_combat_packet_ms: 5000 }
    );
    let mut quiet = encounter(1000, 5000);
    quiet.dmg_stats = zero();
    assert_eq!(get_header_info(&quiet), HeaderInfo { total_dmg: 0, elapsed_ms: 0, time_last_combat_packet_ms: 0 });
}

#[test]
fn history_limit_clamps() {
    assert_eq!(history_limit(0), 200);
    assert_eq!(history_limit(-1), 200);
    assert_eq!(history_limit(50), 50);
    assert_eq!(history_limit(5000), 1000);
}

#[test]
fn pause_toggles_and_reset_is_fresh() {
    let mut enc = encounter(1000, 5000);
    toggle_pause_encounter(&mut enc);
    assert!(enc.is_encounter_paused);
    assert_eq!(enc.entities.as_vec().len(), 4);
    toggle_pause_encounter(&mut enc);
    assert!(!enc.is_encounter_paused);
    let fresh = Encounter::default();
    assert_eq!(fresh.time_fight_start_ms, 0);
    assert!(fresh.entities.as_vec().is_empty());
    assert_eq!(fresh.dmg_stats, zero());
    assert!(!fresh.is_encounter_paused);
    assert!(encounter_record(&fresh, &cache(), 10, 7).is_none());
}

#[test]
fn entities_and_skills_are_keyed_by_uid() {
    let mut es = Entities::new();
    es.insert(entity(1, true, Some("A"), 100, 0));
    es.insert(entity(2, true, Some("B"), 100, 0));
    es.insert(entity(1, true, Some("A2"), 300, 0));
    let v = es.as_vec();
    assert_eq!(v.len(), 2);
    assert_eq!(v[0].name.as_deref(), Some("A2"));
    assert_eq!(v[0].dmg_stats.value, 300);
    es.clear();
    assert!(es.as_vec().is_empty());
    let t = table(&[(5, stats(1, 1)), (6, stats(2, 2)), (5, stats(9, 9))]);
    assert_eq!(t.as_vec().clone(), vec![(5, stats(9, 9)), (6, stats(2, 2))]);
}

fn solo(uid: i64) -> Encounter {
    let mut e = entity(uid, true, Some("Solo"), 500, 0);
    e.dps_skills = table(&[(1, stats(500, 5))]);
    Encounter {
        time_fight_start_ms: 1000,
        time_last_combat_packet_ms: 5000,
        dmg_stats: stats(500, 5),
        dmg_stats_boss_only: zero(),
        heal_stats: zero(),
        entities: entities(vec![e]),
        local_player_uid: uid,
        is_encounter_paused: false,
    }
}

#[test]
fn uids_pass_through_f64_in_report_key_and_reporter_lookup() {
    let key = Some("k".to_string());
    // 2^53 + 1 rounds to 2^53 (ties to even) as an f64.
    let big = 9_007_199_254_740_993i64;
    let rep = dps_report(&solo(big), &cache(), true, 7, &key).ok().unwrap();
    assert_eq!(rep.idempotency_key, "dps:7:9007199254740992");
    let rec = encounter_record(&solo(big), &cache(), big, 7).unwrap();
    assert_eq!(rec.reporter_name, "Player 9007199254740993");
    let rec = encounter_record(&solo(big - 1), &cache(), big - 1, 7).unwrap();
    assert_eq!(rec.reporter_name, "Solo");
    // i64::MAX becomes 2^63 as an f64 and saturates back to i64::MAX.
    let rep = dps_report(&solo(i64::MAX), &cache(), true, 7, &key).ok().unwrap();
    assert_eq!(rep.idempotency_key, format!("dps:7:{}", i64::MAX));
    let rep = dps_report(&solo(-big), &cache(), true, 7, &key).ok().unwrap();
    assert_eq!(rep.idempotency_key, "dps:7:-9007199254740992");
}

#[test]
fn report_key_sum_wraps_around() {
    let key = Some("k".to_string());
    let mut enc = solo(i64::MAX);
    let mut second = entity(5, true, Some("Five"), 400, 0);
    second.dps_skills = table(&[(1, stats(400, 5))]);
    enc.entities.insert(second);
    let rep = dps_report(&enc, &cache(), true, 7, &key).ok().unwrap();
    assert_eq!(rep.idempotency_key, format!("dps:7:{}", i64::MAX.wrapping_add(5)));
}
