//! The live encounter as the meter keeps it: per-entity combat totals, and
//! the windows the overlay shows from them (players ranked by a statistic,
//! and one player's skills ranked the same way).
//!
//! Ratios (per second, percentages, crit rates) are left to the presentation
//! layer; everything here is exact integer data.
use crate::chat::text_of;
use crate::sort::{
    is_stable_desc_order, lemma_stable_desc_order_exists, lemma_stable_ranking, precedes, stable_desc_order, stable_ranking,
};
use crate::text::{int_decimal, push_decimal};
use std::collections::HashMap;
use vstd::prelude::*;

verus! {

broadcast use vstd::std_specs::hash::group_hash_axioms;

/// Totals of one kind of combat activity.
#[derive(Clone, Copy, Debug, PartialEq, Eq, Structural)]
pub struct CombatStats {
    pub value: u64,
    pub hits: u64,
    pub crit_hits: u64,
    pub crit_value: u64,
    pub lucky_hits: u64,
    pub lucky_value: u64,
}

/// Which statistic a window ranks by.
#[derive(Clone, Copy, Debug, PartialEq, Eq, Structural)]
pub enum StatType {
    Dmg,
    DmgBossOnly,
    Heal,
}

/// One entity of the encounter, with its totals and per-skill totals.
pub struct Entity {
    pub uid: i64,
    /// The entity is a player character.
    pub is_player: bool,
    pub name: Option<String>,
    pub class: Option<i32>,
    pub class_spec: Option<i32>,
    pub ability_score: Option<i32>,
    pub dmg_stats: CombatStats,
    pub dmg_stats_boss_only: CombatStats,
    pub heal_stats: CombatStats,
    /// Damage per skill uid.
    pub dps_skills: SkillTable,
    /// Damage to bosses per skill uid.
    pub dps_skills_boss_only: SkillTable,
    /// Healing per skill uid.
    pub heal_skills: SkillTable,
}

/// Per-skill totals keyed by skill uid: no skill uid occurs twice.
pub struct SkillTable {
    list: Vec<(i32, CombatStats)>,
}

/// `s` with the entry for `uid` set to `stats`: replaced where `uid` is
/// listed, appended otherwise (a map insert).
pub open spec fn skill_inserted(s: Seq<(i32, CombatStats)>, uid: i32, stats: CombatStats) -> Seq<(i32, CombatStats)> {
    if exists|k: int| 0 <= k < s.len() && s[k].0 == uid {
        s.update(choose|k: int| 0 <= k < s.len() && s[k].0 == uid, (uid, stats))
    } else {
        s.push((uid, stats))
    }
}

impl View for SkillTable {
    type V = Seq<(i32, CombatStats)>;

    closed spec fn view(&self) -> Seq<(i32, CombatStats)> {
        self.list@
    }
}

impl SkillTable {
    #[verifier::type_invariant]
    spec fn keyed(self) -> bool {
        distinct_skill_ids(self.list@)
    }

    /// No skills.
    pub fn new() -> (t: SkillTable)
        ensures
            t@ == Seq::<(i32, CombatStats)>::empty(),
    {
        SkillTable { list: Vec::new() }
    }

    /// Sets the totals of skill `uid`.
    pub fn insert(&mut self, uid: i32, stats: CombatStats)
        ensures
            final(self)@ == skill_inserted(old(self)@, uid, stats),
            distinct_skill_ids(final(self)@),
    {
        proof {
            use_type_invariant(&*self);
        }
        assert(self.list@ == old(self)@);
        let mut list: Vec<(i32, CombatStats)> = Vec::new();
        std::mem::swap(&mut list, &mut self.list);
        let ghost before = list@;
        let mut i: usize = 0;
        while i < list.len()
            invariant
                i <= list.len(),
                list@ == before,
                before == old(self)@,
                distinct_skill_ids(before),
                forall|j: int| 0 <= j < i ==> before[j].0 != uid,
            decreases list.len() - i,
        {
            if list[i].0 == uid {
                proof {
                    assert(before[i as int].0 == uid);
                    let c = choose|k: int| 0 <= k < before.len() && before[k].0 == uid;
                    assert(c == i) by {
                        if c < i {
                            assert(before[c].0 != before[i as int].0);
                        } else if c > i {
                            assert(before[i as int].0 != before[c].0);
                        }
                    }
                }
                list.set(i, (uid, stats));
                proof {
                    assert(before == old(self)@);
                    assert(list@ == skill_inserted(before, uid, stats));
                    assert forall|a: int, b: int| 0 <= a < b < list@.len() implies #[trigger] list@[a].0
                        != #[trigger] list@[b].0 by {
                        assert(before[a].0 != before[b].0);
                    }
                }
                self.list = list;
                return;
            }
            i = i + 1;
        }
        list.push((uid, stats));
        proof {
            assert forall|a: int, b: int| 0 <= a < b < list@.len() implies #[trigger] list@[a].0 != #[trigger] list@[b].0 by {
                if b < before.len() {
                    assert(before[a].0 != before[b].0);
                }
            }
        }
        self.list = list;
    }

    /// The entries, each skill uid once.
    pub fn as_vec(&self) -> (v: &Vec<(i32, CombatStats)>)
        ensures
            v@ == self@,
            distinct_skill_ids(v@),
    {
        proof {
            use_type_invariant(self);
        }
        &self.list
    }
}

/// The entities of an encounter keyed by uid: no uid occurs twice.
pub struct Entities {
    list: Vec<Entity>,
}

/// `s` with the entity `e` stored under its uid: replacing the entity with
/// that uid, appended when there is none (a map insert).
pub open spec fn entity_inserted(s: Seq<Entity>, e: Entity) -> Seq<Entity> {
    if exists|k: int| 0 <= k < s.len() && s[k].uid == e.uid {
        s.update(choose|k: int| 0 <= k < s.len() && s[k].uid == e.uid, e)
    } else {
        s.push(e)
    }
}

impl View for Entities {
    type V = Seq<Entity>;

    closed spec fn view(&self) -> Seq<Entity> {
        self.list@
    }
}

impl Entities {
    #[verifier::type_invariant]
    spec fn keyed(self) -> bool {
        distinct_uids(self.list@)
    }

    /// No entities.
    pub fn new() -> (t: Entities)
        ensures
            t@ == Seq::<Entity>::empty(),
    {
        Entities { list: Vec::new() }
    }

    /// Stores `e` under its uid.
    pub fn insert(&mut self, e: Entity)
        ensures
            final(self)@ == entity_inserted(old(self)@, e),
            distinct_uids(final(self)@),
    {
        proof {
            use_type_invariant(&*self);
        }
        assert(self.list@ == old(self)@);
        let mut list: Vec<Entity> = Vec::new();
        std::mem::swap(&mut list, &mut self.list);
        let ghost before = list@;
        let mut i: usize = 0;
        while i < list.len()
            invariant
                i <= list.len(),
                list@ == before,
                before == old(self)@,
                distinct_uids(before),
                forall|j: int| 0 <= j < i ==> before[j].uid != e.uid,
            decreases list.len() - i,
        {
            if list[i].uid == e.uid {
                proof {
                    assert(before[i as int].uid == e.uid);
                    let c = choose|k: int| 0 <= k < before.len() && before[k].uid == e.uid;
                    assert(c == i) by {
                        if c < i {
                            assert(before[c].uid != before[i as int].uid);
                        } else if c > i {
                            assert(before[i as int].uid != before[c].uid);
                        }
                    }
                }
                let ghost ev = e;
                list.set(i, e);
                proof {
                    assert(before == old(self)@);
                    assert(list@ == before.update(i as int, ev));
                    assert(list@ == entity_inserted(before, ev));
                    assert forall|a: int, b: int| 0 <= a < b < list@.len() implies #[trigger] list@[a].uid
                        != #[trigger] list@[b].uid by {
                        assert(before[a].uid != before[b].uid);
                    }
                }
                self.list = list;
                return;
            }
            i = i + 1;
        }
        let ghost ev = e;
        list.push(e);
        proof {
            assert(list@ == before.push(ev));
            assert forall|a: int, b: int| 0 <= a < b < list@.len() implies #[trigger] list@[a].uid != #[trigger] list@[b].uid by {
                if b < before.len() {
                    assert(before[a].uid != before[b].uid);
                }
            }
        }
        self.list = list;
    }

    /// Forgets every entity.
    pub fn clear(&mut self)
        ensures
            final(self)@ == Seq::<Entity>::empty(),
    {
        self.list = Vec::new();
    }

    /// The entities, each uid once.
    pub fn as_vec(&self) -> (v: &Vec<Entity>)
        ensures
            v@ == self@,
            distinct_uids(v@),
    {
        proof {
            use_type_invariant(self);
        }
        &self.list
    }
}

/// The encounter in progress.
pub struct Encounter {
    pub time_fight_start_ms: u64,
    pub time_last_combat_packet_ms: u64,
    pub dmg_stats: CombatStats,
    pub dmg_stats_boss_only: CombatStats,
    pub heal_stats: CombatStats,
    pub entities: Entities,
    /// Character id of the local player, 0 while unknown.
    pub local_player_uid: i64,
    /// Incoming combat packets are ignored while paused.
    pub is_encounter_paused: bool,
}

/// No fight yet: zero totals, no entities, not paused.
pub open spec fn is_fresh_encounter(e: Encounter) -> bool {
    &&& e.time_fight_start_ms == 0
    &&& e.time_last_combat_packet_ms == 0
    &&& e.dmg_stats == zero_stats()
    &&& e.dmg_stats_boss_only == zero_stats()
    &&& e.heal_stats == zero_stats()
    &&& e.entities@.len() == 0
    &&& e.local_player_uid == 0
    &&& !e.is_encounter_paused
}

/// All-zero totals.
pub open spec fn zero_stats() -> CombatStats {
    CombatStats { value: 0, hits: 0, crit_hits: 0, crit_value: 0, lucky_hits: 0, lucky_value: 0 }
}

impl Default for Encounter {
    /// A fresh encounter (what a reset starts from).
    fn default() -> (e: Encounter)
        ensures
            is_fresh_encounter(e),
    {
        let z = CombatStats { value: 0, hits: 0, crit_hits: 0, crit_value: 0, lucky_hits: 0, lucky_value: 0 };
        Encounter {
            time_fight_start_ms: 0,
            time_last_combat_packet_ms: 0,
            dmg_stats: z,
            dmg_stats_boss_only: z,
            heal_stats: z,
            entities: Entities::new(),
            local_player_uid: 0,
            is_encounter_paused: false,
        }
    }
}

/// Pauses or resumes the encounter; nothing else changes.
pub fn toggle_pause_encounter(encounter: &mut Encounter)
    ensures
        final(encounter).is_encounter_paused == !old(encounter).is_encounter_paused,
        final(encounter).time_fight_start_ms == old(encounter).time_fight_start_ms,
        final(encounter).time_last_combat_packet_ms == old(encounter).time_last_combat_packet_ms,
        final(encounter).dmg_stats == old(encounter).dmg_stats,
        final(encounter).dmg_stats_boss_only == old(encounter).dmg_stats_boss_only,
        final(encounter).heal_stats == old(encounter).heal_stats,
        final(encounter).entities@ == old(encounter).entities@,
        final(encounter).local_player_uid == old(encounter).local_player_uid,
{
    encounter.is_encounter_paused = !encounter.is_encounter_paused;
}

/// What the meter remembers of a player seen earlier.
pub struct CachedPlayer {
    pub name: Option<String>,
    pub class: Option<i32>,
    pub class_spec: Option<i32>,
    pub ability_score: Option<i32>,
}

/// Players remembered across encounters, by uid.
pub struct PlayerCache {
    pub players: HashMap<i64, CachedPlayer>,
}

// --- identity -------------------------------------------------------------------------

/// `"Player {uid}"`, the name of a player nobody has named.
pub open spec fn default_name(uid: i64) -> Seq<char> {
    "Player "@ + int_decimal(uid as int)
}

/// A player's name: its own, else the remembered one, else `"Player {uid}"`.
pub open spec fn resolved_name(own: Option<String>, cache: Map<i64, CachedPlayer>, uid: i64) -> Seq<char> {
    match text_of(own) {
        Some(n) => n,
        None => if cache.contains_key(uid) && cache[uid].name is Some {
            cache[uid].name->0@
        } else {
            default_name(uid)
        },
    }
}

/// A player's class: its own, else the remembered one (`None`: unknown).
pub open spec fn resolved_class(own: Option<i32>, cache: Map<i64, CachedPlayer>, uid: i64) -> Option<i32> {
    if own is Some {
        own
    } else if cache.contains_key(uid) {
        cache[uid].class
    } else {
        None
    }
}

/// A player's class specialisation: its own, else the remembered one.
pub open spec fn resolved_spec(own: Option<i32>, cache: Map<i64, CachedPlayer>, uid: i64) -> Option<i32> {
    if own is Some {
        own
    } else if cache.contains_key(uid) {
        cache[uid].class_spec
    } else {
        None
    }
}

/// A player's ability score: its own, else the remembered one, else -1.
pub open spec fn resolved_score(own: Option<i32>, cache: Map<i64, CachedPlayer>, uid: i64) -> i32 {
    if own is Some {
        own->0
    } else if cache.contains_key(uid) && cache[uid].ability_score is Some {
        cache[uid].ability_score->0
    } else {
        -1i32
    }
}

fn name_or_default(uid: i64) -> (n: String)
    ensures
        n@ == default_name(uid),
{
    let mut n = String::from_str("Player ");
    push_decimal(&mut n, uid as i128);
    n
}

fn resolve_name(own: &Option<String>, cache: &PlayerCache, uid: i64) -> (n: String)
    ensures
        n@ == resolved_name(*own, cache.players@, uid),
{
    match own {
        Some(n) => n.clone(),
        None => match cache.players.get(&uid) {
            Some(c) => match &c.name {
                Some(n) => n.clone(),
                None => name_or_default(uid),
            },
            None => name_or_default(uid),
        },
    }
}

fn resolve_class(own: Option<i32>, cache: &PlayerCache, uid: i64) -> (c: Option<i32>)
    ensures
        c == resolved_class(own, cache.players@, uid),
{
    if own.is_some() {
        own
    } else {
        match cache.players.get(&uid) {
            Some(c) => c.class,
            None => None,
        }
    }
}

fn resolve_spec(own: Option<i32>, cache: &PlayerCache, uid: i64) -> (c: Option<i32>)
    ensures
        c == resolved_spec(own, cache.players@, uid),
{
    if own.is_some() {
        own
    } else {
        match cache.players.get(&uid) {
            Some(c) => c.class_spec,
            None => None,
        }
    }
}

fn resolve_score(own: Option<i32>, cache: &PlayerCache, uid: i64) -> (s: i32)
    ensures
        s == resolved_score(own, cache.players@, uid),
{
    match own {
        Some(s) => s,
        None => match cache.players.get(&uid) {
            Some(c) => match c.ability_score {
                Some(s) => s,
                None => -1,
            },
            None => -1,
        },
    }
}

// --- windows --------------------------------------------------------------------------

/// An entity's totals for a statistic.
pub open spec fn stats_for(e: Entity, t: StatType) -> CombatStats {
    match t {
        StatType::Dmg => e.dmg_stats,
        StatType::DmgBossOnly => e.dmg_stats_boss_only,
        StatType::Heal => e.heal_stats,
    }
}

/// The encounter's totals for a statistic.
pub open spec fn encounter_stats_for(enc: Encounter, t: StatType) -> CombatStats {
    match t {
        StatType::Dmg => enc.dmg_stats,
        StatType::DmgBossOnly => enc.dmg_stats_boss_only,
        StatType::Heal => enc.heal_stats,
    }
}

/// An entity's per-skill totals for a statistic.
pub open spec fn skills_for(e: Entity, t: StatType) -> Seq<(i32, CombatStats)> {
    match t {
        StatType::Dmg => e.dps_skills@,
        StatType::DmgBossOnly => e.dps_skills_boss_only@,
        StatType::Heal => e.heal_skills@,
    }
}

fn pick_stats(e: &Entity, t: StatType) -> (s: CombatStats)
    ensures
        s == stats_for(*e, t),
{
    match t {
        StatType::Dmg => e.dmg_stats,
        StatType::DmgBossOnly => e.dmg_stats_boss_only,
        StatType::Heal => e.heal_stats,
    }
}

fn pick_encounter_stats(enc: &Encounter, t: StatType) -> (s: CombatStats)
    ensures
        s == encounter_stats_for(*enc, t),
{
    match t {
        StatType::Dmg => enc.dmg_stats,
        StatType::DmgBossOnly => enc.dmg_stats_boss_only,
        StatType::Heal => enc.heal_stats,
    }
}

fn pick_skills(e: &Entity, t: StatType) -> (s: &Vec<(i32, CombatStats)>)
    ensures
        s@ == skills_for(*e, t),
{
    match t {
        StatType::Dmg => e.dps_skills.as_vec(),
        StatType::DmgBossOnly => e.dps_skills_boss_only.as_vec(),
        StatType::Heal => e.heal_skills.as_vec(),
    }
}

/// One player line of a window.
pub struct PlayerRow {
    pub uid: i64,
    pub name: String,
    pub class: Option<i32>,
    pub class_spec: Option<i32>,
    pub ability_score: i32,
    pub stats: CombatStats,
}

pub struct PlayerRowView {
    pub uid: i64,
    pub name: Seq<char>,
    pub class: Option<i32>,
    pub class_spec: Option<i32>,
    pub ability_score: i32,
    pub stats: CombatStats,
}

impl View for PlayerRow {
    type V = PlayerRowView;

    open spec fn view(&self) -> PlayerRowView {
        PlayerRowView {
            uid: self.uid,
            name: self.name@,
            class: self.class,
            class_spec: self.class_spec,
            ability_score: self.ability_score,
            stats: self.stats,
        }
    }
}

/// The views of lines.
pub open spec fn row_views(rows: Seq<PlayerRow>) -> Seq<PlayerRowView> {
    rows.map_values(|r: PlayerRow| r@)
}

/// The line of entity `e` showing `stats`, its identity resolved through the cache.
pub open spec fn player_row_of(e: Entity, stats: CombatStats, cache: Map<i64, CachedPlayer>) -> PlayerRowView {
    PlayerRowView {
        uid: e.uid,
        name: resolved_name(e.name, cache, e.uid),
        class: resolved_class(e.class, cache, e.uid),
        class_spec: resolved_spec(e.class_spec, cache, e.uid),
        ability_score: resolved_score(e.ability_score, cache, e.uid),
        stats,
    }
}

/// A window lists the players that have a non-zero total for its statistic.
pub open spec fn shown_in_window(e: Entity, t: StatType) -> bool {
    e.is_player && stats_for(e, t).value > 0
}

/// The lines of a player window, in entity order (before ranking).
pub open spec fn window_rows(es: Seq<Entity>, t: StatType, cache: Map<i64, CachedPlayer>) -> Seq<PlayerRowView>
    decreases es.len(),
{
    if es.len() == 0 {
        Seq::empty()
    } else {
        let prev = window_rows(es.drop_last(), t, cache);
        if shown_in_window(es.last(), t) {
            prev.push(player_row_of(es.last(), stats_for(es.last(), t), cache))
        } else {
            prev
        }
    }
}

/// Ranking keys of lines: the statistic's total.
pub open spec fn row_keys(rows: Seq<PlayerRowView>) -> Seq<(i128, i128)> {
    Seq::new(rows.len(), |i: int| (rows[i].stats.value as i128, 0i128))
}

/// `items` taken in the order of positions `p`.
pub open spec fn reordered<A>(items: Seq<A>, p: Seq<usize>) -> Seq<A> {
    Seq::new(p.len(), |k: int| items[p[k] as int])
}

/// Largest total among lines (0 for none).
pub open spec fn top_row_value(rows: Seq<PlayerRowView>) -> u64
    decreases rows.len(),
{
    if rows.len() == 0 {
        0
    } else {
        let prev = top_row_value(rows.drop_last());
        if rows.last().stats.value > prev {
            rows.last().stats.value
        } else {
            prev
        }
    }
}

/// Players ranked by one statistic.
pub struct PlayersWindow {
    pub player_rows: Vec<PlayerRow>,
    pub local_player_uid: i64,
    /// Largest total among the rows.
    pub top_value: u64,
    /// The encounter's total for the statistic.
    pub encounter_value: u64,
    /// Time from the start of the fight to the last combat packet.
    pub elapsed_ms: i128,
}

fn copy_row(r: &PlayerRow) -> (c: PlayerRow)
    ensures
        c@ == r@,
{
    PlayerRow {
        uid: r.uid,
        name: r.name.clone(),
        class: r.class,
        class_spec: r.class_spec,
        ability_score: r.ability_score,
        stats: r.stats,
    }
}

fn make_row(e: &Entity, stats: CombatStats, cache: &PlayerCache) -> (r: PlayerRow)
    ensures
        r@ == player_row_of(*e, stats, cache.players@),
{
    PlayerRow {
        uid: e.uid,
        name: resolve_name(&e.name, cache, e.uid),
        class: resolve_class(e.class, cache, e.uid),
        class_spec: resolve_spec(e.class_spec, cache, e.uid),
        ability_score: resolve_score(e.ability_score, cache, e.uid),
        stats,
    }
}

fn rank_rows(rows: &Vec<PlayerRow>) -> (ranked: Vec<PlayerRow>)
    ensures
        exists|p: Seq<usize>|
            #![trigger is_stable_desc_order(row_keys(row_views(rows@)), p)]
            is_stable_desc_order(row_keys(row_views(rows@)), p) && row_views(ranked@) == reordered(row_views(rows@), p),
{
    let ghost views = row_views(rows@);
    let mut keys: Vec<(i128, i128)> = Vec::new();
    let mut i: usize = 0;
    while i < rows.len()
        invariant
            i <= rows.len(),
            views == row_views(rows@),
            keys@ == row_keys(views).take(i as int),
        decreases rows.len() - i,
    {
        keys.push((rows[i].stats.value as i128, 0i128));
        i = i + 1;
        assert(keys@ =~= row_keys(views).take(i as int));
    }
    assert(keys@ =~= row_keys(views));
    let p = stable_desc_order(&keys);
    let mut ranked: Vec<PlayerRow> = Vec::new();
    let mut k: usize = 0;
    while k < p.len()
        invariant
            k <= p.len(),
            views == row_views(rows@),
            is_stable_desc_order(row_keys(views), p@),
            row_views(ranked@) == reordered(views, p@).take(k as int),
        decreases p.len() - k,
    {
        let j = p[k];
        assert(row_keys(views).len() == views.len());
        assert(p@[k as int] < views.len());
        let c = copy_row(&rows[j]);
        assert(c@ == views[j as int]);
        let ghost before = row_views(ranked@);
        ranked.push(c);
        assert(row_views(ranked@) =~= before.push(c@));
        k = k + 1;
        assert(row_views(ranked@) =~= reordered(views, p@).take(k as int));
    }
    assert(row_views(ranked@) =~= reordered(views, p@));
    ranked
}

/// The players window for a statistic: every player with a non-zero total,
/// ranked by that total (largest first, equal totals in entity order), with
/// the largest total, the encounter's total and the elapsed fight time.
pub fn get_player_window(encounter: &Encounter, stat_type: StatType, player_cache: &PlayerCache, local_player_uid: i64) -> (w: PlayersWindow)
    ensures
        w.local_player_uid == local_player_uid,
        w.encounter_value == encounter_stats_for(*encounter, stat_type).value,
        w.elapsed_ms == encounter.time_last_combat_packet_ms - encounter.time_fight_start_ms,
        w.top_value == top_row_value(window_rows(encounter.entities@, stat_type, player_cache.players@)),
        exists|p: Seq<usize>|
            #![trigger is_stable_desc_order(row_keys(window_rows(encounter.entities@, stat_type, player_cache.players@)), p)]
            is_stable_desc_order(row_keys(window_rows(encounter.entities@, stat_type, player_cache.players@)), p)
                && row_views(w.player_rows@) == reordered(
                window_rows(encounter.entities@, stat_type, player_cache.players@),
                p,
            ),
{
    let ghost es = encounter.entities@;
    let ghost cache = player_cache.players@;
    let list = encounter.entities.as_vec();
    let mut rows: Vec<PlayerRow> = Vec::new();
    let mut top: u64 = 0;
    let mut i: usize = 0;
    while i < list.len()
        invariant
            i <= list.len(),
            es == list@,
            cache == player_cache.players@,
            row_views(rows@) == window_rows(es.take(i as int), stat_type, cache),
            top == top_row_value(window_rows(es.take(i as int), stat_type, cache)),
        decreases list.len() - i,
    {
        let e = &list[i];
        assert(es.take(i + 1).drop_last() =~= es.take(i as int));
        assert(es.take(i + 1).last() == *e);
        let s = pick_stats(e, stat_type);
        if e.is_player && s.value > 0 {
            let ghost prev = window_rows(es.take(i as int), stat_type, cache);
            let r = make_row(e, s, player_cache);
            let ghost rv = r@;
            rows.push(r);
            assert(prev.push(rv).drop_last() =~= prev);
            if s.value > top {
                top = s.value;
            }
        }
        i = i + 1;
        assert(row_views(rows@) =~= window_rows(es.take(i as int), stat_type, cache));
    }
    assert(es.take(es.len() as int) =~= es);
    let ranked = rank_rows(&rows);
    PlayersWindow {
        player_rows: ranked,
        local_player_uid,
        top_value: top,
        encounter_value: pick_encounter_stats(encounter, stat_type).value,
        elapsed_ms: encounter.time_last_combat_packet_ms as i128 - encounter.time_fight_start_ms as i128,
    }
}

/// The entity with uid `uid` (the last one, should the list hold it twice).
pub open spec fn find_entity(es: Seq<Entity>, uid: i64) -> Option<Entity>
    decreases es.len(),
{
    if es.len() == 0 {
        None
    } else if es.last().uid == uid {
        Some(es.last())
    } else {
        find_entity(es.drop_last(), uid)
    }
}

/// One skill line of a skills window.
#[derive(Clone, Copy, Debug, PartialEq, Eq, Structural)]
pub struct SkillRow {
    pub uid: i32,
    pub stats: CombatStats,
}

/// The lines of per-skill totals, in their given order.
pub open spec fn skill_rows_of(skills: Seq<(i32, CombatStats)>) -> Seq<SkillRow> {
    skills.map_values(|s: (i32, CombatStats)| SkillRow { uid: s.0, stats: s.1 })
}

/// Ranking keys of skill lines: the total.
pub open spec fn skill_keys(skills: Seq<(i32, CombatStats)>) -> Seq<(i128, i128)> {
    Seq::new(skills.len(), |i: int| (skills[i].1.value as i128, 0i128))
}

/// Largest total among per-skill totals (0 for none).
pub open spec fn top_skill_value(skills: Seq<(i32, CombatStats)>) -> u64
    decreases skills.len(),
{
    if skills.len() == 0 {
        0
    } else {
        let prev = top_skill_value(skills.drop_last());
        if skills.last().1.value > prev {
            skills.last().1.value
        } else {
            prev
        }
    }
}

/// The error text when the inspected player is not in the encounter.
pub open spec fn missing_player_message(uid: i64) -> Seq<char> {
    "Could not find player with uid "@ + int_decimal(uid as int)
}

/// One player's skills ranked by a statistic.
pub struct SkillsWindow {
    pub inspected_player: PlayerRow,
    pub local_player_uid: i64,
    pub skill_rows: Vec<SkillRow>,
    /// Largest total among the skills.
    pub top_value: u64,
    /// The encounter's total for the statistic.
    pub encounter_value: u64,
    /// Time from the start of the fight to the last combat packet.
    pub elapsed_ms: i128,
}

fn locate_entity(es: &Vec<Entity>, uid: i64) -> (r: Option<usize>)
    ensures
        match r {
            Some(i) => i < es.len() && find_entity(es@, uid) == Some(es@[i as int]),
            None => find_entity(es@, uid) is None,
        },
{
    let mut i: usize = es.len();
    assert(es@.take(i as int) =~= es@);
    while i > 0
        invariant
            i <= es.len(),
            find_entity(es@, uid) == find_entity(es@.take(i as int), uid),
        decreases i,
    {
        assert(es@.take(i as int).drop_last() =~= es@.take(i - 1));
        if es[i - 1].uid == uid {
            return Some(i - 1);
        }
        i = i - 1;
    }
    None
}

fn rank_skills(skills: &Vec<(i32, CombatStats)>) -> (ranked: Vec<SkillRow>)
    ensures
        exists|p: Seq<usize>|
            #![trigger is_stable_desc_order(skill_keys(skills@), p)]
            is_stable_desc_order(skill_keys(skills@), p) && ranked@ == reordered(skill_rows_of(skills@), p),
{
    let mut keys: Vec<(i128, i128)> = Vec::new();
    let mut i: usize = 0;
    while i < skills.len()
        invariant
            i <= skills.len(),
            keys@ == skill_keys(skills@).take(i as int),
        decreases skills.len() - i,
    {
        keys.push((skills[i].1.value as i128, 0i128));
        i = i + 1;
        assert(keys@ =~= skill_keys(skills@).take(i as int));
    }
    assert(keys@ =~= skill_keys(skills@));
    let p = stable_desc_order(&keys);
    let mut ranked: Vec<SkillRow> = Vec::new();
    let mut k: usize = 0;
    while k < p.len()
        invariant
            k <= p.len(),
            is_stable_desc_order(skill_keys(skills@), p@),
            ranked@ == reordered(skill_rows_of(skills@), p@).take(k as int),
        decreases p.len() - k,
    {
        let j = p[k];
        assert(skill_keys(skills@).len() == skills@.len());
        assert(p@[k as int] < skills@.len());
        ranked.push(SkillRow { uid: skills[j].0, stats: skills[j].1 });
        k = k + 1;
        assert(ranked@ =~= reordered(skill_rows_of(skills@), p@).take(k as int));
    }
    assert(ranked@ =~= reordered(skill_rows_of(skills@), p@));
    ranked
}

fn top_of_skills(skills: &Vec<(i32, CombatStats)>) -> (top: u64)
    ensures
        top == top_skill_value(skills@),
{
    let mut top: u64 = 0;
    let mut i: usize = 0;
    while i < skills.len()
        invariant
            i <= skills.len(),
            top == top_skill_value(skills@.take(i as int)),
        decreases skills.len() - i,
    {
        assert(skills@.take(i + 1).drop_last() =~= skills@.take(i as int));
        if skills[i].1.value > top {
            top = skills[i].1.value;
        }
        i = i + 1;
    }
    assert(skills@.take(skills.len() as int) =~= skills@);
    top
}

/// The skills window of one player for a statistic: the player's own line,
/// every skill ranked by its total (largest first, equal totals in the given
/// order), the largest skill total, the encounter's total and the elapsed
/// fight time. An error when the encounter has no entity with that uid.
pub fn get_skill_window(
    encounter: &Encounter,
    player_uid: i64,
    stat_type: StatType,
    player_cache: &PlayerCache,
    local_player_uid: i64,
) -> (r: Result<SkillsWindow, String>)
    ensures
        match find_entity(encounter.entities@, player_uid) {
            None => r matches Err(msg) && msg@ == missing_player_message(player_uid),
            Some(e) => r matches Ok(w) && {
                &&& w.inspected_player@ == player_row_of(e, stats_for(e, stat_type), player_cache.players@)
                &&& w.local_player_uid == local_player_uid
                &&& w.encounter_value == encounter_stats_for(*encounter, stat_type).value
                &&& w.elapsed_ms == encounter.time_last_combat_packet_ms - encounter.time_fight_start_ms
                &&& w.top_value == top_skill_value(skills_for(e, stat_type))
                &&& exists|p: Seq<usize>|
                    #![trigger is_stable_desc_order(skill_keys(skills_for(e, stat_type)), p)]
                    is_stable_desc_order(skill_keys(skills_for(e, stat_type)), p) && w.skill_rows@ == reordered(
                        skill_rows_of(skills_for(e, stat_type)),
                        p,
                    )
            },
        },
{
    let list = encounter.entities.as_vec();
    let idx = match locate_entity(list, player_uid) {
        Some(i) => i,
        None => {
            let mut msg = String::from_str("Could not find player with uid ");
            push_decimal(&mut msg, player_uid as i128);
            return Err(msg);
        },
    };
    let player = &list[idx];
    let stats = pick_stats(player, stat_type);
    let skills = pick_skills(player, stat_type);
    Ok(
        SkillsWindow {
            inspected_player: make_row(player, stats, player_cache),
            local_player_uid,
            skill_rows: rank_skills(skills),
            top_value: top_of_skills(skills),
            encounter_value: pick_encounter_stats(encounter, stat_type).value,
            elapsed_ms: encounter.time_last_combat_packet_ms as i128 - encounter.time_fight_start_ms as i128,
        },
    )
}

// --- per-player totals (history and reports) ------------------------------------------

/// Totals of one skill: damage and healing merged by skill uid.
#[derive(Clone, Copy, Debug, PartialEq, Eq, Structural)]
pub struct SkillTotals {
    pub uid: i32,
    pub total_damage: u64,
    pub total_healing: u64,
    pub hits: u64,
    pub crit_hits: u64,
    pub crit_value: u64,
    pub lucky_hits: u64,
    pub lucky_value: u64,
}

/// The healing total of skill `uid` (the last entry for it), if it healed.
pub open spec fn heal_value(heals: Seq<(i32, CombatStats)>, uid: i32) -> Option<u64>
    decreases heals.len(),
{
    if heals.len() == 0 {
        None
    } else if heals.last().0 == uid {
        Some(heals.last().1.value)
    } else {
        heal_value(heals.drop_last(), uid)
    }
}

/// Skill `uid` has an entry in `skills`.
pub open spec fn lists_skill(skills: Seq<(i32, CombatStats)>, uid: i32) -> bool {
    exists|i: int| 0 <= i < skills.len() && #[trigger] skills[i].0 == uid
}

/// A damage skill's totals, with its healing added when it also healed.
pub open spec fn damage_skill_totals(d: (i32, CombatStats), heals: Seq<(i32, CombatStats)>) -> SkillTotals {
    SkillTotals {
        uid: d.0,
        total_damage: d.1.value,
        total_healing: match heal_value(heals, d.0) {
            Some(v) => v,
            None => 0,
        },
        hits: d.1.hits,
        crit_hits: d.1.crit_hits,
        crit_value: d.1.crit_value,
        lucky_hits: d.1.lucky_hits,
        lucky_value: d.1.lucky_value,
    }
}

/// A skill that only healed: its healing, and its hit counts when
/// `keep_counts` (reports) or zero counts otherwise (history).
pub open spec fn heal_only_totals(h: (i32, CombatStats), keep_counts: bool) -> SkillTotals {
    if keep_counts {
        SkillTotals {
            uid: h.0,
            total_damage: 0,
            total_healing: h.1.value,
            hits: h.1.hits,
            crit_hits: h.1.crit_hits,
            crit_value: h.1.crit_value,
            lucky_hits: h.1.lucky_hits,
            lucky_value: h.1.lucky_value,
        }
    } else {
        SkillTotals {
            uid: h.0,
            total_damage: 0,
            total_healing: h.1.value,
            hits: 0,
            crit_hits: 0,
            crit_value: 0,
            lucky_hits: 0,
            lucky_value: 0,
        }
    }
}

/// The healing skills without a damage entry, in their order.
pub open spec fn heal_only_skills(heals: Seq<(i32, CombatStats)>, dps: Seq<(i32, CombatStats)>, keep_counts: bool) -> Seq<SkillTotals>
    decreases heals.len(),
{
    if heals.len() == 0 {
        Seq::empty()
    } else {
        let prev = heal_only_skills(heals.drop_last(), dps, keep_counts);
        if lists_skill(dps, heals.last().0) {
            prev
        } else {
            prev.push(heal_only_totals(heals.last(), keep_counts))
        }
    }
}

/// Damage and healing skills merged by uid: the damage skills in order, then
/// the skills that only healed.
pub open spec fn merged_skills(dps: Seq<(i32, CombatStats)>, heals: Seq<(i32, CombatStats)>, keep_counts: bool) -> Seq<SkillTotals> {
    dps.map_values(|d: (i32, CombatStats)| damage_skill_totals(d, heals)) + heal_only_skills(heals, dps, keep_counts)
}

/// Ranking keys of skill totals: damage, then healing.
pub open spec fn skill_totals_keys(s: Seq<SkillTotals>) -> Seq<(i128, i128)> {
    Seq::new(s.len(), |i: int| (s[i].total_damage as i128, s[i].total_healing as i128))
}

/// Skill totals ranked by damage, then healing (largest first, ties in order).
pub open spec fn ranked_skills(s: Seq<SkillTotals>) -> Seq<SkillTotals> {
    reordered(s, stable_ranking(skill_totals_keys(s)))
}

/// A player's totals in a stored or reported encounter.
pub struct PlayerTotals {
    pub uid: i64,
    pub name: String,
    pub class: Option<i32>,
    pub class_spec: Option<i32>,
    pub ability_score: i32,
    pub total_damage: u64,
    pub total_healing: u64,
    pub hits: u64,
    pub crit_hits: u64,
    pub crit_value: u64,
    pub lucky_hits: u64,
    pub lucky_value: u64,
    pub skills: Vec<SkillTotals>,
}

pub struct PlayerTotalsView {
    pub uid: i64,
    pub name: Seq<char>,
    pub class: Option<i32>,
    pub class_spec: Option<i32>,
    pub ability_score: i32,
    pub total_damage: u64,
    pub total_healing: u64,
    pub hits: u64,
    pub crit_hits: u64,
    pub crit_value: u64,
    pub lucky_hits: u64,
    pub lucky_value: u64,
    pub skills: Seq<SkillTotals>,
}

impl View for PlayerTotals {
    type V = PlayerTotalsView;

    open spec fn view(&self) -> PlayerTotalsView {
        PlayerTotalsView {
            uid: self.uid,
            name: self.name@,
            class: self.class,
            class_spec: self.class_spec,
            ability_score: self.ability_score,
            total_damage: self.total_damage,
            total_healing: self.total_healing,
            hits: self.hits,
            crit_hits: self.crit_hits,
            crit_value: self.crit_value,
            lucky_hits: self.lucky_hits,
            lucky_value: self.lucky_value,
            skills: self.skills@,
        }
    }
}

/// The views of player totals.
pub open spec fn totals_views(ps: Seq<PlayerTotals>) -> Seq<PlayerTotalsView> {
    ps.map_values(|p: PlayerTotals| p@)
}

/// Entity `e`'s totals: identity through the cache, damage counts, and its
/// ranked merged skills.
pub open spec fn player_totals_of(e: Entity, cache: Map<i64, CachedPlayer>, keep_counts: bool) -> PlayerTotalsView {
    PlayerTotalsView {
        uid: e.uid,
        name: resolved_name(e.name, cache, e.uid),
        class: resolved_class(e.class, cache, e.uid),
        class_spec: resolved_spec(e.class_spec, cache, e.uid),
        ability_score: resolved_score(e.ability_score, cache, e.uid),
        total_damage: e.dmg_stats.value,
        total_healing: e.heal_stats.value,
        hits: e.dmg_stats.hits,
        crit_hits: e.dmg_stats.crit_hits,
        crit_value: e.dmg_stats.crit_value,
        lucky_hits: e.dmg_stats.lucky_hits,
        lucky_value: e.dmg_stats.lucky_value,
        skills: ranked_skills(merged_skills(e.dps_skills@, e.heal_skills@, keep_counts)),
    }
}

/// A report lists the players that dealt damage; the history also keeps the
/// players that only healed.
pub open spec fn listed(e: Entity, for_report: bool) -> bool {
    e.is_player && (e.dmg_stats.value > 0 || (!for_report && e.heal_stats.value > 0))
}

/// The players' totals in entity order (before ranking).
pub open spec fn totals_rows(es: Seq<Entity>, cache: Map<i64, CachedPlayer>, for_report: bool) -> Seq<PlayerTotalsView>
    decreases es.len(),
{
    if es.len() == 0 {
        Seq::empty()
    } else {
        let prev = totals_rows(es.drop_last(), cache, for_report);
        if listed(es.last(), for_report) {
            prev.push(player_totals_of(es.last(), cache, for_report))
        } else {
            prev
        }
    }
}

/// Ranking keys of players: damage.
pub open spec fn player_keys(ps: Seq<PlayerTotalsView>) -> Seq<(i128, i128)> {
    Seq::new(ps.len(), |i: int| (ps[i].total_damage as i128, 0i128))
}

/// Players ranked by damage (largest first, ties in entity order).
pub open spec fn ranked_players(ps: Seq<PlayerTotalsView>) -> Seq<PlayerTotalsView> {
    reordered(ps, stable_ranking(player_keys(ps)))
}

/// Ranked skill totals hold every skill once and come largest damage first;
/// among equal damage, largest healing first.
pub proof fn lemma_ranked_skills_ordered(s: Seq<SkillTotals>)
    requires
        s.len() <= usize::MAX,
    ensures
        ranked_skills(s).len() == s.len(),
        forall|i: int| 0 <= i < s.len() ==> ranked_skills(s).contains(#[trigger] s[i]),
        forall|j: int, k: int|
            0 <= j < k < s.len() ==> (#[trigger] ranked_skills(s)[j]).total_damage > (#[trigger] ranked_skills(
                s,
            )[k]).total_damage || (ranked_skills(s)[j].total_damage == ranked_skills(s)[k].total_damage
                && ranked_skills(s)[j].total_healing >= ranked_skills(s)[k].total_healing),
{
    let keys = skill_totals_keys(s);
    lemma_stable_desc_order_exists(keys);
    let p = stable_ranking(keys);
    let r = ranked_skills(s);
    assert forall|i: int| 0 <= i < s.len() implies r.contains(#[trigger] s[i]) by {
        assert(p.contains(i as usize));
        let m = choose|m: int| 0 <= m < p.len() && p[m] == i as usize;
        assert(r[m] == s[i]);
    }
    assert forall|j: int, k: int| 0 <= j < k < s.len() implies (#[trigger] r[j]).total_damage > (
    #[trigger] r[k]).total_damage || (r[j].total_damage == r[k].total_damage && r[j].total_healing
        >= r[k].total_healing) by {
        assert(precedes(keys, p[j] as int, p[k] as int));
        assert(keys[p[j] as int] == (s[p[j] as int].total_damage as i128, s[p[j] as int].total_healing as i128));
        assert(keys[p[k] as int] == (s[p[k] as int].total_damage as i128, s[p[k] as int].total_healing as i128));
    }
}

/// The skills of a stored or reported player come largest damage first and,
/// among equal damage, largest healing first.
pub proof fn lemma_player_skills_ordered(e: Entity, cache: Map<i64, CachedPlayer>, keep_counts: bool)
    requires
        merged_skills(e.dps_skills@, e.heal_skills@, keep_counts).len() <= usize::MAX,
    ensures
        forall|j: int, k: int|
            0 <= j < k < player_totals_of(e, cache, keep_counts).skills.len() ==> (
            #[trigger] player_totals_of(e, cache, keep_counts).skills[j]).total_damage > (
            #[trigger] player_totals_of(e, cache, keep_counts).skills[k]).total_damage || (player_totals_of(
                e,
                cache,
                keep_counts,
            ).skills[j].total_damage == player_totals_of(e, cache, keep_counts).skills[k].total_damage
                && player_totals_of(e, cache, keep_counts).skills[j].total_healing >= player_totals_of(
                e,
                cache,
                keep_counts,
            ).skills[k].total_healing),
{
    lemma_ranked_skills_ordered(merged_skills(e.dps_skills@, e.heal_skills@, keep_counts));
}

/// Ranked players hold every player once and come largest damage first.
pub proof fn lemma_ranked_players_ordered(ps: Seq<PlayerTotalsView>)
    requires
        ps.len() <= usize::MAX,
    ensures
        ranked_players(ps).len() == ps.len(),
        forall|i: int| 0 <= i < ps.len() ==> ranked_players(ps).contains(#[trigger] ps[i]),
        forall|j: int, k: int|
            0 <= j < k < ps.len() ==> (#[trigger] ranked_players(ps)[j]).total_damage >= (
            #[trigger] ranked_players(ps)[k]).total_damage,
{
    let keys = player_keys(ps);
    lemma_stable_desc_order_exists(keys);
    let p = stable_ranking(keys);
    let r = ranked_players(ps);
    assert forall|i: int| 0 <= i < ps.len() implies r.contains(#[trigger] ps[i]) by {
        assert(p.contains(i as usize));
        let m = choose|m: int| 0 <= m < p.len() && p[m] == i as usize;
        assert(r[m] == ps[i]);
    }
    assert forall|j: int, k: int| 0 <= j < k < ps.len() implies (#[trigger] r[j]).total_damage >= (
    #[trigger] r[k]).total_damage by {
        assert(precedes(keys, p[j] as int, p[k] as int));
    }
}

fn find_heal(heals: &Vec<(i32, CombatStats)>, uid: i32) -> (v: Option<u64>)
    ensures
        v == heal_value(heals@, uid),
{
    let mut i: usize = heals.len();
    assert(heals@.take(i as int) =~= heals@);
    while i > 0
        invariant
            i <= heals.len(),
            heal_value(heals@, uid) == heal_value(heals@.take(i as int), uid),
        decreases i,
    {
        assert(heals@.take(i as int).drop_last() =~= heals@.take(i - 1));
        if heals[i - 1].0 == uid {
            return Some(heals[i - 1].1.value);
        }
        i = i - 1;
    }
    None
}

fn has_skill(skills: &Vec<(i32, CombatStats)>, uid: i32) -> (b: bool)
    ensures
        b == lists_skill(skills@, uid),
{
    let mut i: usize = 0;
    while i < skills.len()
        invariant
            i <= skills.len(),
            forall|j: int| 0 <= j < i ==> skills@[j].0 != uid,
        decreases skills.len() - i,
    {
        if skills[i].0 == uid {
            assert(skills@[i as int].0 == uid);
            return true;
        }
        i = i + 1;
    }
    false
}

fn merge_skills(dps: &Vec<(i32, CombatStats)>, heals: &Vec<(i32, CombatStats)>, keep_counts: bool) -> (m: Vec<SkillTotals>)
    ensures
        m@ == merged_skills(dps@, heals@, keep_counts),
{
    let ghost damage = dps@.map_values(|d: (i32, CombatStats)| damage_skill_totals(d, heals@));
    let mut m: Vec<SkillTotals> = Vec::new();
    let mut i: usize = 0;
    while i < dps.len()
        invariant
            i <= dps.len(),
            damage == dps@.map_values(|d: (i32, CombatStats)| damage_skill_totals(d, heals@)),
            m@ == damage.take(i as int),
        decreases dps.len() - i,
    {
        let d = dps[i];
        let healing = match find_heal(heals, d.0) {
            Some(v) => v,
            None => 0,
        };
        m.push(
            SkillTotals {
                uid: d.0,
                total_damage: d.1.value,
                total_healing: healing,
                hits: d.1.hits,
                crit_hits: d.1.crit_hits,
                crit_value: d.1.crit_value,
                lucky_hits: d.1.lucky_hits,
                lucky_value: d.1.lucky_value,
            },
        );
        i = i + 1;
        assert(m@ =~= damage.take(i as int));
    }
    assert(damage.take(dps.len() as int) =~= damage);
    let mut j: usize = 0;
    while j < heals.len()
        invariant
            j <= heals.len(),
            m@ == damage + heal_only_skills(heals@.take(j as int), dps@, keep_counts),
        decreases heals.len() - j,
    {
        let h = heals[j];
        assert(heals@.take(j + 1).drop_last() =~= heals@.take(j as int));
        assert(heals@.take(j + 1).last() == h);
        if !has_skill(dps, h.0) {
            let t = if keep_counts {
                SkillTotals {
                    uid: h.0,
                    total_damage: 0,
                    total_healing: h.1.value,
                    hits: h.1.hits,
                    crit_hits: h.1.crit_hits,
                    crit_value: h.1.crit_value,
                    lucky_hits: h.1.lucky_hits,
                    lucky_value: h.1.lucky_value,
                }
            } else {
                SkillTotals {
                    uid: h.0,
                    total_damage: 0,
                    total_healing: h.1.value,
                    hits: 0,
                    crit_hits: 0,
                    crit_value: 0,
                    lucky_hits: 0,
                    lucky_value: 0,
                }
            };
            let ghost before = m@;
            m.push(t);
            assert(m@ =~= damage + heal_only_skills(heals@.take(j + 1), dps@, keep_counts));
        }
        j = j + 1;
    }
    assert(heals@.take(heals.len() as int) =~= heals@);
    m
}

fn rank_skill_totals(s: &Vec<SkillTotals>) -> (r: Vec<SkillTotals>)
    ensures
        r@ == ranked_skills(s@),
{
    let mut keys: Vec<(i128, i128)> = Vec::new();
    let mut i: usize = 0;
    while i < s.len()
        invariant
            i <= s.len(),
            keys@ == skill_totals_keys(s@).take(i as int),
        decreases s.len() - i,
    {
        keys.push((s[i].total_damage as i128, s[i].total_healing as i128));
        i = i + 1;
        assert(keys@ =~= skill_totals_keys(s@).take(i as int));
    }
    assert(keys@ =~= skill_totals_keys(s@));
    let p = stable_desc_order(&keys);
    proof {
        lemma_stable_ranking(keys@, p@);
    }
    let mut r: Vec<SkillTotals> = Vec::new();
    let mut k: usize = 0;
    while k < p.len()
        invariant
            k <= p.len(),
            is_stable_desc_order(skill_totals_keys(s@), p@),
            r@ == reordered(s@, p@).take(k as int),
        decreases p.len() - k,
    {
        let j = p[k];
        assert(skill_totals_keys(s@).len() == s@.len());
        assert(p@[k as int] < s@.len());
        r.push(s[j]);
        k = k + 1;
        assert(r@ =~= reordered(s@, p@).take(k as int));
    }
    assert(r@ =~= reordered(s@, p@));
    r
}

fn copy_skills(v: &Vec<SkillTotals>) -> (c: Vec<SkillTotals>)
    ensures
        c@ == v@,
{
    let mut c: Vec<SkillTotals> = Vec::new();
    let mut i: usize = 0;
    while i < v.len()
        invariant
            i <= v.len(),
            c@ == v@.take(i as int),
        decreases v.len() - i,
    {
        c.push(v[i]);
        i = i + 1;
        assert(c@ =~= v@.take(i as int));
    }
    assert(v@.take(v.len() as int) =~= v@);
    c
}

fn copy_totals(p: &PlayerTotals) -> (c: PlayerTotals)
    ensures
        c@ == p@,
{
    PlayerTotals {
        uid: p.uid,
        name: p.name.clone(),
        class: p.class,
        class_spec: p.class_spec,
        ability_score: p.ability_score,
        total_damage: p.total_damage,
        total_healing: p.total_healing,
        hits: p.hits,
        crit_hits: p.crit_hits,
        crit_value: p.crit_value,
        lucky_hits: p.lucky_hits,
        lucky_value: p.lucky_value,
        skills: copy_skills(&p.skills),
    }
}

fn make_totals(e: &Entity, cache: &PlayerCache, keep_counts: bool) -> (t: PlayerTotals)
    ensures
        t@ == player_totals_of(*e, cache.players@, keep_counts),
{
    let merged = merge_skills(e.dps_skills.as_vec(), e.heal_skills.as_vec(), keep_counts);
    PlayerTotals {
        uid: e.uid,
        name: resolve_name(&e.name, cache, e.uid),
        class: resolve_class(e.class, cache, e.uid),
        class_spec: resolve_spec(e.class_spec, cache, e.uid),
        ability_score: resolve_score(e.ability_score, cache, e.uid),
        total_damage: e.dmg_stats.value,
        total_healing: e.heal_stats.value,
        hits: e.dmg_stats.hits,
        crit_hits: e.dmg_stats.crit_hits,
        crit_value: e.dmg_stats.crit_value,
        lucky_hits: e.dmg_stats.lucky_hits,
        lucky_value: e.dmg_stats.lucky_value,
        skills: rank_skill_totals(&merged),
    }
}

fn rank_players(ps: &Vec<PlayerTotals>) -> (r: Vec<PlayerTotals>)
    ensures
        totals_views(r@) == ranked_players(totals_views(ps@)),
{
    let ghost views = totals_views(ps@);
    let mut keys: Vec<(i128, i128)> = Vec::new();
    let mut i: usize = 0;
    while i < ps.len()
        invariant
            i <= ps.len(),
            views == totals_views(ps@),
            keys@ == player_keys(views).take(i as int),
        decreases ps.len() - i,
    {
        keys.push((ps[i].total_damage as i128, 0i128));
        i = i + 1;
        assert(keys@ =~= player_keys(views).take(i as int));
    }
    assert(keys@ =~= player_keys(views));
    let p = stable_desc_order(&keys);
    proof {
        lemma_stable_ranking(keys@, p@);
    }
    let mut r: Vec<PlayerTotals> = Vec::new();
    let mut k: usize = 0;
    while k < p.len()
        invariant
            k <= p.len(),
            views == totals_views(ps@),
            is_stable_desc_order(player_keys(views), p@),
            totals_views(r@) == reordered(views, p@).take(k as int),
        decreases p.len() - k,
    {
        let j = p[k];
        assert(player_keys(views).len() == views.len());
        assert(p@[k as int] < views.len());
        let c = copy_totals(&ps[j]);
        assert(c@ == views[j as int]);
        let ghost before = totals_views(r@);
        r.push(c);
        assert(totals_views(r@) =~= before.push(c@));
        k = k + 1;
        assert(totals_views(r@) =~= reordered(views, p@).take(k as int));
    }
    assert(totals_views(r@) =~= reordered(views, p@));
    r
}

fn collect_totals(encounter: &Encounter, cache: &PlayerCache, for_report: bool) -> (ps: Vec<PlayerTotals>)
    ensures
        totals_views(ps@) == ranked_players(totals_rows(encounter.entities@, cache.players@, for_report)),
{
    let ghost es = encounter.entities@;
    let list = encounter.entities.as_vec();
    let mut rows: Vec<PlayerTotals> = Vec::new();
    let mut i: usize = 0;
    while i < list.len()
        invariant
            i <= list.len(),
            es == list@,
            totals_views(rows@) == totals_rows(es.take(i as int), cache.players@, for_report),
        decreases list.len() - i,
    {
        let e = &list[i];
        assert(es.take(i + 1).drop_last() =~= es.take(i as int));
        assert(es.take(i + 1).last() == *e);
        if e.is_player && (e.dmg_stats.value > 0 || (!for_report && e.heal_stats.value > 0)) {
            let t = make_totals(e, cache, for_report);
            let ghost before = totals_views(rows@);
            rows.push(t);
            assert(totals_views(rows@) =~= before.push(t@));
        }
        i = i + 1;
    }
    assert(es.take(es.len() as int) =~= es);
    rank_players(&rows)
}

/// The players kept in the encounter history: every player that dealt damage
/// or healed, with its merged skills (skills that only healed carry zero hit
/// counts), ranked by damage.
pub fn build_players(encounter: &Encounter, player_cache: &PlayerCache) -> (ps: Vec<PlayerTotals>)
    ensures
        totals_views(ps@) == ranked_players(totals_rows(encounter.entities@, player_cache.players@, false)),
{
    collect_totals(encounter, player_cache, false)
}

// --- history record and DPS report -----------------------------------------------------

/// Shortest fight (in milliseconds) that is stored or reported.
pub const MIN_DURATION_MS: u64 = 2000;

/// Time from the start of the fight to the last combat packet, 0 if the
/// clock went backwards.
pub open spec fn fight_duration_ms(enc: Encounter) -> u64 {
    if enc.time_last_combat_packet_ms >= enc.time_fight_start_ms {
        (enc.time_last_combat_packet_ms - enc.time_fight_start_ms) as u64
    } else {
        0
    }
}

/// The encounter had a fight that dealt damage.
pub open spec fn has_fight(enc: Encounter) -> bool {
    enc.time_fight_start_ms != 0 && enc.dmg_stats.value != 0
}

/// Spacing of the `f64` values around a magnitude `a` below 2^64: 1 below
/// 2^53 (every integer is exact), then doubling with each power of two.
pub open spec fn f64_spacing(a: int) -> int {
    if a < 0x20_0000_0000_0000 {
        1
    } else if a < 0x40_0000_0000_0000 {
        2
    } else if a < 0x80_0000_0000_0000 {
        4
    } else if a < 0x100_0000_0000_0000 {
        8
    } else if a < 0x200_0000_0000_0000 {
        16
    } else if a < 0x400_0000_0000_0000 {
        32
    } else if a < 0x800_0000_0000_0000 {
        64
    } else if a < 0x1000_0000_0000_0000 {
        128
    } else if a < 0x2000_0000_0000_0000 {
        256
    } else if a < 0x4000_0000_0000_0000 {
        512
    } else if a < 0x8000_0000_0000_0000 {
        1024
    } else {
        2048
    }
}

/// A magnitude rounded to the nearest `f64`, ties to the even significand.
pub open spec fn round_to_f64(a: int) -> int {
    let u = f64_spacing(a);
    let q = a / u;
    let r = a % u;
    if r * 2 > u || (r * 2 == u && q % 2 == 1) {
        (q + 1) * u
    } else {
        q * u
    }
}

/// A uid after `as f64` and back `as i64`: rounded to the nearest `f64`
/// (exact below 2^53), then saturated to the `i64` range.
pub open spec fn uid_through_f64(x: i64) -> i64 {
    let r = round_to_f64(if x < 0 { -x } else { x as int });
    let v = if x < 0 { -r } else { r };
    if v > i64::MAX {
        i64::MAX
    } else if v < i64::MIN {
        i64::MIN
    } else {
        v as i64
    }
}

fn through_f64(x: i64) -> (r: i64)
    ensures
        r == uid_through_f64(x),
{
    let a: i128 = if x < 0 { -(x as i128) } else { x as i128 };
    let u: i128 = if a < 0x20_0000_0000_0000 {
        1
    } else if a < 0x40_0000_0000_0000 {
        2
    } else if a < 0x80_0000_0000_0000 {
        4
    } else if a < 0x100_0000_0000_0000 {
        8
    } else if a < 0x200_0000_0000_0000 {
        16
    } else if a < 0x400_0000_0000_0000 {
        32
    } else if a < 0x800_0000_0000_0000 {
        64
    } else if a < 0x1000_0000_0000_0000 {
        128
    } else if a < 0x2000_0000_0000_0000 {
        256
    } else if a < 0x4000_0000_0000_0000 {
        512
    } else if a < 0x8000_0000_0000_0000 {
        1024
    } else {
        2048
    };
    assert(u == f64_spacing(a as int));
    let q = a / u;
    let m = a % u;
    proof {
        vstd::arithmetic::div_mod::lemma_fundamental_div_mod(a as int, u as int);
        vstd::arithmetic::div_mod::lemma_mod_pos_bound(a as int, u as int);
        assert(0 <= q <= a) by (nonlinear_arith)
            requires
                a >= 0,
                u >= 1,
                a == u * q + m,
                0 <= m < u,
        ;
        assert((q + 1) * u <= a + u) by (nonlinear_arith)
            requires
                a == u * q + m,
                0 <= m,
        ;
        assert(q * u <= a) by (nonlinear_arith)
            requires
                a == u * q + m,
                0 <= m,
        ;
    }
    let rounded: i128 = if m * 2 > u || (m * 2 == u && q % 2 == 1) { (q + 1) * u } else { q * u };
    let v: i128 = if x < 0 { -rounded } else { rounded };
    if v > i64::MAX as i128 {
        i64::MAX
    } else if v < i64::MIN as i128 {
        i64::MIN
    } else {
        v as i64
    }
}

/// The name of the first listed player whose uid, taken through `f64` (as
/// the stored snapshot holds it), is `uid`, if any.
pub open spec fn listed_name(ps: Seq<PlayerTotalsView>, uid: i64) -> Option<Seq<char>>
    decreases ps.len(),
{
    if ps.len() == 0 {
        None
    } else if uid_through_f64(ps[0].uid) == uid {
        Some(ps[0].name)
    } else {
        listed_name(ps.drop_first(), uid)
    }
}

/// What the history stores of a finished encounter (beside its clock time).
pub struct EncounterRecord {
    pub duration_ms: u64,
    pub total_damage: u64,
    pub total_healing: u64,
    pub map_id: u32,
    pub local_player_uid: i64,
    /// The local player's listed name, else `"Player {uid}"`.
    pub reporter_name: String,
    /// The name of the player with the most damage.
    pub top_player_name: String,
    pub player_count: usize,
    pub players: Vec<PlayerTotals>,
}

fn duration_ms(enc: &Encounter) -> (d: u64)
    ensures
        d == fight_duration_ms(*enc),
{
    enc.time_last_combat_packet_ms.saturating_sub(enc.time_fight_start_ms)
}

fn find_listed_name(ps: &Vec<PlayerTotals>, uid: i64) -> (n: Option<String>)
    ensures
        match n {
            Some(s) => listed_name(totals_views(ps@), uid) == Some(s@),
            None => listed_name(totals_views(ps@), uid) is None,
        },
{
    let ghost views = totals_views(ps@);
    let mut i: usize = 0;
    assert(views.skip(0) =~= views);
    while i < ps.len()
        invariant
            i <= ps.len(),
            views == totals_views(ps@),
            listed_name(views, uid) == listed_name(views.skip(i as int), uid),
        decreases ps.len() - i,
    {
        assert(views.skip(i as int).drop_first() =~= views.skip(i + 1));
        assert(views.skip(i as int)[0] == ps@[i as int]@);
        if through_f64(ps[i].uid) == uid {
            return Some(ps[i].name.clone());
        }
        i = i + 1;
    }
    None
}

/// The history record of a finished encounter: none for an encounter
/// without a damaging fight, shorter than [`MIN_DURATION_MS`], or without
/// listed players; otherwise its duration, totals, the given map and local
/// player, the reporter's and the top player's names, and the players as
/// [`build_players`] lists them.
pub fn encounter_record(encounter: &Encounter, player_cache: &PlayerCache, local_player_uid: i64, map_id: u32) -> (r: Option<EncounterRecord>)
    ensures
        ({
            let players = ranked_players(totals_rows(encounter.entities@, player_cache.players@, false));
            &&& r is Some <==> (has_fight(*encounter) && fight_duration_ms(*encounter) >= MIN_DURATION_MS
                && players.len() > 0)
            &&& r matches Some(rec) ==> {
                &&& totals_views(rec.players@) == players
                &&& rec.duration_ms == fight_duration_ms(*encounter)
                &&& rec.total_damage == encounter.dmg_stats.value
                &&& rec.total_healing == encounter.heal_stats.value
                &&& rec.map_id == map_id
                &&& rec.local_player_uid == local_player_uid
                &&& rec.reporter_name@ == (match listed_name(players, local_player_uid) {
                    Some(n) => n,
                    None => default_name(local_player_uid),
                })
                &&& rec.top_player_name@ == players[0].name
                &&& rec.player_count == players.len()
            }
        }),
{
    if encounter.time_fight_start_ms == 0 || encounter.dmg_stats.value == 0 {
        return None;
    }
    let duration = duration_ms(encounter);
    if duration < MIN_DURATION_MS {
        return None;
    }
    let players = build_players(encounter, player_cache);
    if players.len() == 0 {
        return None;
    }
    let reporter_name = match find_listed_name(&players, local_player_uid) {
        Some(n) => n,
        None => name_or_default(local_player_uid),
    };
    let top_player_name = players[0].name.clone();
    let player_count = players.len();
    Some(
        EncounterRecord {
            duration_ms: duration,
            total_damage: encounter.dmg_stats.value,
            total_healing: encounter.heal_stats.value,
            map_id,
            local_player_uid,
            reporter_name,
            top_player_name,
            player_count,
            players,
        },
    )
}

/// Why no DPS report is sent.
#[derive(Clone, Copy, Debug, PartialEq, Eq, Structural)]
pub enum ReportSkip {
    /// Reports are switched off in the settings.
    Disabled,
    /// No fight started, or it dealt no damage.
    EmptyEncounter,
    /// The fight was shorter than [`MIN_DURATION_MS`].
    TooShort,
    /// This build has no relay API key.
    NoApiKey,
}

/// A DPS report for the dedupe relay (rates are derived from the totals and
/// the duration by the sender).
pub struct DpsReport {
    /// `"dps:{map}:{sum of the listed players' uids}"`, each uid taken
    /// through `f64` and the sum in wrapping `i64` arithmetic: the same for
    /// every party member reporting the same fight.
    pub idempotency_key: String,
    pub api_key: String,
    pub duration_ms: u64,
    /// Whole seconds of the fight.
    pub duration_seconds: i64,
    pub total_damage: u64,
    pub total_healing: u64,
    pub local_player_uid: i64,
    pub reporter_name: String,
    pub level_map_id: u32,
    pub players: Vec<PlayerTotals>,
}

/// Sum of the players' uids, each taken through `f64` as the report holds it.
pub open spec fn uid_sum(ps: Seq<PlayerTotalsView>) -> int
    decreases ps.len(),
{
    if ps.len() == 0 {
        0
    } else {
        uid_sum(ps.drop_last()) + uid_through_f64(ps.last().uid)
    }
}

/// `"dps:{map}:{uid sum}"`, the sum in `i64` arithmetic that wraps around
/// on overflow.
pub open spec fn report_key(map_id: u32, ps: Seq<PlayerTotalsView>) -> Seq<char> {
    "dps:"@ + int_decimal(map_id as int) + ":"@ + int_decimal((uid_sum(ps) as i64) as int)
}

/// The reporter: the local player's own name in the encounter, else the
/// remembered one, else `"Player {uid}"`.
pub open spec fn reporter_name_of(enc: Encounter, cache: Map<i64, CachedPlayer>) -> Seq<char> {
    resolved_name(
        match find_entity(enc.entities@, enc.local_player_uid) {
            Some(e) => e.name,
            None => None,
        },
        cache,
        enc.local_player_uid,
    )
}

fn sum_uids(ps: &Vec<PlayerTotals>) -> (s: i128)
    ensures
        s == uid_sum(totals_views(ps@)),
{
    let ghost views = totals_views(ps@);
    let mut s: i128 = 0;
    let mut i: usize = 0;
    while i < ps.len()
        invariant
            i <= ps.len(),
            views == totals_views(ps@),
            s == uid_sum(views.take(i as int)),
            -(i * 0x8000_0000_0000_0000int) <= s <= i * 0x8000_0000_0000_0000int,
        decreases ps.len() - i,
    {
        assert(views.take(i + 1).drop_last() =~= views.take(i as int));
        assert(i < 0x1_0000_0000_0000_0000int);
        assert((i + 1) * 0x8000_0000_0000_0000int == i * 0x8000_0000_0000_0000int + 0x8000_0000_0000_0000int) by (nonlinear_arith);
        assert((i + 1) * 0x8000_0000_0000_0000int <= 0x1_0000_0000_0000_0000int * 0x8000_0000_0000_0000int) by (nonlinear_arith)
            requires i + 1 <= 0x1_0000_0000_0000_0000int;
        s = s + through_f64(ps[i].uid) as i128;
        i = i + 1;
    }
    assert(views.take(ps.len() as int) =~= views);
    s
}

fn find_own_name(es: &Vec<Entity>, uid: i64) -> (n: Option<String>)
    ensures
        n == (match find_entity(es@, uid) {
            Some(e) => e.name,
            None => None,
        }),
{
    match locate_entity(es, uid) {
        Some(i) => es[i].name.clone(),
        None => None,
    }
}

/// The DPS report of a finished encounter: skipped when reports are off, the
/// encounter had no damaging fight, the fight was shorter than
/// [`MIN_DURATION_MS`], or the build has no API key (in that order).
/// Otherwise it lists the players that dealt damage (skills that only healed
/// keep their hit counts), ranked by damage, under the deterministic
/// idempotency key.
pub fn dps_report(
    encounter: &Encounter,
    player_cache: &PlayerCache,
    webhook_enabled: bool,
    level_map_id: u32,
    api_key: &Option<String>,
) -> (r: Result<DpsReport, ReportSkip>)
    ensures
        !webhook_enabled ==> r == Err::<DpsReport, ReportSkip>(ReportSkip::Disabled),
        webhook_enabled && !has_fight(*encounter) ==> r == Err::<DpsReport, ReportSkip>(ReportSkip::EmptyEncounter),
        webhook_enabled && has_fight(*encounter) && fight_duration_ms(*encounter) < MIN_DURATION_MS ==> r == Err::<
            DpsReport,
            ReportSkip,
        >(ReportSkip::TooShort),
        webhook_enabled && has_fight(*encounter) && fight_duration_ms(*encounter) >= MIN_DURATION_MS && api_key is None
            ==> r == Err::<DpsReport, ReportSkip>(ReportSkip::NoApiKey),
        r is Ok <==> (webhook_enabled && has_fight(*encounter) && fight_duration_ms(*encounter) >= MIN_DURATION_MS
            && api_key is Some),
        r matches Ok(rep) ==> {
            let players = ranked_players(totals_rows(encounter.entities@, player_cache.players@, true));
            &&& totals_views(rep.players@) == players
            &&& rep.idempotency_key@ == report_key(level_map_id, players)
            &&& text_of(*api_key) == Some(rep.api_key@)
            &&& rep.duration_ms == fight_duration_ms(*encounter)
            &&& rep.duration_seconds == fight_duration_ms(*encounter) / 1000
            &&& rep.total_damage == encounter.dmg_stats.value
            &&& rep.total_healing == encounter.heal_stats.value
            &&& rep.local_player_uid == encounter.local_player_uid
            &&& rep.reporter_name@ == reporter_name_of(*encounter, player_cache.players@)
            &&& rep.level_map_id == level_map_id
        },
{
    if !webhook_enabled {
        return Err(ReportSkip::Disabled);
    }
    if encounter.time_fight_start_ms == 0 || encounter.dmg_stats.value == 0 {
        return Err(ReportSkip::EmptyEncounter);
    }
    let duration = duration_ms(encounter);
    if duration < MIN_DURATION_MS {
        return Err(ReportSkip::TooShort);
    }
    let key = match api_key {
        Some(k) => k.clone(),
        None => return Err(ReportSkip::NoApiKey),
    };
    let local = encounter.local_player_uid;
    let own = find_own_name(encounter.entities.as_vec(), local);
    let reporter_name = resolve_name(&own, player_cache, local);
    let players = collect_totals(encounter, player_cache, true);
    let mut idempotency_key = String::from_str("dps:");
    push_decimal(&mut idempotency_key, level_map_id as i128);
    idempotency_key.append(":");
    let total: i128 = sum_uids(&players);
    let wrapped: i64 = #[verifier::truncate] (total as i64);
    push_decimal(&mut idempotency_key, wrapped as i128);
    Ok(
        DpsReport {
            idempotency_key,
            api_key: key,
            duration_ms: duration,
            duration_seconds: (duration / 1000) as i64,
            total_damage: encounter.dmg_stats.value,
            total_healing: encounter.heal_stats.value,
            local_player_uid: local,
            reporter_name,
            level_map_id,
            players,
        },
    )
}

// --- header and history listing -------------------------------------------------------

/// The overlay header's totals (its rate is derived by the presentation layer).
#[derive(Clone, Copy, Debug, PartialEq, Eq, Structural)]
pub struct HeaderInfo {
    pub total_dmg: u64,
    pub elapsed_ms: i128,
    pub time_last_combat_packet_ms: u64,
}

/// The header: all zero before any damage, else the damage total, the
/// elapsed fight time and the time of the last combat packet.
pub fn get_header_info(encounter: &Encounter) -> (h: HeaderInfo)
    ensures
        encounter.dmg_stats.value == 0 ==> h == (HeaderInfo { total_dmg: 0, elapsed_ms: 0, time_last_combat_packet_ms: 0 }),
        encounter.dmg_stats.value != 0 ==> h == (HeaderInfo {
            total_dmg: encounter.dmg_stats.value,
            elapsed_ms: (encounter.time_last_combat_packet_ms - encounter.time_fight_start_ms) as i128,
            time_last_combat_packet_ms: encounter.time_last_combat_packet_ms,
        }),
{
    if encounter.dmg_stats.value == 0 {
        return HeaderInfo { total_dmg: 0, elapsed_ms: 0, time_last_combat_packet_ms: 0 };
    }
    HeaderInfo {
        total_dmg: encounter.dmg_stats.value,
        elapsed_ms: encounter.time_last_combat_packet_ms as i128 - encounter.time_fight_start_ms as i128,
        time_last_combat_packet_ms: encounter.time_last_combat_packet_ms,
    }
}

/// How many stored encounters a history listing returns: 200 when the
/// request is not positive, else the request capped at 1000.
pub fn history_limit(limit: i64) -> (n: i64)
    ensures
        n == (if limit <= 0 { 200 } else if limit < 1000 { limit } else { 1000 }),
{
    if limit <= 0 {
        200
    } else if limit < 1000 {
        limit
    } else {
        1000
    }
}

// --- laws -------------------------------------------------------------------------------

proof fn lemma_top_row_value(rows: Seq<PlayerRowView>)
    ensures
        forall|i: int| 0 <= i < rows.len() ==> rows[i].stats.value <= top_row_value(rows),
        rows.len() == 0 ==> top_row_value(rows) == 0,
        rows.len() > 0 ==> exists|i: int| 0 <= i < rows.len() && rows[i].stats.value == top_row_value(rows),
    decreases rows.len(),
{
    if rows.len() > 0 {
        let prev = rows.drop_last();
        lemma_top_row_value(prev);
        assert forall|i: int| 0 <= i < rows.len() implies rows[i].stats.value <= top_row_value(rows) by {
            if i < rows.len() - 1 {
                assert(rows[i] == prev[i]);
            }
        }
        if prev.len() > 0 && rows.last().stats.value <= top_row_value(prev) {
            let i = choose|i: int| 0 <= i < prev.len() && prev[i].stats.value == top_row_value(prev);
            assert(rows[i] == prev[i]);
        } else {
            assert(rows[rows.len() - 1] == rows.last());
        }
    }
}

/// A skill window is ranked: each skill line's total is at least the next one's.
pub proof fn lemma_skill_window_ranked(skills: Seq<(i32, CombatStats)>, p: Seq<usize>)
    requires
        is_stable_desc_order(skill_keys(skills), p),
    ensures
        forall|i: int, j: int|
            0 <= i < j < p.len() ==> (#[trigger] reordered(skill_rows_of(skills), p)[i]).stats.value >= (
            #[trigger] reordered(skill_rows_of(skills), p)[j]).stats.value,
{
    let r = reordered(skill_rows_of(skills), p);
    assert forall|i: int, j: int| 0 <= i < j < p.len() implies (#[trigger] r[i]).stats.value >= (
    #[trigger] r[j]).stats.value by {
        assert(precedes(skill_keys(skills), p[i] as int, p[j] as int));
    }
}

/// A players window is ranked: each row's total is at least the next one's,
/// and its top value is the first row's total (0 for an empty window).
pub proof fn lemma_window_ranked(rows: Seq<PlayerRowView>, p: Seq<usize>)
    requires
        is_stable_desc_order(row_keys(rows), p),
        rows.len() <= usize::MAX,
    ensures
        forall|i: int, j: int|
            0 <= i < j < p.len() ==> #[trigger] reordered(rows, p)[i].stats.value >= #[trigger] reordered(rows, p)[j].stats.value,
        p.len() == 0 ==> top_row_value(rows) == 0,
        p.len() > 0 ==> reordered(rows, p)[0].stats.value == top_row_value(rows),
{
    let r = reordered(rows, p);
    assert forall|i: int, j: int| 0 <= i < j < p.len() implies #[trigger] r[i].stats.value >= #[trigger] r[j].stats.value by {
        assert(precedes(row_keys(rows), p[i] as int, p[j] as int));
    }
    lemma_top_row_value(rows);
    if p.len() > 0 {
        let m = choose|m: int| 0 <= m < rows.len() && rows[m].stats.value == top_row_value(rows);
        assert(p.contains(m as usize));
        let t = choose|t: int| 0 <= t < p.len() && p[t] == m as usize;
        if t > 0 {
            assert(precedes(row_keys(rows), p[0] as int, p[t] as int));
            assert(row_keys(rows)[p[0] as int].0 == rows[p[0] as int].stats.value as i128);
            assert(row_keys(rows)[m].0 == rows[m].stats.value as i128);
        }
        assert(rows[p[0] as int].stats.value <= top_row_value(rows));
    }
}

proof fn lemma_uid_sum_remove(ps: Seq<PlayerTotalsView>, m: int)
    requires
        0 <= m < ps.len(),
    ensures
        uid_sum(ps) == uid_sum(ps.remove(m)) + uid_through_f64(ps[m].uid),
    decreases ps.len(),
{
    if m < ps.len() - 1 {
        lemma_uid_sum_remove(ps.drop_last(), m);
        assert(ps.remove(m).drop_last() =~= ps.drop_last().remove(m));
        assert(ps.remove(m).last() == ps.last());
    } else {
        assert(ps.remove(m) =~= ps.drop_last());
    }
}

/// `p` lists every position below `n` exactly once.
pub open spec fn is_permutation(p: Seq<usize>, n: nat) -> bool {
    &&& p.len() == n
    &&& p.no_duplicates()
    &&& forall|k: int| 0 <= k < p.len() ==> #[trigger] p[k] < n
}

proof fn lemma_uid_sum_reordered(ps: Seq<PlayerTotalsView>, p: Seq<usize>)
    requires
        is_permutation(p, ps.len()),
    ensures
        uid_sum(reordered(ps, p)) == uid_sum(ps),
    decreases ps.len(),
{
    if ps.len() > 0 {
        let m = p.last();
        let q = p.drop_last().map_values(|x: usize| if x > m { (x - 1) as usize } else { x });
        let rest = ps.remove(m as int);
        assert(p.drop_last().no_duplicates());
        assert forall|k: int| 0 <= k < p.drop_last().len() implies p.drop_last()[k] != m by {
            assert(p[k] != p[p.len() - 1]);
        }
        assert forall|a: int, b: int| 0 <= a < b < q.len() implies q[a] != q[b] by {
            assert(p[a] != p[b]);
            assert(p[a] != m && p[b] != m);
        }
        assert(is_permutation(q, rest.len()));
        lemma_uid_sum_reordered(rest, q);
        assert(reordered(ps, p).drop_last() =~= reordered(rest, q)) by {
            assert forall|k: int| 0 <= k < q.len() implies reordered(ps, p)[k] == reordered(rest, q)[k] by {
                assert(p[k] != m);
            }
        }
        assert(reordered(ps, p).last() == ps[m as int]);
        lemma_uid_sum_remove(ps, m as int);
    }
}

/// The report key does not depend on the order of the players: every party
/// member lists the same players in its own order and sends the same key.
pub proof fn lemma_report_key_order_independent(map_id: u32, ps: Seq<PlayerTotalsView>, p: Seq<usize>)
    requires
        is_permutation(p, ps.len()),
    ensures
        report_key(map_id, reordered(ps, p)) == report_key(map_id, ps),
{
    lemma_uid_sum_reordered(ps, p);
}

/// No two entities share a uid (as in a map keyed by uid).
pub open spec fn distinct_uids(es: Seq<Entity>) -> bool {
    forall|i: int, j: int| 0 <= i < j < es.len() ==> #[trigger] es[i].uid != #[trigger] es[j].uid
}

/// No two entries share a skill id (as in a map keyed by skill id).
pub open spec fn distinct_skill_ids(skills: Seq<(i32, CombatStats)>) -> bool {
    forall|i: int, j: int| 0 <= i < j < skills.len() ==> #[trigger] skills[i].0 != #[trigger] skills[j].0
}

/// With distinct uids, the entity found for a uid is the one entity that
/// has it: the lookup is the map lookup of a uid-keyed encounter.
pub proof fn lemma_find_entity_unique(es: Seq<Entity>, i: int)
    requires
        distinct_uids(es),
        0 <= i < es.len(),
    ensures
        find_entity(es, es[i].uid) == Some(es[i]),
    decreases es.len(),
{
    if i < es.len() - 1 {
        assert(es.last().uid != es[i].uid) by {
            assert(es[i].uid != es[es.len() - 1].uid);
        }
        let prev = es.drop_last();
        assert(distinct_uids(prev)) by {
            assert forall|a: int, b: int| 0 <= a < b < prev.len() implies #[trigger] prev[a].uid != #[trigger] prev[b].uid by {
                assert(es[a].uid != es[b].uid);
            }
        }
        assert(prev[i] == es[i]);
        lemma_find_entity_unique(prev, i);
    }
}

/// With distinct skill ids, the healing found for a skill is the healing of
/// the one entry that has it.
pub proof fn lemma_heal_value_unique(heals: Seq<(i32, CombatStats)>, i: int)
    requires
        distinct_skill_ids(heals),
        0 <= i < heals.len(),
    ensures
        heal_value(heals, heals[i].0) == Some(heals[i].1.value),
    decreases heals.len(),
{
    if i < heals.len() - 1 {
        assert(heals.last().0 != heals[i].0) by {
            assert(heals[i].0 != heals[heals.len() - 1].0);
        }
        let prev = heals.drop_last();
        assert(distinct_skill_ids(prev)) by {
            assert forall|a: int, b: int| 0 <= a < b < prev.len() implies #[trigger] prev[a].0 != #[trigger] prev[b].0 by {
                assert(heals[a].0 != heals[b].0);
            }
        }
        assert(prev[i] == heals[i]);
        lemma_heal_value_unique(prev, i);
    }
}

} // verus!
