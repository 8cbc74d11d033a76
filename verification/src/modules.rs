//! Gear-module data model: the attribute table, module categories and names,
//! per-module attribute vectors, and the parse of the player's container
//! snapshot into modules.
use crate::text::{int_decimal, push_decimal};
use std::collections::HashMap;
use vstd::prelude::*;

verus! {

/// Number of distinct module attributes (13 basic + 8 special "极").
pub const NUM_ATTRS: usize = 21;

/// Largest sum of absolute part values a module may carry in the optimizer:
/// `i32::MAX / 5`. A combination holds at most five modules and its
/// attribute sums and total are `i32`, so five such modules are exactly what
/// `i32` can hold without overflow.
pub const MAX_MODULE_MAGNITUDE: i64 = 429_496_729;

/// Static definition of a module attribute.
pub struct AttrDef {
    pub id: i32,
    /// English label.
    pub name: &'static str,
    /// Chinese label (the in-game name).
    pub name_cn: &'static str,
    /// `true` for the special "极-" attributes, which use a different power
    /// curve than the basic attributes.
    pub special: bool,
}

/// Attribute id of canonical slot `slot`.
pub open spec fn attr_id_of(slot: int) -> i32 {
    if slot == 0 {
        1110i32
    } else if slot == 1 {
        1111i32
    } else if slot == 2 {
        1112i32
    } else if slot == 3 {
        1113i32
    } else if slot == 4 {
        1114i32
    } else if slot == 5 {
        1205i32
    } else if slot == 6 {
        1206i32
    } else if slot == 7 {
        1307i32
    } else if slot == 8 {
        1308i32
    } else if slot == 9 {
        1407i32
    } else if slot == 10 {
        1408i32
    } else if slot == 11 {
        1409i32
    } else if slot == 12 {
        1410i32
    } else if slot == 13 {
        2104i32
    } else if slot == 14 {
        2105i32
    } else if slot == 15 {
        2204i32
    } else if slot == 16 {
        2205i32
    } else if slot == 17 {
        2304i32
    } else if slot == 18 {
        2404i32
    } else if slot == 19 {
        2405i32
    } else {
        2406i32
    }
}

/// English name of canonical slot `slot`.
pub open spec fn attr_name_of(slot: int) -> Seq<char> {
    if slot == 0 {
        "Strength Boost"@
    } else if slot == 1 {
        "Agility Boost"@
    } else if slot == 2 {
        "Intellect Boost"@
    } else if slot == 3 {
        "Special Attack"@
    } else if slot == 4 {
        "Elite Strike"@
    } else if slot == 5 {
        "Healing Boost"@
    } else if slot == 6 {
        "Healing Enhance"@
    } else if slot == 7 {
        "Resistance"@
    } else if slot == 8 {
        "Armor"@
    } else if slot == 9 {
        "Cast Focus"@
    } else if slot == 10 {
        "Attack SPD"@
    } else if slot == 11 {
        "Crit Focus"@
    } else if slot == 12 {
        "Luck Focus"@
    } else if slot == 13 {
        "DMG Stack"@
    } else if slot == 14 {
        "Agile"@
    } else if slot == 15 {
        "Life Condense"@
    } else if slot == 16 {
        "First Aid"@
    } else if slot == 17 {
        "Final Protection"@
    } else if slot == 18 {
        "Life Wave"@
    } else if slot == 19 {
        "Life Steal"@
    } else {
        "Team Luck&Crit"@
    }
}

/// Chinese name of canonical slot `slot`.
pub open spec fn attr_name_cn_of(slot: int) -> Seq<char> {
    if slot == 0 {
        "力量加持"@
    } else if slot == 1 {
        "敏捷加持"@
    } else if slot == 2 {
        "智力加持"@
    } else if slot == 3 {
        "特攻伤害"@
    } else if slot == 4 {
        "精英打击"@
    } else if slot == 5 {
        "特攻治疗加持"@
    } else if slot == 6 {
        "专精治疗加持"@
    } else if slot == 7 {
        "抵御魔法"@
    } else if slot == 8 {
        "抵御物理"@
    } else if slot == 9 {
        "施法专注"@
    } else if slot == 10 {
        "攻速专注"@
    } else if slot == 11 {
        "暴击专注"@
    } else if slot == 12 {
        "幸运专注"@
    } else if slot == 13 {
        "极-伤害叠加"@
    } else if slot == 14 {
        "极-灵活身法"@
    } else if slot == 15 {
        "极-生命凝聚"@
    } else if slot == 16 {
        "极-急救措施"@
    } else if slot == 17 {
        "极-绝境守护"@
    } else if slot == 18 {
        "极-生命波动"@
    } else if slot == 19 {
        "极-生命汲取"@
    } else {
        "极-全队幸暴"@
    }
}

/// Slots 13..=20 are the special "极" attributes.
pub open spec fn attr_is_special(slot: int) -> bool {
    slot >= 13
}

/// The attribute in canonical slot `slot` (the fixed order of the table).
pub fn attr_def(slot: usize) -> (d: AttrDef)
    requires
        slot < NUM_ATTRS,
    ensures
        d.id == attr_id_of(slot as int),
        d.name@ == attr_name_of(slot as int),
        d.name_cn@ == attr_name_cn_of(slot as int),
        d.special == attr_is_special(slot as int),
{
    if slot == 0 {
        AttrDef { id: 1110, name: "Strength Boost", name_cn: "力量加持", special: false }
    } else if slot == 1 {
        AttrDef { id: 1111, name: "Agility Boost", name_cn: "敏捷加持", special: false }
    } else if slot == 2 {
        AttrDef { id: 1112, name: "Intellect Boost", name_cn: "智力加持", special: false }
    } else if slot == 3 {
        AttrDef { id: 1113, name: "Special Attack", name_cn: "特攻伤害", special: false }
    } else if slot == 4 {
        AttrDef { id: 1114, name: "Elite Strike", name_cn: "精英打击", special: false }
    } else if slot == 5 {
        AttrDef { id: 1205, name: "Healing Boost", name_cn: "特攻治疗加持", special: false }
    } else if slot == 6 {
        AttrDef { id: 1206, name: "Healing Enhance", name_cn: "专精治疗加持", special: false }
    } else if slot == 7 {
        AttrDef { id: 1307, name: "Resistance", name_cn: "抵御魔法", special: false }
    } else if slot == 8 {
        AttrDef { id: 1308, name: "Armor", name_cn: "抵御物理", special: false }
    } else if slot == 9 {
        AttrDef { id: 1407, name: "Cast Focus", name_cn: "施法专注", special: false }
    } else if slot == 10 {
        AttrDef { id: 1408, name: "Attack SPD", name_cn: "攻速专注", special: false }
    } else if slot == 11 {
        AttrDef { id: 1409, name: "Crit Focus", name_cn: "暴击专注", special: false }
    } else if slot == 12 {
        AttrDef { id: 1410, name: "Luck Focus", name_cn: "幸运专注", special: false }
    } else if slot == 13 {
        AttrDef { id: 2104, name: "DMG Stack", name_cn: "极-伤害叠加", special: true }
    } else if slot == 14 {
        AttrDef { id: 2105, name: "Agile", name_cn: "极-灵活身法", special: true }
    } else if slot == 15 {
        AttrDef { id: 2204, name: "Life Condense", name_cn: "极-生命凝聚", special: true }
    } else if slot == 16 {
        AttrDef { id: 2205, name: "First Aid", name_cn: "极-急救措施", special: true }
    } else if slot == 17 {
        AttrDef { id: 2304, name: "Final Protection", name_cn: "极-绝境守护", special: true }
    } else if slot == 18 {
        AttrDef { id: 2404, name: "Life Wave", name_cn: "极-生命波动", special: true }
    } else if slot == 19 {
        AttrDef { id: 2405, name: "Life Steal", name_cn: "极-生命汲取", special: true }
    } else {
        AttrDef { id: 2406, name: "Team Luck&Crit", name_cn: "极-全队幸暴", special: true }
    }
}

/// First slot at or after `from` whose attribute id is `id`, or -1.
pub open spec fn slot_search(id: i32, from: int) -> int
    decreases 21 - from,
{
    if from >= 21 || from < 0 {
        -1
    } else if attr_id_of(from) == id {
        from
    } else {
        slot_search(id, from + 1)
    }
}

/// Canonical slot of attribute `id`, or -1 when `id` is not a known attribute.
pub open spec fn slot_of_id(id: i32) -> int {
    slot_search(id, 0)
}

/// Map an attribute id to its canonical slot, if it is a known attribute.
pub fn attr_slot(id: i32) -> (r: Option<usize>)
    ensures
        r == (if slot_of_id(id) >= 0 { Some(slot_of_id(id) as usize) } else { None::<usize> }),
        r matches Some(s) ==> s < NUM_ATTRS && attr_id_of(s as int) == id,
{
    let mut i: usize = 0;
    while i < NUM_ATTRS
        invariant
            i <= NUM_ATTRS,
            slot_search(id, 0) == slot_search(id, i as int),
        decreases NUM_ATTRS - i,
    {
        if attr_def(i).id == id {
            return Some(i);
        }
        i = i + 1;
    }
    None
}

proof fn lemma_slot_search_range(id: i32, from: int)
    requires
        0 <= from,
    ensures
        -1 <= slot_search(id, from) < 21,
        slot_search(id, from) >= 0 ==> attr_id_of(slot_search(id, from)) == id,
    decreases 21 - from,
{
    if from < 21 && attr_id_of(from) != id {
        lemma_slot_search_range(id, from + 1);
    }
}

/// Facts about [`slot_of_id`]: it is a slot or -1, and names `id`'s slot.
pub proof fn lemma_slot_of_id(id: i32)
    ensures
        -1 <= slot_of_id(id) < 21,
        slot_of_id(id) >= 0 ==> attr_id_of(slot_of_id(id)) == id,
{
    lemma_slot_search_range(id, 0);
}

/// Attribute metadata for the attribute pickers.
pub struct AttrMeta {
    pub id: i32,
    pub name: String,
    pub name_cn: String,
    pub special: bool,
}

/// The full list of selectable attributes, in canonical order.
pub fn attribute_list() -> (list: Vec<AttrMeta>)
    ensures
        list.len() == NUM_ATTRS,
        forall|i: int|
            0 <= i < NUM_ATTRS ==> {
                &&& (#[trigger] list[i]).id == attr_id_of(i)
                &&& list[i].name@ == attr_name_of(i)
                &&& list[i].name_cn@ == attr_name_cn_of(i)
                &&& list[i].special == attr_is_special(i)
            },
{
    let mut list: Vec<AttrMeta> = Vec::new();
    let mut i: usize = 0;
    while i < NUM_ATTRS
        invariant
            i <= NUM_ATTRS,
            list.len() == i,
            forall|k: int|
                0 <= k < i ==> {
                    &&& (#[trigger] list[k]).id == attr_id_of(k)
                    &&& list[k].name@ == attr_name_of(k)
                    &&& list[k].name_cn@ == attr_name_cn_of(k)
                    &&& list[k].special == attr_is_special(k)
                },
        decreases NUM_ATTRS - i,
    {
        let a = attr_def(i);
        list.push(
            AttrMeta {
                id: a.id,
                name: String::from_str(a.name),
                name_cn: String::from_str(a.name_cn),
                special: a.special,
            },
        );
        i = i + 1;
    }
    list
}

/// Module category, derived from the module's `config_id`.
#[derive(Debug, Clone, Copy, PartialEq, Eq, Structural)]
pub enum ModuleCategory {
    Attack,
    Guardian,
    Support,
}

/// The name of a category.
pub open spec fn category_name(c: ModuleCategory) -> Seq<char> {
    match c {
        ModuleCategory::Attack => "Attack"@,
        ModuleCategory::Guardian => "Guardian"@,
        ModuleCategory::Support => "Support"@,
    }
}

impl ModuleCategory {
    pub fn as_str(self) -> (s: &'static str)
        ensures
            s@ == category_name(self),
    {
        match self {
            ModuleCategory::Attack => "Attack",
            ModuleCategory::Guardian => "Guardian",
            ModuleCategory::Support => "Support",
        }
    }
}

/// Name and category of the twelve known module configs.
pub open spec fn known_module(config_id: i32) -> Option<(Seq<char>, ModuleCategory)> {
    if config_id == 5500101 {
        Some(("Basic Attack Module"@, ModuleCategory::Attack))
    } else if config_id == 5500102 {
        Some(("Advanced Attack Module"@, ModuleCategory::Attack))
    } else if config_id == 5500103 {
        Some(("Excellent Attack Module"@, ModuleCategory::Attack))
    } else if config_id == 5500104 {
        Some(("Excellent Attack Module (Preferred)"@, ModuleCategory::Attack))
    } else if config_id == 5500201 {
        Some(("Basic Healing Module"@, ModuleCategory::Support))
    } else if config_id == 5500202 {
        Some(("Advanced Healing Module"@, ModuleCategory::Support))
    } else if config_id == 5500203 {
        Some(("Excellent Support Module"@, ModuleCategory::Support))
    } else if config_id == 5500204 {
        Some(("Excellent Support Module (Preferred)"@, ModuleCategory::Support))
    } else if config_id == 5500301 {
        Some(("Basic Guard Module"@, ModuleCategory::Guardian))
    } else if config_id == 5500302 {
        Some(("Advanced Guard Module"@, ModuleCategory::Guardian))
    } else if config_id == 5500303 {
        Some(("Excellent Guard Module"@, ModuleCategory::Guardian))
    } else if config_id == 5500304 {
        Some(("Excellent Guard Module (Preferred)"@, ModuleCategory::Guardian))
    } else {
        None
    }
}

/// Display name of a module config: the known name, else
/// `"Unknown Module (<id>)"`.
pub open spec fn module_name(config_id: i32) -> Seq<char> {
    match known_module(config_id) {
        Some(k) => k.0,
        None => "Unknown Module ("@ + int_decimal(config_id as int) + ")"@,
    }
}

/// Category of a module config: the known category, else the one named by
/// the family digit `(config_id / 100) % 10` (2 = Support, 3 = Guardian,
/// anything else = Attack; Rust's truncating division, so a negative id is
/// never Support or Guardian).
pub open spec fn module_category(config_id: i32) -> ModuleCategory {
    match known_module(config_id) {
        Some(k) => k.1,
        None => if config_id >= 0 && (config_id / 100) % 10 == 2 {
            ModuleCategory::Support
        } else if config_id >= 0 && (config_id / 100) % 10 == 3 {
            ModuleCategory::Guardian
        } else {
            ModuleCategory::Attack
        },
    }
}

/// A module's category agrees with its family digit `(config_id / 100) % 10`
/// for every config id that is not negative, known or not: 2 is Support, 3 is
/// Guardian and any other digit Attack. Every known config's family digit is
/// 1 (Attack), 2 (Support) or 3 (Guardian).
pub proof fn lemma_category_follows_family(config_id: i32)
    ensures
        config_id >= 0 ==> module_category(config_id) == (if (config_id / 100) % 10 == 2 {
            ModuleCategory::Support
        } else if (config_id / 100) % 10 == 3 {
            ModuleCategory::Guardian
        } else {
            ModuleCategory::Attack
        }),
        known_module(config_id) is Some ==> config_id >= 0 && 1 <= (config_id / 100) % 10 <= 3,
{
}

/// Resolve a module's English name and category from its `config_id`.
pub fn name_and_category(config_id: i32) -> (r: (String, ModuleCategory))
    ensures
        r.0@ == module_name(config_id),
        r.1 == module_category(config_id),
{
    let known: Option<(&'static str, ModuleCategory)> = if config_id == 5500101 {
        Some(("Basic Attack Module", ModuleCategory::Attack))
    } else if config_id == 5500102 {
        Some(("Advanced Attack Module", ModuleCategory::Attack))
    } else if config_id == 5500103 {
        Some(("Excellent Attack Module", ModuleCategory::Attack))
    } else if config_id == 5500104 {
        Some(("Excellent Attack Module (Preferred)", ModuleCategory::Attack))
    } else if config_id == 5500201 {
        Some(("Basic Healing Module", ModuleCategory::Support))
    } else if config_id == 5500202 {
        Some(("Advanced Healing Module", ModuleCategory::Support))
    } else if config_id == 5500203 {
        Some(("Excellent Support Module", ModuleCategory::Support))
    } else if config_id == 5500204 {
        Some(("Excellent Support Module (Preferred)", ModuleCategory::Support))
    } else if config_id == 5500301 {
        Some(("Basic Guard Module", ModuleCategory::Guardian))
    } else if config_id == 5500302 {
        Some(("Advanced Guard Module", ModuleCategory::Guardian))
    } else if config_id == 5500303 {
        Some(("Excellent Guard Module", ModuleCategory::Guardian))
    } else if config_id == 5500304 {
        Some(("Excellent Guard Module (Preferred)", ModuleCategory::Guardian))
    } else {
        None
    };
    match known {
        Some((name, category)) => (String::from_str(name), category),
        None => {
            let family: i32 = if config_id >= 0 { (config_id / 100) % 10 } else { -1 };
            let category = if family == 2 {
                ModuleCategory::Support
            } else if family == 3 {
                ModuleCategory::Guardian
            } else {
                ModuleCategory::Attack
            };
            let mut name = String::from_str("Unknown Module (");
            push_decimal(&mut name, config_id as i128);
            name.append(")");
            (name, category)
        },
    }
}

/// One attribute roll on a module.
pub struct ModulePart {
    pub id: i32,
    pub name: String,
    pub value: i32,
    pub special: bool,
}

/// A parsed gear module.
pub struct ModuleInfo {
    /// Unique item id, in decimal.
    pub uuid: String,
    pub config_id: i32,
    pub name: String,
    pub category: ModuleCategory,
    pub quality: i32,
    pub parts: Vec<ModulePart>,
}

/// Sum of `value` over the parts whose attribute sits in `slot`.
pub open spec fn slot_total(parts: Seq<ModulePart>, slot: int) -> int
    decreases parts.len(),
{
    if parts.len() == 0 {
        0
    } else {
        slot_total(parts.drop_last(), slot) + (if slot_of_id(parts.last().id) == slot {
            parts.last().value as int
        } else {
            0
        })
    }
}

/// Sum of `value` over all parts.
pub open spec fn parts_total(parts: Seq<ModulePart>) -> int
    decreases parts.len(),
{
    if parts.len() == 0 {
        0
    } else {
        parts_total(parts.drop_last()) + parts.last().value as int
    }
}

/// Sum of `|value|` over all parts.
pub open spec fn parts_magnitude(parts: Seq<ModulePart>) -> int
    decreases parts.len(),
{
    if parts.len() == 0 {
        0
    } else {
        parts_magnitude(parts.drop_last()) + (if parts.last().value < 0 {
            -(parts.last().value as int)
        } else {
            parts.last().value as int
        })
    }
}

/// The module's parts carry at most [`MAX_MODULE_MAGNITUDE`] in absolute
/// value, so any five such modules can be summed in `i32`.
pub open spec fn module_in_range(m: &ModuleInfo) -> bool {
    parts_magnitude(m.parts@) <= MAX_MODULE_MAGNITUDE
}

/// Adding the parts one by one, no attribute slot's running sum leaves
/// `i32` (what [`ModuleInfo::attr_vector`] needs).
pub open spec fn slot_sums_fit(parts: Seq<ModulePart>) -> bool {
    forall|i: int, s: int|
        0 <= i <= parts.len() && 0 <= s < 21 ==> i32::MIN <= #[trigger] slot_total(parts.take(i), s) <= i32::MAX
}

/// Adding the parts one by one, the running total never leaves `i32` (what
/// [`ModuleInfo::total_value`] needs).
pub open spec fn total_sums_fit(parts: Seq<ModulePart>) -> bool {
    forall|i: int| 0 <= i <= parts.len() ==> i32::MIN <= #[trigger] parts_total(parts.take(i)) <= i32::MAX
}

/// A module within the optimizer's bound has no running sum overflow.
pub proof fn lemma_in_range_sums_fit(m: &ModuleInfo)
    requires
        module_in_range(m),
    ensures
        slot_sums_fit(m.parts@),
        total_sums_fit(m.parts@),
{
    assert forall|i: int, s: int| 0 <= i <= m.parts@.len() && 0 <= s < 21 implies i32::MIN <= #[trigger] slot_total(
        m.parts@.take(i),
        s,
    ) <= i32::MAX by {
        lemma_prefix_magnitude(m.parts@, i);
        lemma_part_sums_bounded(m.parts@.take(i));
    }
    assert forall|i: int| 0 <= i <= m.parts@.len() implies i32::MIN <= #[trigger] parts_total(m.parts@.take(i))
        <= i32::MAX by {
        lemma_prefix_magnitude(m.parts@, i);
        lemma_part_sums_bounded(m.parts@.take(i));
    }
}

/// Dense attribute vector of a part list, indexed by canonical slot.
pub open spec fn attr_vector_of(parts: Seq<ModulePart>) -> Seq<i32> {
    Seq::new(NUM_ATTRS as nat, |s: int| slot_total(parts, s) as i32)
}

/// Bounds: every slot total and the overall total lie within the magnitude.
pub proof fn lemma_part_sums_bounded(parts: Seq<ModulePart>)
    ensures
        parts_magnitude(parts) >= 0,
        -parts_magnitude(parts) <= parts_total(parts) <= parts_magnitude(parts),
        forall|s: int|
            -parts_magnitude(parts) <= #[trigger] slot_total(parts, s) <= parts_magnitude(parts),
    decreases parts.len(),
{
    if parts.len() > 0 {
        lemma_part_sums_bounded(parts.drop_last());
        assert forall|s: int|
            -parts_magnitude(parts) <= #[trigger] slot_total(parts, s) <= parts_magnitude(parts) by {
            assert(slot_total(parts, s) == slot_total(parts.drop_last(), s) + (if slot_of_id(
                parts.last().id,
            ) == s {
                parts.last().value as int
            } else {
                0
            }));
        }
    }
}

/// The magnitude of a prefix is at most that of the whole part list.
pub proof fn lemma_prefix_magnitude(parts: Seq<ModulePart>, i: int)
    requires
        0 <= i <= parts.len(),
    ensures
        parts_magnitude(parts.take(i)) <= parts_magnitude(parts),
    decreases parts.len() - i,
{
    if i < parts.len() {
        lemma_prefix_magnitude(parts, i + 1);
        assert(parts.take(i + 1).drop_last() =~= parts.take(i));
        lemma_part_sums_bounded(parts.take(i));
    } else {
        assert(parts.take(i) =~= parts);
    }
}

impl ModuleInfo {
    /// Dense attribute vector indexed by canonical slot.
    pub fn attr_vector(&self) -> (v: [i32; 21])
        requires
            slot_sums_fit(self.parts@),
        ensures
            v@ == attr_vector_of(self.parts@),
    {
        let mut v = [0i32; 21];
        let mut i: usize = 0;
        while i < self.parts.len()
            invariant
                i <= self.parts.len(),
                slot_sums_fit(self.parts@),
                forall|s: int| 0 <= s < 21 ==> #[trigger] v@[s] == slot_total(self.parts@.take(i as int), s),
            decreases self.parts.len() - i,
        {
            let part = &self.parts[i];
            proof {
                assert(self.parts@.take(i + 1).drop_last() =~= self.parts@.take(i as int));
                assert(self.parts@.take(i + 1).last() == self.parts@[i as int]);
            }
            if let Some(slot) = attr_slot(part.id) {
                let cur = v[slot];
                proof {
                    assert(cur == v@[slot as int]);
                    lemma_slot_of_id(part.id);
                    assert(slot_of_id(part.id) == slot as int);
                    assert(slot_total(self.parts@.take(i + 1), slot as int) == slot_total(
                        self.parts@.take(i as int),
                        slot as int,
                    ) + part.value);
                    assert(i32::MIN <= slot_total(self.parts@.take(i + 1), slot as int) <= i32::MAX);
                }
                v[slot] = cur + part.value;
            }
            i = i + 1;
            proof {
                assert forall|s: int| 0 <= s < 21 implies #[trigger] v@[s] == slot_total(
                    self.parts@.take(i as int),
                    s,
                ) by {
                    assert(slot_total(self.parts@.take(i as int), s) == slot_total(
                        self.parts@.take(i - 1),
                        s,
                    ) + (if slot_of_id(self.parts@[i - 1].id) == s {
                        self.parts@[i - 1].value as int
                    } else {
                        0
                    }));
                }
            }
        }
        proof {
            assert(self.parts@.take(self.parts.len() as int) =~= self.parts@);
            assert(v@ =~= attr_vector_of(self.parts@));
        }
        v
    }

    /// Whether the module's values are small enough for the optimizer (see
    /// [`module_in_range`]).
    pub fn in_range(&self) -> (b: bool)
        ensures
            b == module_in_range(self),
    {
        let mut acc: i64 = 0;
        let mut i: usize = 0;
        while i < self.parts.len()
            invariant
                i <= self.parts.len(),
                acc == parts_magnitude(self.parts@.take(i as int)),
                acc <= MAX_MODULE_MAGNITUDE,
            decreases self.parts.len() - i,
        {
            let v = self.parts[i].value as i64;
            let a: i64 = if v < 0 { -v } else { v };
            assert(self.parts@.take(i + 1).drop_last() =~= self.parts@.take(i as int));
            acc = acc + a;
            i = i + 1;
            if acc > MAX_MODULE_MAGNITUDE {
                proof {
                    lemma_prefix_magnitude(self.parts@, i as int);
                }
                return false;
            }
        }
        assert(self.parts@.take(self.parts.len() as int) =~= self.parts@);
        true
    }

    /// Sum of all attribute values on this module.
    pub fn total_value(&self) -> (t: i32)
        requires
            total_sums_fit(self.parts@),
        ensures
            t == parts_total(self.parts@),
    {
        let mut t: i32 = 0;
        let mut i: usize = 0;
        while i < self.parts.len()
            invariant
                i <= self.parts.len(),
                total_sums_fit(self.parts@),
                t == parts_total(self.parts@.take(i as int)),
            decreases self.parts.len() - i,
        {
            proof {
                assert(self.parts@.take(i + 1).drop_last() =~= self.parts@.take(i as int));
                assert(i32::MIN <= parts_total(self.parts@.take(i + 1)) <= i32::MAX);
            }
            t = t + self.parts[i].value;
            i = i + 1;
        }
        proof {
            assert(self.parts@.take(self.parts.len() as int) =~= self.parts@);
        }
        t
    }
}


/// Mathematical value of a [`ModulePart`].
pub struct ModulePartView {
    pub id: i32,
    pub name: Seq<char>,
    pub value: i32,
    pub special: bool,
}

impl View for ModulePart {
    type V = ModulePartView;

    open spec fn view(&self) -> ModulePartView {
        ModulePartView { id: self.id, name: self.name@, value: self.value, special: self.special }
    }
}

/// Mathematical value of a [`ModuleInfo`].
pub struct ModuleInfoView {
    pub uuid: Seq<char>,
    pub config_id: i32,
    pub name: Seq<char>,
    pub category: ModuleCategory,
    pub quality: i32,
    pub parts: Seq<ModulePartView>,
}

impl View for ModuleInfo {
    type V = ModuleInfoView;

    open spec fn view(&self) -> ModuleInfoView {
        ModuleInfoView {
            uuid: self.uuid@,
            config_id: self.config_id,
            name: self.name@,
            category: self.category,
            quality: self.quality,
            parts: self.parts@.map_values(|p: ModulePart| p@),
        }
    }
}

fn copy_string(s: &String) -> (r: String)
    ensures
        r@ == s@,
{
    String::from_str(s.as_str())
}

/// A copy of a module part.
pub fn copy_part(p: &ModulePart) -> (r: ModulePart)
    ensures
        r@ == p@,
{
    ModulePart { id: p.id, name: copy_string(&p.name), value: p.value, special: p.special }
}

/// A copy of a module.
pub fn copy_module(m: &ModuleInfo) -> (r: ModuleInfo)
    ensures
        r@ == m@,
{
    let mut parts: Vec<ModulePart> = Vec::new();
    let mut i: usize = 0;
    while i < m.parts.len()
        invariant
            i <= m.parts.len(),
            parts@.map_values(|p: ModulePart| p@) == m.parts@.take(i as int).map_values(|p: ModulePart| p@),
        decreases m.parts.len() - i,
    {
        let ghost before = parts@;
        parts.push(copy_part(&m.parts[i]));
        i = i + 1;
        proof {
            assert(parts@.map_values(|p: ModulePart| p@) =~= before.map_values(|p: ModulePart| p@).push(m.parts@[i - 1]@));
            assert(m.parts@.take(i as int).map_values(|p: ModulePart| p@) =~= m.parts@.take(i - 1).map_values(|p: ModulePart| p@).push(m.parts@[i - 1]@));
        }
    }
    assert(m.parts@.take(m.parts.len() as int) =~= m.parts@);
    let r = ModuleInfo {
        uuid: copy_string(&m.uuid),
        config_id: m.config_id,
        name: copy_string(&m.name),
        category: m.category,
        quality: m.quality,
        parts,
    };
    assert(r@ =~= m@);
    r
}


// --- container snapshot -------------------------------------------------------------

/// One item of an item package, as far as the module parse reads it.
pub struct PackageItem {
    pub config_id: i32,
    pub quality: i32,
    /// The attribute ids of the item's module parts, when it is a module.
    pub mod_parts: Option<Vec<i32>>,
}

/// The module data of the snapshot: each module item's rolled values.
pub struct ModData {
    /// Item key → `init_link_nums`, the value of each part in order.
    pub mod_infos: HashMap<i64, Vec<i32>>,
}

/// The item packages of the snapshot: each package's items, with their keys,
/// in the order the packages and their items are walked.
pub struct ItemPackage {
    pub packages: Vec<Vec<(i64, PackageItem)>>,
}

/// The character data of the snapshot that the module parse reads.
pub struct CharData {
    pub mod_data: Option<ModData>,
    pub item_package: Option<ItemPackage>,
}

/// The local player's container snapshot, as far as the module parse reads it.
pub struct ContainerSnapshot {
    pub v_data: Option<CharData>,
}

/// The values rolled for item `key`: its `init_link_nums`, or none.
pub open spec fn links_for(infos: Map<i64, Vec<i32>>, key: i64) -> Seq<i32> {
    if infos.contains_key(key) {
        infos[key]@
    } else {
        Seq::empty()
    }
}

/// The known-attribute parts among the first `n` of `(mod_parts[i], links[i])`.
pub open spec fn parts_of(mod_parts: Seq<i32>, links: Seq<i32>, n: int) -> Seq<ModulePartView>
    decreases n,
{
    if n <= 0 {
        Seq::empty()
    } else {
        let prev = parts_of(mod_parts, links, n - 1);
        let s = slot_of_id(mod_parts[n - 1]);
        if s >= 0 {
            prev.push(
                ModulePartView {
                    id: mod_parts[n - 1],
                    name: attr_name_of(s),
                    value: links[n - 1],
                    special: attr_is_special(s),
                },
            )
        } else {
            prev
        }
    }
}

/// The module item `key` describes: none unless it has module parts of which
/// at least one (paired with a rolled value) is a known attribute.
pub open spec fn module_of(key: i64, item: &PackageItem, infos: Map<i64, Vec<i32>>) -> Option<ModuleInfoView> {
    match item.mod_parts {
        None => None,
        Some(mp) => {
            let links = links_for(infos, key);
            let n = if mp@.len() <= links.len() { mp@.len() as int } else { links.len() as int };
            let parts = parts_of(mp@, links, n);
            if mp@.len() == 0 || parts.len() == 0 {
                None
            } else {
                Some(
                    ModuleInfoView {
                        uuid: int_decimal(key as int),
                        config_id: item.config_id,
                        name: module_name(item.config_id),
                        category: module_category(item.config_id),
                        quality: item.quality,
                        parts,
                    },
                )
            }
        },
    }
}

/// The modules of a package's items, in order.
pub open spec fn modules_of_items(items: Seq<(i64, PackageItem)>, infos: Map<i64, Vec<i32>>) -> Seq<ModuleInfoView>
    decreases items.len(),
{
    if items.len() == 0 {
        Seq::empty()
    } else {
        let prev = modules_of_items(items.drop_last(), infos);
        match module_of(items.last().0, &items.last().1, infos) {
            Some(m) => prev.push(m),
            None => prev,
        }
    }
}

/// The modules of all packages, package by package.
pub open spec fn modules_of_packages(pkgs: Seq<Vec<(i64, PackageItem)>>, infos: Map<i64, Vec<i32>>) -> Seq<ModuleInfoView>
    decreases pkgs.len(),
{
    if pkgs.len() == 0 {
        Seq::empty()
    } else {
        modules_of_packages(pkgs.drop_last(), infos) + modules_of_items(pkgs.last()@, infos)
    }
}

/// The modules a snapshot describes: none unless it has character data with
/// both module data and an item package.
pub open spec fn parsed_modules(snap: &ContainerSnapshot) -> Seq<ModuleInfoView> {
    match snap.v_data {
        None => Seq::empty(),
        Some(v) => match v.mod_data {
            None => Seq::empty(),
            Some(md) => match v.item_package {
                None => Seq::empty(),
                Some(ip) => modules_of_packages(ip.packages@, md.mod_infos@),
            },
        },
    }
}

fn module_from_item(key: i64, item: &PackageItem, infos: &HashMap<i64, Vec<i32>>) -> (r: Option<ModuleInfo>)
    ensures
        match r {
            None => module_of(key, item, infos@) is None,
            Some(m) => module_of(key, item, infos@) == Some(m@),
        },
{
    broadcast use vstd::std_specs::hash::group_hash_axioms;

    let mp = match &item.mod_parts {
        None => return None,
        Some(mp) => mp,
    };
    if mp.len() == 0 {
        return None;
    }
    let empty: Vec<i32> = Vec::new();
    let links: &Vec<i32> = match infos.get(&key) {
        Some(l) => l,
        None => &empty,
    };
    assert(links@ == links_for(infos@, key));
    let n = if mp.len() <= links.len() { mp.len() } else { links.len() };
    let mut parts: Vec<ModulePart> = Vec::new();
    let mut i: usize = 0;
    while i < n
        invariant
            i <= n,
            n <= mp.len(),
            n <= links.len(),
            parts@.map_values(|p: ModulePart| p@) == parts_of(mp@, links@, i as int),
        decreases n - i,
    {
        let part_id = mp[i];
        proof {
            lemma_slot_of_id(part_id);
        }
        match attr_slot(part_id) {
            Some(slot) => {
                let def = attr_def(slot);
                let ghost before = parts@;
                parts.push(ModulePart { id: part_id, name: String::from_str(def.name), value: links[i], special: def.special });
                proof {
                    assert(parts@.map_values(|p: ModulePart| p@) =~= before.map_values(|p: ModulePart| p@).push(parts@.last()@));
                }
            },
            None => {},
        }
        i = i + 1;
    }
    if parts.len() == 0 {
        assert(parts@.map_values(|p: ModulePart| p@).len() == 0);
        return None;
    }
    let (name, category) = name_and_category(item.config_id);
    let mut uuid = String::new();
    push_decimal(&mut uuid, key as i128);
    assert(uuid@ =~= int_decimal(key as int));
    let m = ModuleInfo { uuid, config_id: item.config_id, name, category, quality: item.quality, parts };
    assert(m@ =~= module_of(key, item, infos@).unwrap());
    Some(m)
}

/// Parse all gear modules from the local player's container snapshot.
pub fn parse_modules(snapshot: &ContainerSnapshot) -> (modules: Vec<ModuleInfo>)
    ensures
        modules@.map_values(|m: ModuleInfo| m@) == parsed_modules(snapshot),
{
    let mut modules: Vec<ModuleInfo> = Vec::new();
    let v_data = match &snapshot.v_data {
        None => {
            assert(modules@.map_values(|m: ModuleInfo| m@) =~= Seq::<ModuleInfoView>::empty());
            return modules;
        },
        Some(v) => v,
    };
    let mod_data = match &v_data.mod_data {
        None => {
            assert(modules@.map_values(|m: ModuleInfo| m@) =~= Seq::<ModuleInfoView>::empty());
            return modules;
        },
        Some(m) => m,
    };
    let mod_infos = &mod_data.mod_infos;
    let item_package = match &v_data.item_package {
        None => {
            assert(modules@.map_values(|m: ModuleInfo| m@) =~= Seq::<ModuleInfoView>::empty());
            return modules;
        },
        Some(p) => p,
    };
    let pkgs = &item_package.packages;
    let mut pi: usize = 0;
    while pi < pkgs.len()
        invariant
            pi <= pkgs.len(),
            modules@.map_values(|m: ModuleInfo| m@) == modules_of_packages(pkgs@.take(pi as int), mod_infos@),
        decreases pkgs.len() - pi,
    {
        let items = &pkgs[pi];
        let ghost base = modules@.map_values(|m: ModuleInfo| m@);
        let mut ii: usize = 0;
        while ii < items.len()
            invariant
                ii <= items.len(),
                modules@.map_values(|m: ModuleInfo| m@) == base + modules_of_items(items@.take(ii as int), mod_infos@),
            decreases items.len() - ii,
        {
            let (key, item) = &items[ii];
            let ghost mv0 = modules@.map_values(|m: ModuleInfo| m@);
            proof {
                assert(items@.take(ii + 1).drop_last() =~= items@.take(ii as int));
                assert(items@.take(ii + 1).last() == items@[ii as int]);
            }
            match module_from_item(*key, item, mod_infos) {
                Some(m) => {
                    let ghost mvv = m@;
                    modules.push(m);
                    proof {
                        assert(modules@.map_values(|m: ModuleInfo| m@) =~= mv0.push(mvv));
                        assert(base + modules_of_items(items@.take(ii + 1), mod_infos@) =~= (base + modules_of_items(items@.take(ii as int), mod_infos@)).push(mvv));
                    }
                },
                None => {},
            }
            ii = ii + 1;
        }
        proof {
            assert(items@.take(items.len() as int) =~= items@);
            assert(pkgs@.take(pi + 1).drop_last() =~= pkgs@.take(pi as int));
            assert(pkgs@.take(pi + 1).last() == pkgs@[pi as int]);
        }
        pi = pi + 1;
    }
    assert(pkgs@.take(pkgs.len() as int) =~= pkgs@);
    modules
}

} // verus!
