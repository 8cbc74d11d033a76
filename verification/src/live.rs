//! Decisions of the live packet loop that do not belong to one component:
//! whether packets are processed at all, and what a container snapshot of
//! the local player changes.
use crate::encounter::Encounter;
use crate::modules::{parse_modules, parsed_modules, ContainerSnapshot, ModuleInfo};
use crate::scene::{apply_scene, changes_line, scene_after, SceneState};
use vstd::prelude::*;

verus! {

/// Packets are processed only while the encounter is not paused.
pub fn accepts_packets(encounter: &Encounter) -> (b: bool)
    ensures
        b == !encounter.is_encounter_paused,
{
    !encounter.is_encounter_paused
}

/// The local player's account: its account id and character id.
pub struct AccountInfo {
    pub account_id: String,
    pub char_id: i64,
}

/// The parts of the local player's container snapshot the loop reads besides
/// the modules: the account id of its character base (if any), its
/// character id, and its scene (line and map ids, if any).
pub struct ContainerHeader {
    pub account_id: Option<String>,
    pub char_id: i64,
    pub scene: Option<(u32, u32)>,
}

/// Applies the local player's container snapshot: its modules replace the
/// stored ones when it has any; a non-empty account id with a non-zero
/// character id is recorded; its scene is applied. Returns whether the
/// encounter's entities are to be cleared (the line changed).
pub fn on_container_data(
    modules: &mut Vec<ModuleInfo>,
    scene: &mut SceneState,
    account: &mut Option<AccountInfo>,
    snapshot: &ContainerSnapshot,
    header: &ContainerHeader,
) -> (clear: bool)
    ensures
        parsed_modules(snapshot).len() > 0 ==> final(modules)@.map_values(|m: ModuleInfo| m@) == parsed_modules(snapshot),
        parsed_modules(snapshot).len() == 0 ==> final(modules)@ == old(modules)@,
        match header.account_id {
            Some(a) => if a@.len() > 0 && header.char_id != 0 {
                *final(account) matches Some(acc) && acc.account_id@ == a@ && acc.char_id == header.char_id
            } else {
                *final(account) == *old(account)
            },
            None => *final(account) == *old(account),
        },
        match header.scene {
            Some((line, map)) => {
                &&& *final(scene) == scene_after(*old(scene), line, map)
                &&& clear == changes_line(*old(scene), line)
            },
            None => *final(scene) == *old(scene) && !clear,
        },
{
    let parsed = parse_modules(snapshot);
    if parsed.len() > 0 {
        *modules = parsed;
    }
    match &header.account_id {
        Some(a) => {
            if a.as_str().unicode_len() > 0 && header.char_id != 0 {
                *account = Some(AccountInfo { account_id: a.clone(), char_id: header.char_id });
            }
        },
        None => {},
    }
    match header.scene {
        Some((line, map)) => apply_scene(scene, line, map),
        None => false,
    }
}

} // verus!
