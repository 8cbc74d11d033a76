//! Where the local player is: the server line and the map, as the game
//! announces them, and when a change of line empties the encounter.
use vstd::prelude::*;

verus! {

/// The last announced line and map (`None` until announced).
pub struct SceneState {
    pub line_id: Option<u32>,
    pub level_map_id: Option<u32>,
}

impl SceneState {
    /// Nothing announced yet.
    pub fn new() -> (s: SceneState)
        ensures
            s.line_id is None,
            s.level_map_id is None,
    {
        SceneState { line_id: None, level_map_id: None }
    }
}

/// The scene after an announcement: a zero line or map id leaves the
/// previous one in place.
pub open spec fn scene_after(s: SceneState, line_id: u32, level_map_id: u32) -> SceneState {
    SceneState {
        line_id: if line_id != 0 { Some(line_id) } else { s.line_id },
        level_map_id: if level_map_id != 0 { Some(level_map_id) } else { s.level_map_id },
    }
}

/// The announcement moves the player to another line, so the encounter's
/// entities are cleared.
pub open spec fn changes_line(s: SceneState, line_id: u32) -> bool {
    line_id != 0 && s.line_id != Some(line_id)
}

/// Applies a scene announcement; returns whether the entities of the
/// encounter are to be cleared (the line changed).
pub fn apply_scene(state: &mut SceneState, line_id: u32, level_map_id: u32) -> (clear: bool)
    ensures
        *final(state) == scene_after(*old(state), line_id, level_map_id),
        clear == changes_line(*old(state), line_id),
{
    let old_line = state.line_id;
    if line_id != 0 {
        state.line_id = Some(line_id);
    }
    if level_map_id != 0 {
        state.level_map_id = Some(level_map_id);
    }
    let changed = match old_line {
        Some(l) => l != line_id,
        None => true,
    };
    line_id != 0 && changed
}

/// The map id for records and reports: the announced one, else 0.
pub fn level_map_id_or_zero(state: &SceneState) -> (id: u32)
    ensures
        id == (match state.level_map_id {
            Some(m) => m,
            None => 0,
        }),
{
    match state.level_map_id {
        Some(m) => m,
        None => 0,
    }
}

/// Announcing the same scene again changes nothing and clears nothing.
pub proof fn lemma_scene_repeat(s: SceneState, line_id: u32, level_map_id: u32)
    ensures
        scene_after(scene_after(s, line_id, level_map_id), line_id, level_map_id) == scene_after(s, line_id, level_map_id),
        !changes_line(scene_after(s, line_id, level_map_id), line_id),
{
}

} // verus!
