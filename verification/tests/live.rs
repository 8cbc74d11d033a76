use bpsr_meter::encounter::Encounter;
use bpsr_meter::live::{accepts_packets, on_container_data, AccountInfo, ContainerHeader};
use bpsr_meter::modules::{CharData, ContainerSnapshot, ItemPackage, ModData, ModuleInfo, PackageItem};
use bpsr_meter::scene::SceneState;
use std::collections::HashMap;

fn snapshot_with_module() -> ContainerSnapshot {
    let mut infos = HashMap::new();
    infos.insert(1i64, vec![4]);
    ContainerSnapshot {
        v_data: Some(CharData {
            mod_data: Some(ModData { mod_infos: infos }),
            item_package: Some(ItemPackage {
                packages: vec![vec![(1i64, PackageItem { config_id: 5500101, quality: 2, mod_parts: Some(vec![1110]) })]],
            }),
        }),
    }
}

#[test]
fn paused_encounter_ignores_packets() {
    let mut enc = Encounter::default();
    assert!(accepts_packets(&enc));
    enc.is_encounter_paused = true;
    assert!(!accepts_packets(&enc));
}

#[test]
fn container_snapshot_updates_modules_account_and_scene() {
    let mut modules: Vec<ModuleInfo> = Vec::new();
    let mut scene = SceneState::new();
    let mut account: Option<AccountInfo> = None;
    let header = ContainerHeader { account_id: Some("acc".to_string()), char_id: 77, scene: Some((5, 900)) };
    assert!(on_container_data(&mut modules, &mut scene, &mut account, &snapshot_with_module(), &header));
    assert_eq!(modules.len(), 1);
    assert_eq!(modules[0].uuid, "1");
    let acc = account.as_ref().unwrap();
    assert_eq!((acc.account_id.as_str(), acc.char_id), ("acc", 77));
    assert_eq!((scene.line_id, scene.level_map_id), (Some(5), Some(900)));

    // Same line again: nothing to clear; an empty snapshot keeps the modules;
    // a zero character id does not replace the account.
    let header = ContainerHeader { account_id: Some("other".to_string()), char_id: 0, scene: Some((5, 0)) };
    let empty = ContainerSnapshot { v_data: None };
    assert!(!on_container_data(&mut modules, &mut scene, &mut account, &empty, &header));
    assert_eq!(modules.len(), 1);
    assert_eq!(account.as_ref().unwrap().account_id, "acc");
    assert_eq!(scene.level_map_id, Some(900));

    let header = ContainerHeader { account_id: None, char_id: 1, scene: None };
    assert!(!on_container_data(&mut modules, &mut scene, &mut account, &empty, &header));
    assert_eq!(scene.line_id, Some(5));
}
