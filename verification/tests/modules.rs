use bpsr_meter::modules::{
    attr_slot, attribute_list, name_and_category, parse_modules, CharData, ContainerSnapshot, ItemPackage, ModData,
    ModuleCategory, ModuleInfo, ModulePart, PackageItem,
};
use std::collections::HashMap;

#[test]
fn attr_slot_of_known_and_unknown_ids() {
    assert_eq!(attr_slot(1110), Some(0));
    assert_eq!(attr_slot(1111), Some(1));
    assert_eq!(attr_slot(2104), Some(13));
    assert_eq!(attr_slot(9999), None);
    assert_eq!(attr_slot(0), None);
}

#[test]
fn attribute_list_is_canonical() {
    let list = attribute_list();
    assert_eq!(list.len(), 21);
    assert_eq!(list[0].id, 1110);
    assert_eq!(list[0].name, "Strength Boost");
    assert!(!list[0].special);
    assert_eq!(list[13].id, 2104);
    assert!(list[13].special);
    for (i, a) in list.iter().enumerate() {
        assert_eq!(attr_slot(a.id), Some(i));
    }
}

#[test]
fn category_names() {
    assert_eq!(ModuleCategory::Attack.as_str(), "Attack");
    assert_eq!(ModuleCategory::Guardian.as_str(), "Guardian");
    assert_eq!(ModuleCategory::Support.as_str(), "Support");
}

#[test]
fn known_and_unknown_module_configs() {
    assert_eq!(name_and_category(5500101), ("Basic Attack Module".to_string(), ModuleCategory::Attack));
    assert_eq!(name_and_category(5500204), ("Excellent Support Module (Preferred)".to_string(), ModuleCategory::Support));
    assert_eq!(name_and_category(5500303), ("Excellent Guard Module".to_string(), ModuleCategory::Guardian));
    assert_eq!(name_and_category(5500299), ("Unknown Module (5500299)".to_string(), ModuleCategory::Support));
    assert_eq!(name_and_category(5500399), ("Unknown Module (5500399)".to_string(), ModuleCategory::Guardian));
    assert_eq!(name_and_category(5500499), ("Unknown Module (5500499)".to_string(), ModuleCategory::Attack));
    assert_eq!(name_and_category(-250), ("Unknown Module (-250)".to_string(), ModuleCategory::Attack));
}

#[test]
fn attr_vector_and_total_value() {
    let m = ModuleInfo {
        uuid: "7".to_string(),
        config_id: 5500101,
        name: "Basic Attack Module".to_string(),
        category: ModuleCategory::Attack,
        quality: 2,
        parts: vec![
            ModulePart { id: 1110, name: "Strength Boost".to_string(), value: 4, special: false },
            ModulePart { id: 2104, name: "x".to_string(), value: 6, special: true },
            ModulePart { id: 1110, name: "Strength Boost".to_string(), value: 2, special: false },
        ],
    };
    let v = m.attr_vector();
    assert_eq!(v[0], 6);
    assert_eq!(v[13], 6);
    assert_eq!(v.iter().sum::<i32>(), 12);
    assert_eq!(m.total_value(), 12);
}

#[test]
fn parse_modules_reads_module_items() {
    let mut infos = HashMap::new();
    infos.insert(42i64, vec![5, 7, 9]);
    infos.insert(43i64, vec![3]);
    let items = vec![
        (42i64, PackageItem { config_id: 5500201, quality: 4, mod_parts: Some(vec![1110, 9999, 2104]) }),
        (43i64, PackageItem { config_id: 5500301, quality: 1, mod_parts: Some(vec![9999]) }),
        (44i64, PackageItem { config_id: 1, quality: 1, mod_parts: None }),
    ];
    let snap = ContainerSnapshot {
        v_data: Some(CharData {
            mod_data: Some(ModData { mod_infos: infos }),
            item_package: Some(ItemPackage { packages: vec![items] }),
        }),
    };
    let modules = parse_modules(&snap);
    assert_eq!(modules.len(), 1);
    let m = &modules[0];
    assert_eq!(m.uuid, "42");
    assert_eq!(m.name, "Basic Healing Module");
    assert_eq!(m.category, ModuleCategory::Support);
    assert_eq!(m.quality, 4);
    assert_eq!(m.parts.len(), 2);
    assert_eq!((m.parts[0].id, m.parts[0].value, m.parts[0].special), (1110, 5, false));
    assert_eq!((m.parts[1].id, m.parts[1].value, m.parts[1].special), (2104, 9, true));
}

#[test]
fn parse_modules_without_data_is_empty() {
    assert!(parse_modules(&ContainerSnapshot { v_data: None }).is_empty());
    let snap = ContainerSnapshot { v_data: Some(CharData { mod_data: None, item_package: None }) };
    assert!(parse_modules(&snap).is_empty());
}
