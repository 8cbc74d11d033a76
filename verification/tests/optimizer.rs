use bpsr_meter::modules::{attr_slot, ModuleCategory, ModuleInfo, ModulePart};
use bpsr_meter::optimizer::{
    finalize, fits_optimizer, optimize, optimize_modules, score_totals, OptimizeRequest, Scored, TopK,
};

fn totals_from(pairs: &[(i32, i32)]) -> ([i32; 21], i32) {
    let mut t = [0i32; 21];
    let mut tv = 0;
    for &(id, val) in pairs {
        t[attr_slot(id).unwrap()] += val;
        tv += val;
    }
    (t, tv)
}

#[test]
fn score_matches_automod_log_rank1() {
    // Strength 21, Attack SPD 21, Agility 21, Elite 20, DMG Stack 3.
    let (t, tv) = totals_from(&[(1110, 21), (1408, 21), (1111, 21), (1114, 20), (2104, 3)]);
    assert_eq!(tv, 86);
    assert_eq!(score_totals(&t, tv), 1530);
}

#[test]
fn score_matches_automod_log_rank8() {
    let (t, tv) = totals_from(&[(1110, 16), (1408, 21), (1111, 21), (2104, 8), (1114, 20)]);
    assert_eq!(tv, 86);
    assert_eq!(score_totals(&t, tv), 1488);
}

#[test]
fn missing_total_key_contributes_zero() {
    let (t, tv) = totals_from(&[(1110, 10)]);
    assert_eq!(tv, 10);
    assert_eq!(score_totals(&t, tv), 29);
}

#[test]
fn empty_totals_score_zero() {
    let t = [0i32; 21];
    assert_eq!(score_totals(&t, 0), 0);
}

#[test]
fn special_attribute_uses_special_power_table() {
    // DMG Stack 20 (special, level 6) is worth 448; basic Strength 20 is 254.
    let (special, tv) = totals_from(&[(2104, 20)]);
    let (basic, tv2) = totals_from(&[(1110, 20)]);
    assert_eq!(tv, tv2);
    assert_eq!(score_totals(&special, tv) - score_totals(&basic, tv2), 448 - 254);
}

fn scored(score: i64, idxs: Vec<usize>) -> Scored {
    Scored { score, total: 0, idxs }
}

#[test]
fn top_k_keeps_the_highest() {
    let mut top = TopK::new(2);
    top.push(scored(5, vec![0]));
    top.push(scored(9, vec![1]));
    top.push(scored(7, vec![2]));
    top.push(scored(1, vec![3]));
    let mut scores: Vec<i64> = top.into_vec().iter().map(|s| s.score).collect();
    scores.sort();
    assert_eq!(scores, vec![7, 9]);
}

#[test]
fn top_k_capacity_is_at_least_one() {
    let mut top = TopK::new(0);
    top.push(scored(3, vec![0]));
    top.push(scored(4, vec![1]));
    let v = top.into_vec();
    assert_eq!(v.len(), 1);
    assert_eq!(v[0].score, 4);
}

#[test]
fn finalize_dedups_sorts_and_truncates() {
    let input = vec![scored(5, vec![0, 1]), scored(9, vec![2, 3]), scored(5, vec![1, 0]), scored(7, vec![4, 5])];
    let r = finalize(input, 10);
    let scores: Vec<i64> = r.iter().map(|s| s.score).collect();
    assert_eq!(scores, vec![9, 7, 5]);
    let input = vec![scored(5, vec![0, 1]), scored(9, vec![2, 3]), scored(7, vec![4, 5])];
    let r = finalize(input, 2);
    let scores: Vec<i64> = r.iter().map(|s| s.score).collect();
    assert_eq!(scores, vec![9, 7]);
}

fn module(uuid: &str, id: i32, value: i32) -> ModuleInfo {
    ModuleInfo {
        uuid: uuid.to_string(),
        config_id: 5500101,
        name: "Basic Attack Module".to_string(),
        category: ModuleCategory::Attack,
        quality: 3,
        parts: vec![ModulePart { id, name: "Strength Boost".to_string(), value, special: false }],
    }
}

fn request(combo_size: u32) -> OptimizeRequest {
    OptimizeRequest {
        category: "All".to_string(),
        target_attrs: vec![],
        exclude_attrs: vec![],
        match_count: 0,
        combo_size,
        top_n: 5,
    }
}

#[test]
fn optimize_four_modules_gives_their_combination() {
    let modules = vec![module("1", 1110, 5), module("2", 1110, 5), module("3", 1110, 5), module("4", 1110, 5)];
    let r = optimize(&modules, &request(4));
    assert_eq!(r.len(), 1);
    let (t, tv) = totals_from(&[(1110, 20)]);
    assert_eq!(r[0].rank, 1);
    assert_eq!(r[0].total_value, tv);
    assert_eq!(r[0].score, score_totals(&t, tv));
    assert_eq!(r[0].modules.len(), 4);
}

#[test]
fn optimize_with_too_few_modules_is_empty() {
    let modules = vec![module("1", 1110, 5), module("2", 1110, 5), module("3", 1110, 5)];
    assert!(optimize(&modules, &request(4)).is_empty());
}

#[test]
fn optimize_excluded_attribute_drops_modules() {
    let modules = vec![module("1", 1110, 5), module("2", 1110, 5), module("3", 1110, 5), module("4", 1110, 5)];
    let mut req = request(4);
    req.exclude_attrs = vec![1110];
    assert!(optimize(&modules, &req).is_empty());
}

#[test]
fn optimize_ranks_best_combination_first() {
    let modules = vec![
        module("1", 1110, 1),
        module("2", 1110, 5),
        module("3", 1110, 5),
        module("4", 1110, 5),
        module("5", 1110, 5),
    ];
    let r = optimize(&modules, &request(4));
    assert!(!r.is_empty());
    for w in r.windows(2) {
        assert!(w[0].score >= w[1].score);
    }
    assert_eq!(r[0].total_value, 20);
}

#[test]
fn optimize_modules_needs_module_data() {
    let err = optimize_modules(&vec![], &request(4)).err().unwrap();
    assert_eq!(err, "No module data yet. Open your character / re-log in.");
    let modules = vec![module("1", 1110, 5), module("2", 1110, 5), module("3", 1110, 5), module("4", 1110, 5)];
    let ok = optimize_modules(&modules, &request(4)).ok().unwrap();
    let direct = optimize(&modules, &request(4));
    assert_eq!(ok.len(), direct.len());
    assert_eq!(ok[0].score, direct[0].score);
}

#[test]
fn module_range_check() {
    assert!(module("1", 1110, 5).in_range());
    assert!(module("1", 1110, -5).in_range());
    assert!(!module("1", 1110, i32::MAX).in_range());
    assert!(module("1", 1110, 200_000_000).in_range());
    assert!(module("1", 1110, i32::MAX / 5).in_range());
    assert!(!module("1", 1110, i32::MAX / 5 + 1).in_range());
}

#[test]
fn score_grows_with_totals_and_caps_at_twenty() {
    let (low, tv) = totals_from(&[(1110, 8), (1111, 3)]);
    let (high, _) = totals_from(&[(1110, 12), (1111, 3)]);
    assert!(score_totals(&low, tv) <= score_totals(&high, tv));
    let (at_cap, tv2) = totals_from(&[(1110, 20)]);
    let (above_cap, _) = totals_from(&[(1110, 35)]);
    assert_eq!(score_totals(&at_cap, tv2), score_totals(&above_cap, tv2));
}

#[test]
fn large_modules_within_bound_are_optimized() {
    let modules = vec![
        module("1", 1110, 400_000_000),
        module("2", 1110, 400_000_000),
        module("3", 1110, 400_000_000),
        module("4", 1110, 400_000_000),
    ];
    assert!(modules.iter().all(|m| m.in_range()));
    let r = optimize(&modules, &request(4));
    assert_eq!(r.len(), 1);
    assert_eq!(r[0].total_value, 1_600_000_000);
}

#[test]
fn only_filtered_modules_need_to_fit() {
    let mut modules = vec![module("1", 1110, 5), module("2", 1110, 5), module("3", 1110, 5), module("4", 1110, 5)];
    modules.push(module("5", 1111, i32::MAX));
    assert!(!fits_optimizer(&modules, &request(4)));
    let mut req = request(4);
    req.exclude_attrs = vec![1111];
    assert!(fits_optimizer(&modules, &req));
    let r = optimize(&modules, &req);
    assert_eq!(r.len(), 1);
    assert_eq!(r[0].total_value, 20);
}
