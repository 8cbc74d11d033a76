use bpsr_meter::tcp_table::{
    collect, default_game_exes, diagnostics, exe_name_lower, exe_stem_lower, game_connections, is_game_exe, is_game_flow,
    log_detect_change, log_summary, owned_local_ports, ConnectionCache, DetectionLog, GameConnections,
    REFRESH_INTERVAL_MS,
};
use std::collections::HashSet;

fn conns(pids: &[u32], ports: &[u16]) -> GameConnections {
    GameConnections { pids: pids.iter().copied().collect(), local_ports: ports.iter().copied().collect() }
}

fn wide(s: &str) -> Vec<u16> {
    let mut v: Vec<u16> = s.encode_utf16().collect();
    v.push(0);
    v.extend("junk".encode_utf16());
    v
}

#[test]
fn snapshot_is_reused_while_fresh() {
    let mut cache = ConnectionCache::new();
    let first = game_connections(&mut cache, 10_000, || conns(&[1], &[5000]));
    assert!(first.pids.contains(&1));
    let cached = game_connections(&mut cache, 10_000 + REFRESH_INTERVAL_MS - 1, || conns(&[2], &[6000]));
    assert!(cached.pids.contains(&1));
    assert!(cached.local_ports.contains(&5000));
    let fresh = game_connections(&mut cache, 10_000 + REFRESH_INTERVAL_MS, || conns(&[2], &[6000]));
    assert!(fresh.pids.contains(&2));
    assert!(!fresh.pids.contains(&1));
}

#[test]
fn clock_going_back_keeps_snapshot() {
    let mut cache = ConnectionCache::new();
    game_connections(&mut cache, 50_000, || conns(&[1], &[]));
    let c = game_connections(&mut cache, 1_000, || conns(&[9], &[]));
    assert!(c.pids.contains(&1));
}

#[test]
fn game_flow_matches_either_port() {
    let c = conns(&[1], &[5000]);
    assert!(is_game_flow(&c, 5000, 80));
    assert!(is_game_flow(&c, 80, 5000));
    assert!(!is_game_flow(&c, 80, 81));
    assert!(!is_game_flow(&GameConnections::default(), 5000, 5000));
}

#[test]
fn diagnostics_sort_ports() {
    let d = diagnostics(&conns(&[1, 2], &[9000, 80, 443]));
    assert!(d.game_detected);
    assert_eq!(d.process_count, 2);
    assert_eq!(d.ports, vec![80, 443, 9000]);
    let d = diagnostics(&GameConnections::default());
    assert!(!d.game_detected);
    assert_eq!(d.process_count, 0);
    assert!(d.ports.is_empty());
}

#[test]
fn summary_line() {
    assert_eq!(
        log_summary(&conns(&[1, 2], &[9000, 80, 443])),
        "Capture diagnostics: 2 game process(es), 3 local port(s) tracked"
    );
}

#[test]
fn detection_messages_logged_on_change_only() {
    let mut log = DetectionLog::new();
    assert!(log_detect_change(&mut log, "a".to_string()));
    assert!(!log_detect_change(&mut log, "a".to_string()));
    assert!(log_detect_change(&mut log, "b".to_string()));
    assert!(log_detect_change(&mut log, "a".to_string()));
}

#[test]
fn exe_names_are_decoded_stripped_and_lowered() {
    assert_eq!(exe_name_lower(&wide("BPSR.exe")), "bpsr");
    assert_eq!(exe_name_lower(&wide("BPSR_STEAM.EXE")), "bpsr_steam");
    assert_eq!(exe_name_lower(&wide("BPSR.Exe")), "bpsr");
    assert_eq!(exe_name_lower(&wide("BPSR.exe.txt")), "bpsr.exe.txt");
    assert_eq!(exe_name_lower(&[0x42, 0x50]), "bp");
    assert_eq!(exe_name_lower(&[0xD800, 0x41, 0]), "\u{FFFD}a");
    assert_eq!(exe_name_lower(&[0xD83D, 0xDE00, 0]), "\u{1F600}");
    assert_eq!(exe_stem_lower("Game.exe"), "game");
    assert_eq!(exe_stem_lower(".exe"), "");
    assert_eq!(exe_stem_lower("exe"), "exe");
    assert_eq!(exe_stem_lower("Game.ExE"), "game");
}

#[test]
fn game_processes_by_name() {
    let names = default_game_exes();
    assert_eq!(names, vec!["BPSR", "BPSR_STEAM", "BPSR_EPIC"]);
    assert!(is_game_exe(&wide("BPSR_EPIC.exe"), &names));
    assert!(is_game_exe(&wide("bpsr.exe"), &names));
    assert!(is_game_exe(&wide("BPSR.EXE"), &names));
    assert!(is_game_exe(&wide("Bpsr_Steam.EXE"), &names));
    assert!(!is_game_exe(&wide("notepad.exe"), &names));
    assert!(!is_game_exe(&wide("BPSR.exe"), &[]));
}

fn row(pid: u32, port: u16) -> Vec<u8> {
    let mut r = vec![0u8; 24];
    r[8] = (port >> 8) as u8;
    r[9] = (port & 0xff) as u8;
    r[20..24].copy_from_slice(&pid.to_le_bytes());
    r
}

#[test]
fn owned_ports_from_table() {
    let mut table = 3u32.to_le_bytes().to_vec();
    table.extend(row(100, 8080));
    table.extend(row(200, 443));
    table.extend(row(100, 5000));
    let pids: HashSet<u32> = [100u32].into_iter().collect();
    let ports = owned_local_ports(&table, &pids);
    let expected: HashSet<u16> = [8080u16, 5000].into_iter().collect();
    assert_eq!(ports, expected);
    let mut short = 5u32.to_le_bytes().to_vec();
    short.extend(row(100, 8080));
    short.extend(vec![0u8; 10]);
    let expected: HashSet<u16> = [8080u16].into_iter().collect();
    assert_eq!(owned_local_ports(&short, &pids), expected);
    let empty = 0u32.to_le_bytes().to_vec();
    assert!(owned_local_ports(&empty, &pids).is_empty());
}

#[test]
fn collect_needs_a_game_process() {
    let mut table = 1u32.to_le_bytes().to_vec();
    table.extend(row(100, 8080));
    let none = collect(HashSet::new(), Some(&table));
    assert!(none.pids.is_empty() && none.local_ports.is_empty());
    let pids: HashSet<u32> = [100u32].into_iter().collect();
    let c = collect(pids.clone(), Some(&table));
    assert_eq!(c.pids, pids);
    assert!(c.local_ports.contains(&8080));
    let c = collect(pids.clone(), None);
    assert_eq!(c.pids, pids);
    assert!(c.local_ports.is_empty());
}
