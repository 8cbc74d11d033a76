use bpsr_meter::chat::{
    channel_name, chat_limit, display_text, handle_chat, idempotency_key, relay_configured, relay_guild_message,
    resolve_api_key, resolve_setting, ChatMessage, ChatStore, DedupSet, GuildRelay, IncomingChat, RelayConfig,
    CHANNEL_UNION, MAX_CHAT_HISTORY, MAX_DEDUP_KEYS,
};

fn message(channel: i32, text: &str) -> ChatMessage {
    ChatMessage {
        id: 0,
        channel,
        sender_uid: 7,
        sender_name: "Ann".to_string(),
        sender_level: 60,
        msg_type: 0,
        text: text.to_string(),
        timestamp: 1000,
        game_msg_id: 55,
    }
}

fn config(key: Option<&str>) -> RelayConfig {
    RelayConfig {
        endpoint: "https://relay.example/api".to_string(),
        health_endpoint: "https://relay.example/health".to_string(),
        api_key: key.map(|k| k.to_string()),
    }
}

#[test]
fn channel_names() {
    assert_eq!(channel_name(1), "World");
    assert_eq!(channel_name(4), "Union");
    assert_eq!(channel_name(99), "System");
    assert_eq!(channel_name(42), "Unknown");
    assert_eq!(CHANNEL_UNION, 4);
}

#[test]
fn store_assigns_ids_and_filters_rows() {
    let mut store = ChatStore::new();
    assert_eq!(store.push(message(1, "a")), 0);
    assert_eq!(store.push(message(4, "b")), 1);
    assert_eq!(store.push(message(1, "c")), 2);
    let all = store.rows(&vec![], 10);
    let texts: Vec<&str> = all.iter().map(|r| r.text.as_str()).collect();
    assert_eq!(texts, vec!["a", "b", "c"]);
    assert_eq!(all[1].channel_name, "Union");
    let world = store.rows(&vec![1], 10);
    let ids: Vec<u64> = world.iter().map(|r| r.id).collect();
    assert_eq!(ids, vec![0, 2]);
    let last = store.rows(&vec![], 2);
    let ids: Vec<u64> = last.iter().map(|r| r.id).collect();
    assert_eq!(ids, vec![1, 2]);
    store.clear();
    assert!(store.rows(&vec![], 10).is_empty());
}

#[test]
fn store_keeps_only_recent_history() {
    let mut store = ChatStore::new();
    for i in 0..(MAX_CHAT_HISTORY + 5) {
        store.push(message(1, &format!("m{i}")));
    }
    let rows = store.rows(&vec![], usize::MAX);
    assert_eq!(rows.len(), MAX_CHAT_HISTORY);
    assert_eq!(rows[0].text, "m5");
    assert_eq!(rows[0].id, 5);
}

#[test]
fn dedup_set_reports_new_keys_once() {
    let mut d = DedupSet::new();
    assert!(d.insert_new("k1".to_string()));
    assert!(!d.insert_new("k1".to_string()));
    assert!(d.insert_new("k2".to_string()));
}

#[test]
fn dedup_set_forgets_oldest_keys() {
    let mut d = DedupSet::new();
    for i in 0..(MAX_DEDUP_KEYS + 1) {
        assert!(d.insert_new(format!("k{i}")));
    }
    assert!(d.insert_new("k0".to_string()));
    assert!(!d.insert_new(format!("k{}", MAX_DEDUP_KEYS)));
}

#[test]
fn guild_relay_gate_and_sent_keys() {
    let mut relay = GuildRelay::new(false);
    assert!(!relay.is_enabled());
    relay.set(true);
    assert!(relay.is_enabled());
    assert!(relay.mark_sent("x"));
    assert!(!relay.mark_sent("x"));
}

#[test]
fn idempotency_key_format() {
    assert_eq!(idempotency_key(4, 123, -9, 1700000000), "4:123:-9:1700000000");
    assert_eq!(idempotency_key(4, 123, -9, 1700000000), idempotency_key(4, 123, -9, 1700000000));
    assert_ne!(idempotency_key(4, 12, 3, 5), idempotency_key(4, 1, 23, 5));
    assert_ne!(idempotency_key(4, 1, -2, 5), idempotency_key(4, 1, 2, 5));
}

#[test]
fn settings_resolution() {
    let rt = Some("rt".to_string());
    let bt = Some("bt".to_string());
    assert_eq!(resolve_setting(&rt, &bt, "def"), "rt");
    assert_eq!(resolve_setting(&None, &bt, "def"), "bt");
    assert_eq!(resolve_setting(&None, &None, "def"), "def");
    assert_eq!(resolve_api_key(&Some(String::new()), &bt), Some("bt".to_string()));
    assert_eq!(resolve_api_key(&rt, &bt), Some("rt".to_string()));
    assert_eq!(resolve_api_key(&None, &None), None);
    assert!(relay_configured(&config(Some("k"))));
    assert!(!relay_configured(&config(None)));
}

#[test]
fn relay_request_is_built_once() {
    let mut relay = GuildRelay::new(true);
    let cfg = config(Some("secret"));
    let req = relay_guild_message(&mut relay, &cfg, "Ann", "hello", "4:1:2:3".to_string()).unwrap();
    assert_eq!(req.content, "Ann: hello");
    assert_eq!(req.idempotency_key, "4:1:2:3");
    assert_eq!(req.api_key, "secret");
    assert_eq!(req.endpoint, "https://relay.example/api");
    assert_eq!(req.channel, "union");
    assert!(relay_guild_message(&mut relay, &cfg, "Ann", "hello", "4:1:2:3".to_string()).is_none());
}

#[test]
fn relay_skips_disabled_blank_or_unconfigured() {
    let mut off = GuildRelay::new(false);
    assert!(relay_guild_message(&mut off, &config(Some("k")), "A", "hi", "a".to_string()).is_none());
    let mut on = GuildRelay::new(true);
    assert!(relay_guild_message(&mut on, &config(Some("k")), "A", "  \t", "b".to_string()).is_none());
    assert!(relay_guild_message(&mut on, &config(None), "A", "hi", "c".to_string()).is_none());
    // Nothing was recorded for the skipped key.
    assert!(on.mark_sent("b"));
}

#[test]
fn display_text_placeholders() {
    assert_eq!(display_text(0, "hi"), "hi");
    assert_eq!(display_text(2, ""), "[notice]");
    assert_eq!(display_text(3, ""), "[sticker]");
    assert_eq!(display_text(4, ""), "[image]");
    assert_eq!(display_text(5, ""), "[voice]");
    assert_eq!(display_text(6, ""), "[link]");
    assert_eq!(display_text(9, ""), "");
    assert_eq!(display_text(4, "caption"), "caption");
}

fn incoming(channel: i32, msg_type: i32, text: &str) -> IncomingChat {
    IncomingChat {
        channel,
        sender_uid: 7,
        sender_name: "Ann".to_string(),
        sender_level: 60,
        msg_type,
        msg_text: text.to_string(),
        timestamp: 1000,
        msg_id: 55,
    }
}

#[test]
fn handle_chat_relays_plain_guild_text_only() {
    let mut store = ChatStore::new();
    let mut relay = GuildRelay::new(true);
    let cfg = config(Some("k"));
    let (id, req) = handle_chat(&mut store, &mut relay, &cfg, &incoming(4, 0, "gg"));
    assert_eq!(id, 0);
    let req = req.unwrap();
    assert_eq!(req.content, "Ann: gg");
    assert_eq!(req.idempotency_key, "4:55:7:1000");
    let (_, again) = handle_chat(&mut store, &mut relay, &cfg, &incoming(4, 0, "gg"));
    assert!(again.is_none());
    let (_, world) = handle_chat(&mut store, &mut relay, &cfg, &incoming(1, 0, "gg"));
    assert!(world.is_none());
    let (_, sticker) = handle_chat(&mut store, &mut relay, &cfg, &incoming(4, 3, ""));
    assert!(sticker.is_none());
    let rows = store.rows(&vec![], 10);
    assert_eq!(rows.len(), 4);
    assert_eq!(rows[3].text, "[sticker]");
}

#[test]
fn chat_limit_clamps() {
    assert_eq!(chat_limit(0), 200);
    assert_eq!(chat_limit(-5), 200);
    assert_eq!(chat_limit(42), 42);
    assert_eq!(chat_limit(10_000), 500);
}
