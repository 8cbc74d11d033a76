//! In-memory chat log and the Guild (Union) chat relay's client side.
//!
//! Messages are kept in a bounded history for the chat view. Guild/Union
//! text messages are forwarded to a server-side dedupe relay as
//! `"Name: text"`, keyed by a deterministic idempotency key built from
//! game-broadcast fields (identical for every receiver of the same message),
//! so the relay can post exactly one copy across all users.
use crate::text::{
    int_decimal, is_blank, lemma_int_decimal_facts, lemma_split_at_separator, push_char, push_decimal, trims_to_empty,
};
use std::collections::VecDeque;
use vstd::prelude::*;

verus! {

/// Chat channel type of the Guild (Union) channel.
pub const CHANNEL_UNION: i32 = 4;

/// Most messages kept in the chat history.
pub const MAX_CHAT_HISTORY: usize = 500;

/// Most idempotency keys remembered by the relay's local pre-filter.
pub const MAX_DEDUP_KEYS: usize = 2000;

/// Display name of a chat channel type.
pub open spec fn channel_name_of(channel: i32) -> Seq<char> {
    if channel == 1 {
        "World"@
    } else if channel == 2 {
        "Local"@
    } else if channel == 3 {
        "Team"@
    } else if channel == 4 {
        "Union"@
    } else if channel == 5 {
        "Private"@
    } else if channel == 6 {
        "Group"@
    } else if channel == 7 {
        "Top Notice"@
    } else if channel == 8 {
        "Play"@
    } else if channel == 9 {
        "Newbie"@
    } else if channel == 99 {
        "System"@
    } else {
        "Unknown"@
    }
}

/// Distinct known channel types (1 to 9 and 99) have distinct display names,
/// none of them the label of an unknown channel; team chat (3) is "Team".
pub proof fn lemma_channel_names_distinct(a: i32, b: i32)
    requires
        1 <= a <= 9 || a == 99,
        1 <= b <= 9 || b == 99,
        a != b,
    ensures
        channel_name_of(a) != channel_name_of(b),
        channel_name_of(a) != "Unknown"@,
        channel_name_of(3) == "Team"@,
{
    reveal_strlit("World");
    reveal_strlit("Local");
    reveal_strlit("Team");
    reveal_strlit("Union");
    reveal_strlit("Private");
    reveal_strlit("Group");
    reveal_strlit("Top Notice");
    reveal_strlit("Play");
    reveal_strlit("Newbie");
    reveal_strlit("System");
    reveal_strlit("Unknown");
    let na = channel_name_of(a);
    let nb = channel_name_of(b);
    assert(na.len() != nb.len() || na[0] != nb[0]);
    assert(na.len() != "Unknown"@.len() || na[0] != "Unknown"@[0]);
}

/// Display name of a chat channel type.
pub fn channel_name(channel: i32) -> (name: &'static str)
    ensures
        name@ == channel_name_of(channel),
{
    match channel {
        1 => "World",
        2 => "Local",
        3 => "Team",
        4 => "Union",
        5 => "Private",
        6 => "Group",
        7 => "Top Notice",
        8 => "Play",
        9 => "Newbie",
        99 => "System",
        _ => "Unknown",
    }
}

/// One stored chat message.
pub struct ChatMessage {
    /// Assigned by the store, in arrival order.
    pub id: u64,
    pub channel: i32,
    pub sender_uid: i64,
    pub sender_name: String,
    pub sender_level: i32,
    pub msg_type: i32,
    pub text: String,
    /// Unix seconds, from the game.
    pub timestamp: i64,
    pub game_msg_id: i64,
}

/// Mathematical value of a [`ChatMessage`].
pub struct ChatMessageView {
    pub id: u64,
    pub channel: i32,
    pub sender_uid: i64,
    pub sender_name: Seq<char>,
    pub sender_level: i32,
    pub msg_type: i32,
    pub text: Seq<char>,
    pub timestamp: i64,
    pub game_msg_id: i64,
}

impl View for ChatMessage {
    type V = ChatMessageView;

    open spec fn view(&self) -> ChatMessageView {
        ChatMessageView {
            id: self.id,
            channel: self.channel,
            sender_uid: self.sender_uid,
            sender_name: self.sender_name@,
            sender_level: self.sender_level,
            msg_type: self.msg_type,
            text: self.text@,
            timestamp: self.timestamp,
            game_msg_id: self.game_msg_id,
        }
    }
}

/// The last `k` elements of `s` (all of them when there are fewer).
pub open spec fn keep_last<A>(s: Seq<A>, k: nat) -> Seq<A> {
    if s.len() > k {
        s.skip(s.len() - k)
    } else {
        s
    }
}

/// Row for the chat view (integer fields; the view's copy widens them).
pub struct ChatRow {
    pub id: u64,
    pub channel: i32,
    pub channel_name: String,
    pub sender_uid: i64,
    pub sender_name: String,
    pub sender_level: i32,
    pub msg_type: i32,
    pub text: String,
    pub timestamp: i64,
}

/// The bounded chat history.
pub struct ChatStore {
    messages: VecDeque<ChatMessage>,
    next_id: u64,
}

/// Whether a message on `channel` passes the channel filter (empty = all).
pub open spec fn channel_selected(channels: Seq<i32>, channel: i32) -> bool {
    channels.len() == 0 || channels.contains(channel)
}

/// Positions (chronological) of the most recent `limit` messages among the
/// first `k` that pass the channel filter.
pub open spec fn recent_positions(msgs: Seq<ChatMessageView>, channels: Seq<i32>, k: int, limit: int) -> Seq<usize>
    decreases k,
{
    if k <= 0 || limit <= 0 {
        Seq::empty()
    } else if channel_selected(channels, msgs[k - 1].channel) {
        recent_positions(msgs, channels, k - 1, limit - 1).push((k - 1) as usize)
    } else {
        recent_positions(msgs, channels, k - 1, limit)
    }
}

/// `row` shows message `m`.
pub open spec fn row_of(m: ChatMessageView, row: &ChatRow) -> bool {
    &&& row.id == m.id
    &&& row.channel == m.channel
    &&& row.channel_name@ == channel_name_of(m.channel)
    &&& row.sender_uid == m.sender_uid
    &&& row.sender_name@ == m.sender_name
    &&& row.sender_level == m.sender_level
    &&& row.msg_type == m.msg_type
    &&& row.text@ == m.text
    &&& row.timestamp == m.timestamp
}

fn copy_string(s: &String) -> (r: String)
    ensures
        r@ == s@,
{
    String::from_str(s.as_str())
}

fn contains_channel(v: &Vec<i32>, x: i32) -> (b: bool)
    ensures
        b == v@.contains(x),
{
    let mut i: usize = 0;
    while i < v.len()
        invariant
            i <= v.len(),
            forall|k: int| 0 <= k < i ==> v@[k] != x,
        decreases v.len() - i,
    {
        if v[i] == x {
            assert(v@[i as int] == x);
            return true;
        }
        i = i + 1;
    }
    false
}

/// The views of stored messages.
pub open spec fn message_views(q: Seq<ChatMessage>) -> Seq<ChatMessageView> {
    q.map_values(|m: ChatMessage| m@)
}

impl ChatStore {
    /// At most [`MAX_CHAT_HISTORY`] messages are kept.
    #[verifier::type_invariant]
    spec fn bounded(self) -> bool {
        self.messages@.len() <= MAX_CHAT_HISTORY
    }

    /// The stored messages, oldest first.
    pub closed spec fn messages(&self) -> Seq<ChatMessageView> {
        message_views(self.messages@)
    }

    /// The id the next stored message gets.
    pub closed spec fn next_id(&self) -> u64 {
        self.next_id
    }

    /// An empty history whose first id is 0.
    pub fn new() -> (s: ChatStore)
        ensures
            s.messages() == Seq::<ChatMessageView>::empty(),
            s.next_id() == 0,
    {
        let s = ChatStore { messages: VecDeque::new(), next_id: 0 };
        assert(s.messages() =~= Seq::<ChatMessageView>::empty());
        s
    }

    /// Append a message, assigning it the next app-local id (wrapping), and
    /// keep only the most recent [`MAX_CHAT_HISTORY`] messages.
    pub fn push(&mut self, msg: ChatMessage) -> (id: u64)
        ensures
            id == old(self).next_id(),
            final(self).next_id() == old(self).next_id().wrapping_add(1),
            final(self).messages() == keep_last(
                old(self).messages().push(ChatMessageView { id, ..msg@ }),
                MAX_CHAT_HISTORY as nat,
            ),
    {
        proof {
            use_type_invariant(&*self);
        }
        let mut msg = msg;
        let id = self.next_id;
        self.next_id = self.next_id.wrapping_add(1);
        msg.id = id;
        let mut q: VecDeque<ChatMessage> = VecDeque::new();
        std::mem::swap(&mut q, &mut self.messages);
        let ghost target = keep_last(message_views(q@).push(msg@), MAX_CHAT_HISTORY as nat);
        let ghost full = message_views(q@).push(msg@);
        q.push_back(msg);
        assert(message_views(q@) =~= full);
        assert(full.skip(0) =~= full);
        while q.len() > MAX_CHAT_HISTORY
            invariant
                full.len() <= MAX_CHAT_HISTORY + 1,
                target == keep_last(full, MAX_CHAT_HISTORY as nat),
                message_views(q@).len() <= full.len(),
                message_views(q@).len() == q@.len(),
                message_views(q@).len() >= (if full.len() < MAX_CHAT_HISTORY {
                    full.len()
                } else {
                    MAX_CHAT_HISTORY as nat
                }),
                message_views(q@) == full.skip(full.len() - message_views(q@).len()),
            decreases q.len(),
        {
            let ghost before = message_views(q@);
            let _ = q.pop_front();
            assert(message_views(q@) =~= before.skip(1));
            assert(before.skip(1) =~= full.skip(full.len() - before.len() + 1));
        }
        proof {
            if full.len() > MAX_CHAT_HISTORY {
                assert(message_views(q@).len() == MAX_CHAT_HISTORY);
            } else {
                assert(message_views(q@).len() == full.len());
                assert(full.skip(0) =~= full);
            }
        }
        assert(message_views(q@) =~= target);
        self.messages = q;
        id
    }

    /// The most recent `limit` messages passing the channel filter (empty
    /// `channels` = all), in chronological order.
    pub fn rows(&self, channels: &Vec<i32>, limit: usize) -> (rows: Vec<ChatRow>)
        ensures
            rows.len() == recent_positions(self.messages(), channels@, self.messages().len() as int, limit as int).len(),
            forall|j: int|
                0 <= j < rows.len() ==> row_of(
                    self.messages()[recent_positions(self.messages(), channels@, self.messages().len() as int, limit as int)[j] as int],
                    #[trigger] &rows@[j],
                ),
    {
        let ghost msgs = self.messages();
        let n = self.messages.len();
        let mut picked: Vec<usize> = Vec::new();
        let ghost mut tail: Seq<usize> = Seq::empty();
        let mut k: usize = n;
        let mut remaining: usize = limit;
        while k > 0 && remaining > 0
            invariant
                k <= n,
                n == self.messages.len(),
                msgs == self.messages(),
                recent_positions(msgs, channels@, n as int, limit as int) == recent_positions(msgs, channels@, k as int, remaining as int) + tail,
                picked.len() == tail.len(),
                forall|j: int| 0 <= j < picked.len() ==> #[trigger] picked@[j] == tail[tail.len() - 1 - j],
                forall|j: int| 0 <= j < tail.len() ==> k <= #[trigger] tail[j] < n,
            decreases k,
        {
            let m = &self.messages[k - 1];
            proof {
                assert(msgs[k - 1] == self.messages@[k - 1]@);
            }
            let selected = channels.len() == 0 || contains_channel(channels, m.channel);
            if selected {
                picked.push(k - 1);
                proof {
                    let old_tail = tail;
                    tail = seq![(k - 1) as usize] + tail;
                    assert(recent_positions(msgs, channels@, k as int, remaining as int) == recent_positions(msgs, channels@, k - 1, remaining - 1).push((k - 1) as usize));
                    assert(recent_positions(msgs, channels@, k - 1, remaining - 1).push((k - 1) as usize) + old_tail =~= recent_positions(msgs, channels@, k - 1, remaining - 1) + tail);
                }
                remaining = remaining - 1;
            }
            k = k - 1;
        }
        proof {
            assert(recent_positions(msgs, channels@, k as int, remaining as int) =~= Seq::<usize>::empty());
            assert(recent_positions(msgs, channels@, n as int, limit as int) =~= tail);
        }
        let mut rows: Vec<ChatRow> = Vec::new();
        let mut j: usize = picked.len();
        while j > 0
            invariant
                j <= picked.len(),
                picked.len() == tail.len(),
                n == self.messages.len(),
                msgs == self.messages(),
                forall|t: int| 0 <= t < picked.len() ==> #[trigger] picked@[t] == tail[tail.len() - 1 - t],
                forall|t: int| 0 <= t < tail.len() ==> #[trigger] tail[t] < n,
                rows.len() == picked.len() - j,
                forall|t: int| 0 <= t < rows.len() ==> row_of(msgs[tail[t] as int], #[trigger] &rows@[t]),
            decreases j,
        {
            let pos = picked[j - 1];
            assert(pos == tail[tail.len() - j]);
            let m = &self.messages[pos];
            proof {
                assert(msgs[pos as int] == self.messages@[pos as int]@);
            }
            let name = channel_name(m.channel);
            let ghost r0 = rows@;
            rows.push(
                ChatRow {
                    id: m.id,
                    channel: m.channel,
                    channel_name: String::from_str(name),
                    sender_uid: m.sender_uid,
                    sender_name: copy_string(&m.sender_name),
                    sender_level: m.sender_level,
                    msg_type: m.msg_type,
                    text: copy_string(&m.text),
                    timestamp: m.timestamp,
                },
            );
            j = j - 1;
            proof {
                assert forall|t: int| 0 <= t < rows.len() implies row_of(msgs[tail[t] as int], #[trigger] &rows@[t]) by {
                    if t < rows.len() - 1 {
                        assert(rows@[t] == r0[t]);
                    }
                }
            }
        }
        rows
    }

    /// Forget every stored message (ids keep counting).
    pub fn clear(&mut self)
        ensures
            final(self).messages() == Seq::<ChatMessageView>::empty(),
            final(self).next_id() == old(self).next_id(),
    {
        self.messages = VecDeque::new();
        assert(self.messages() =~= Seq::<ChatMessageView>::empty());
    }
}


impl Default for ChatStore {
    fn default() -> (s: ChatStore)
        ensures
            s.messages() == Seq::<ChatMessageView>::empty(),
            s.next_id() == 0,
    {
        ChatStore::new()
    }
}

// --- relay pre-filter ---------------------------------------------------------------

/// Bounded set of idempotency keys already relayed from this instance,
/// remembered in insertion order; the oldest are forgotten first.
pub struct DedupSet {
    order: VecDeque<String>,
}

/// The views of remembered keys.
pub open spec fn key_views(q: Seq<String>) -> Seq<Seq<char>> {
    q.map_values(|k: String| k@)
}

impl DedupSet {
    /// No key twice, and at most [`MAX_DEDUP_KEYS`] of them.
    #[verifier::type_invariant]
    spec fn distinct_and_bounded(self) -> bool {
        &&& key_views(self.order@).no_duplicates()
        &&& self.order@.len() <= MAX_DEDUP_KEYS
    }

    /// The remembered keys, oldest first.
    pub closed spec fn keys(&self) -> Seq<Seq<char>> {
        key_views(self.order@)
    }

    /// An empty set.
    pub fn new() -> (d: DedupSet)
        ensures
            d.keys() == Seq::<Seq<char>>::empty(),
            d.keys().no_duplicates(),
    {
        let d = DedupSet { order: VecDeque::new() };
        assert(d.keys() =~= Seq::<Seq<char>>::empty());
        d
    }

    /// Insert `key`; returns true if it was new (i.e. should be relayed).
    /// A new key is remembered and, past [`MAX_DEDUP_KEYS`], the oldest keys
    /// are forgotten. The remembered keys never repeat and never exceed
    /// [`MAX_DEDUP_KEYS`].
    pub fn insert_new(&mut self, key: String) -> (fresh: bool)
        ensures
            fresh == !old(self).keys().contains(key@),
            fresh ==> final(self).keys() == keep_last(old(self).keys().push(key@), MAX_DEDUP_KEYS as nat),
            !fresh ==> final(self).keys() == old(self).keys(),
            final(self).keys().contains(key@),
            final(self).keys().no_duplicates(),
            final(self).keys().len() <= MAX_DEDUP_KEYS,
    {
        proof {
            use_type_invariant(&*self);
        }
        let ghost ks = self.keys();
        let mut i: usize = 0;
        while i < self.order.len()
            invariant
                i <= self.order.len(),
                ks == key_views(self.order@),
                ks.len() == self.order@.len(),
                forall|t: int| 0 <= t < i ==> ks[t] != key@,
            decreases self.order.len() - i,
        {
            if self.order[i] == key {
                assert(ks[i as int] == key@);
                proof {
                    use_type_invariant(&*self);
                }
                return false;
            }
            i = i + 1;
        }
        let mut q: VecDeque<String> = VecDeque::new();
        std::mem::swap(&mut q, &mut self.order);
        assert(key_views(q@) == ks);
        let ghost full = ks.push(key@);
        q.push_back(key);
        assert(key_views(q@) =~= full);
        proof {
            assert forall|a: int, b: int| 0 <= a < b < full.len() implies full[a] != full[b] by {
                if b == full.len() - 1 {
                    assert(ks[a] != key@);
                }
            }
            assert(full.skip(0) =~= full);
        }
        while q.len() > MAX_DEDUP_KEYS
            invariant
                full.len() <= MAX_DEDUP_KEYS + 1,
                full.no_duplicates(),
                key_views(q@).len() <= full.len(),
                key_views(q@).len() == q@.len(),
                key_views(q@).len() >= (if full.len() < MAX_DEDUP_KEYS { full.len() } else { MAX_DEDUP_KEYS as nat }),
                key_views(q@) == full.skip(full.len() - key_views(q@).len()),
            decreases q.len(),
        {
            let ghost before = key_views(q@);
            let _ = q.pop_front();
            assert(key_views(q@) =~= before.skip(1));
            assert(before.skip(1) =~= full.skip(full.len() - before.len() + 1));
        }
        proof {
            if full.len() > MAX_DEDUP_KEYS {
                assert(key_views(q@).len() == MAX_DEDUP_KEYS);
            } else {
                assert(key_views(q@).len() == full.len());
                assert(full.skip(0) =~= full);
            }
            let kept = key_views(q@);
            let d = full.len() - kept.len();
            assert forall|a: int, b: int| 0 <= a < b < kept.len() implies kept[a] != kept[b] by {
                assert(kept[a] == full[a + d] && kept[b] == full[b + d]);
            }
        }
        assert(key_views(q@) =~= keep_last(full, MAX_DEDUP_KEYS as nat));
        proof {
            lemma_key_remembered(ks, key@);
        }
        self.order = q;
        true
    }
}

/// Guild (Union) chat relay state: the on/off gate and the local "already
/// sent this key" filter, so a re-delivery on one client does not hammer the
/// relay.
pub struct GuildRelay {
    enabled: bool,
    sent_keys: DedupSet,
}

impl GuildRelay {
    /// Whether relaying is switched on.
    pub closed spec fn enabled(&self) -> bool {
        self.enabled
    }

    /// Keys already relayed from this instance, oldest first.
    pub closed spec fn sent(&self) -> Seq<Seq<char>> {
        self.sent_keys.keys()
    }

    /// A relay, switched on or off, that has sent nothing.
    pub fn new(enabled: bool) -> (r: GuildRelay)
        ensures
            r.enabled() == enabled,
            r.sent() == Seq::<Seq<char>>::empty(),
    {
        GuildRelay { enabled, sent_keys: DedupSet::new() }
    }

    /// Switch relaying on or off.
    pub fn set(&mut self, enabled: bool)
        ensures
            final(self).enabled() == enabled,
            final(self).sent() == old(self).sent(),
    {
        self.enabled = enabled;
    }

    /// Whether relaying is switched on.
    pub fn is_enabled(&self) -> (b: bool)
        ensures
            b == self.enabled(),
    {
        self.enabled
    }

    /// Record an idempotency key; returns true if it was not seen before.
    pub fn mark_sent(&mut self, key: &str) -> (fresh: bool)
        ensures
            final(self).enabled() == old(self).enabled(),
            fresh == !old(self).sent().contains(key@),
            fresh ==> final(self).sent() == keep_last(old(self).sent().push(key@), MAX_DEDUP_KEYS as nat),
            !fresh ==> final(self).sent() == old(self).sent(),
            final(self).sent().contains(key@),
            final(self).sent().no_duplicates(),
            final(self).sent().len() <= MAX_DEDUP_KEYS,
    {
        self.sent_keys.insert_new(String::from_str(key))
    }
}

/// `"{channel}:{game_msg_id}:{sender_uid}:{timestamp}"`.
pub open spec fn idempotency_key_of(channel: i32, game_msg_id: i64, sender_uid: i64, timestamp: i64) -> Seq<char> {
    int_decimal(channel as int) + seq![':'] + int_decimal(game_msg_id as int) + seq![':'] + int_decimal(
        sender_uid as int,
    ) + seq![':'] + int_decimal(timestamp as int)
}

/// Deterministic idempotency key from game-broadcast fields: every receiver
/// of the same guild message builds the same key.
pub fn idempotency_key(channel: i32, game_msg_id: i64, sender_uid: i64, timestamp: i64) -> (key: String)
    ensures
        key@ == idempotency_key_of(channel, game_msg_id, sender_uid, timestamp),
{
    let mut key = String::new();
    push_decimal(&mut key, channel as i128);
    push_char(&mut key, ':');
    push_decimal(&mut key, game_msg_id as i128);
    push_char(&mut key, ':');
    push_decimal(&mut key, sender_uid as i128);
    push_char(&mut key, ':');
    push_decimal(&mut key, timestamp as i128);
    assert(key@ =~= idempotency_key_of(channel, game_msg_id, sender_uid, timestamp));
    key
}

// --- relay configuration and requests ------------------------------------------------

/// Where the dedupe relay lives and the API key it wants (absent = relay
/// not configured in this build).
pub struct RelayConfig {
    pub endpoint: String,
    pub health_endpoint: String,
    pub api_key: Option<String>,
}

/// The text of an optional string.
pub open spec fn text_of(o: Option<String>) -> Option<Seq<char>> {
    match o {
        Some(s) => Some(s@),
        None => None,
    }
}

/// The optional string is present and not empty.
pub open spec fn given(o: Option<String>) -> bool {
    match o {
        Some(s) => s@.len() > 0,
        None => false,
    }
}

/// The setting in force: the runtime value, else the build-time value, else
/// `default`.
pub fn resolve_setting(runtime: &Option<String>, build_time: &Option<String>, default: &str) -> (v: String)
    ensures
        Some(v@) == (if runtime is Some {
            text_of(*runtime)
        } else if build_time is Some {
            text_of(*build_time)
        } else {
            Some(default@)
        }),
{
    match runtime {
        Some(v) => copy_string(v),
        None => match build_time {
            Some(v) => copy_string(v),
            None => String::from_str(default),
        },
    }
}

/// The API key in force: a non-empty runtime key, else the build-time key.
pub fn resolve_api_key(runtime: &Option<String>, build_time: &Option<String>) -> (k: Option<String>)
    ensures
        text_of(k) == (if given(*runtime) { text_of(*runtime) } else { text_of(*build_time) }),
{
    match runtime {
        Some(r) => {
            if r.as_str().unicode_len() > 0 {
                return Some(copy_string(r));
            }
        },
        None => {},
    }
    match build_time {
        Some(b) => Some(copy_string(b)),
        None => None,
    }
}

/// Whether this build has the relay API key available.
pub fn relay_configured(config: &RelayConfig) -> (b: bool)
    ensures
        b == config.api_key is Some,
{
    config.api_key.is_some()
}

/// What the relay is sent for one guild message.
pub struct RelayRequest {
    pub endpoint: String,
    pub api_key: String,
    pub idempotency_key: String,
    /// `"Name: text"`.
    pub content: String,
    /// Always `"union"`.
    pub channel: String,
}

/// Decide whether a Guild/Union message goes to the dedupe relay: not when
/// relaying is off, the text is blank, the build has no API key, or this
/// instance already sent the key (which it records otherwise). The request
/// carries `"Name: text"`.
pub fn relay_guild_message(
    relay: &mut GuildRelay,
    config: &RelayConfig,
    sender_name: &str,
    text: &str,
    key: String,
) -> (req: Option<RelayRequest>)
    ensures
        final(relay).enabled() == old(relay).enabled(),
        ({
            let pre = old(relay).enabled() && !is_blank(text@) && config.api_key is Some;
            &&& (pre && !old(relay).sent().contains(key@)) <==> req is Some
            &&& pre ==> final(relay).sent() == (if old(relay).sent().contains(key@) {
                old(relay).sent()
            } else {
                keep_last(old(relay).sent().push(key@), MAX_DEDUP_KEYS as nat)
            })
            &&& !pre ==> final(relay).sent() == old(relay).sent()
        }),
        req matches Some(r) ==> {
            &&& r.endpoint@ == config.endpoint@
            &&& text_of(config.api_key) == Some(r.api_key@)
            &&& r.idempotency_key@ == key@
            &&& r.content@ == sender_name@ + ": "@ + text@
            &&& r.channel@ == "union"@
        },
{
    if !relay.is_enabled() || trims_to_empty(text) {
        return None;
    }
    let api_key = match &config.api_key {
        None => return None,
        Some(k) => copy_string(k),
    };
    if !relay.mark_sent(key.as_str()) {
        return None;
    }
    let mut content = String::from_str(sender_name);
    content.append(": ");
    content.append(text);
    Some(
        RelayRequest {
            endpoint: copy_string(&config.endpoint),
            api_key,
            idempotency_key: key,
            content,
            channel: String::from_str("union"),
        },
    )
}

/// Relay status for the chat settings: whether the build has the API key and
/// whether the relay's health endpoint answered.
pub struct GuildRelayStatus {
    pub configured: bool,
    pub reachable: bool,
}

// --- incoming chat ---------------------------------------------------------------------

/// Text shown for a message: its text, else a placeholder for message types
/// that carry none (notice, sticker, image, voice, link).
pub open spec fn display_text_of(msg_type: i32, msg_text: Seq<char>) -> Seq<char> {
    if msg_text.len() > 0 {
        msg_text
    } else if msg_type == 2 {
        "[notice]"@
    } else if msg_type == 3 {
        "[sticker]"@
    } else if msg_type == 4 {
        "[image]"@
    } else if msg_type == 5 {
        "[voice]"@
    } else if msg_type == 6 {
        "[link]"@
    } else {
        Seq::empty()
    }
}

/// Text shown for a message (see [`display_text_of`]).
pub fn display_text(msg_type: i32, msg_text: &str) -> (t: String)
    ensures
        t@ == display_text_of(msg_type, msg_text@),
{
    if msg_text.unicode_len() > 0 {
        String::from_str(msg_text)
    } else {
        let t = match msg_type {
            2 => String::from_str("[notice]"),
            3 => String::from_str("[sticker]"),
            4 => String::from_str("[image]"),
            5 => String::from_str("[voice]"),
            6 => String::from_str("[link]"),
            _ => String::new(),
        };
        t
    }
}

/// A chat message as it arrives from the game.
pub struct IncomingChat {
    pub channel: i32,
    pub sender_uid: i64,
    pub sender_name: String,
    pub sender_level: i32,
    pub msg_type: i32,
    pub msg_text: String,
    pub timestamp: i64,
    pub msg_id: i64,
}

/// Handle one incoming chat message: store it (with its display text) and,
/// when it is a plain-text Guild/Union message, decide its relay request.
/// Returns the stored id and the relay request, if any.
pub fn handle_chat(
    store: &mut ChatStore,
    relay: &mut GuildRelay,
    config: &RelayConfig,
    incoming: &IncomingChat,
) -> (r: (u64, Option<RelayRequest>))
    ensures
        r.0 == old(store).next_id(),
        final(store).next_id() == old(store).next_id().wrapping_add(1),
        final(store).messages() == keep_last(
            old(store).messages().push(
                ChatMessageView {
                    id: r.0,
                    channel: incoming.channel,
                    sender_uid: incoming.sender_uid,
                    sender_name: incoming.sender_name@,
                    sender_level: incoming.sender_level,
                    msg_type: incoming.msg_type,
                    text: display_text_of(incoming.msg_type, incoming.msg_text@),
                    timestamp: incoming.timestamp,
                    game_msg_id: incoming.msg_id,
                },
            ),
            MAX_CHAT_HISTORY as nat,
        ),
        !(incoming.channel == CHANNEL_UNION && incoming.msg_type == 0 && incoming.msg_text@.len() > 0) ==> {
            &&& r.1 is None
            &&& final(relay).sent() == old(relay).sent()
        },
        (incoming.channel == CHANNEL_UNION && incoming.msg_type == 0 && incoming.msg_text@.len() > 0) ==> {
            let key = idempotency_key_of(incoming.channel, incoming.msg_id, incoming.sender_uid, incoming.timestamp);
            let pre = old(relay).enabled() && !is_blank(incoming.msg_text@) && config.api_key is Some;
            &&& (pre && !old(relay).sent().contains(key)) <==> r.1 is Some
            &&& r.1 matches Some(q) ==> q.idempotency_key@ == key && q.content@ == incoming.sender_name@ + ": "@
                + incoming.msg_text@
        },
{
    let is_plain_text = incoming.msg_type == 0 && incoming.msg_text.as_str().unicode_len() > 0;
    let text = display_text(incoming.msg_type, incoming.msg_text.as_str());
    let message = ChatMessage {
        id: 0,
        channel: incoming.channel,
        sender_uid: incoming.sender_uid,
        sender_name: copy_string(&incoming.sender_name),
        sender_level: incoming.sender_level,
        msg_type: incoming.msg_type,
        text,
        timestamp: incoming.timestamp,
        game_msg_id: incoming.msg_id,
    };
    let mut request: Option<RelayRequest> = None;
    if message.channel == CHANNEL_UNION && is_plain_text {
        let key = idempotency_key(message.channel, message.game_msg_id, message.sender_uid, message.timestamp);
        request = relay_guild_message(relay, config, message.sender_name.as_str(), incoming.msg_text.as_str(), key);
    }
    let id = store.push(message);
    (id, request)
}

/// How many chat rows a listing returns: 200 when the request is not
/// positive, else the request capped at [`MAX_CHAT_HISTORY`].
pub fn chat_limit(limit: i64) -> (n: usize)
    ensures
        n == (if limit <= 0 { 200 } else if limit < 500 { limit as int } else { 500 }),
{
    if limit <= 0 {
        200
    } else if limit < 500 {
        limit as usize
    } else {
        MAX_CHAT_HISTORY
    }
}

/// A key just remembered is among the remembered keys: the same key offered
/// again right after is not new, so a message is relayed at most once.
pub proof fn lemma_key_remembered(keys: Seq<Seq<char>>, key: Seq<char>)
    ensures
        keep_last(keys.push(key), MAX_DEDUP_KEYS as nat).contains(key),
{
    let full = keys.push(key);
    let kept = keep_last(full, MAX_DEDUP_KEYS as nat);
    assert(kept[kept.len() - 1] == key);
}

proof fn lemma_four_fields(
    a1: Seq<char>,
    b1: Seq<char>,
    c1: Seq<char>,
    d1: Seq<char>,
    a2: Seq<char>,
    b2: Seq<char>,
    c2: Seq<char>,
    d2: Seq<char>,
)
    requires
        !a1.contains(':') && !b1.contains(':') && !c1.contains(':'),
        !a2.contains(':') && !b2.contains(':') && !c2.contains(':'),
        a1 + seq![':'] + b1 + seq![':'] + c1 + seq![':'] + d1 == a2 + seq![':'] + b2 + seq![':'] + c2 + seq![':'] + d2,
    ensures
        a1 == a2 && b1 == b2 && c1 == c2 && d1 == d2,
{
    let rest1 = b1 + seq![':'] + c1 + seq![':'] + d1;
    let rest2 = b2 + seq![':'] + c2 + seq![':'] + d2;
    assert(a1 + seq![':'] + b1 + seq![':'] + c1 + seq![':'] + d1 =~= a1 + seq![':'] + rest1);
    assert(a2 + seq![':'] + b2 + seq![':'] + c2 + seq![':'] + d2 =~= a2 + seq![':'] + rest2);
    lemma_split_at_separator(a1, rest1, a2, rest2, ':');
    let tail1 = c1 + seq![':'] + d1;
    let tail2 = c2 + seq![':'] + d2;
    assert(rest1 =~= b1 + seq![':'] + tail1);
    assert(rest2 =~= b2 + seq![':'] + tail2);
    lemma_split_at_separator(b1, tail1, b2, tail2, ':');
    lemma_split_at_separator(c1, d1, c2, d2, ':');
}

/// Idempotency keys tell messages apart: two keys are equal exactly when
/// channel, game message id, sender and timestamp are all equal.
pub proof fn lemma_idempotency_key_injective(
    c1: i32,
    g1: i64,
    s1: i64,
    t1: i64,
    c2: i32,
    g2: i64,
    s2: i64,
    t2: i64,
)
    ensures
        idempotency_key_of(c1, g1, s1, t1) == idempotency_key_of(c2, g2, s2, t2) <==> (c1 == c2 && g1 == g2 && s1
            == s2 && t1 == t2),
{
    if idempotency_key_of(c1, g1, s1, t1) == idempotency_key_of(c2, g2, s2, t2) {
        lemma_int_decimal_facts(c1 as int, c2 as int);
        lemma_int_decimal_facts(g1 as int, g2 as int);
        lemma_int_decimal_facts(s1 as int, s2 as int);
        lemma_int_decimal_facts(t1 as int, t2 as int);
        lemma_int_decimal_facts(c2 as int, c1 as int);
        lemma_int_decimal_facts(g2 as int, g1 as int);
        lemma_int_decimal_facts(s2 as int, s1 as int);
        lemma_four_fields(
            int_decimal(c1 as int),
            int_decimal(g1 as int),
            int_decimal(s1 as int),
            int_decimal(t1 as int),
            int_decimal(c2 as int),
            int_decimal(g2 as int),
            int_decimal(s2 as int),
            int_decimal(t2 as int),
        );
    }
}

} // verus!
