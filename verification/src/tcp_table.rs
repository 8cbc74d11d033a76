//! Which captured TCP flows belong to the game.
//!
//! A flow is the game's when one of its ports is a local TCP port owned by a
//! running game process. The process list and the TCP table come from the
//! operating system; this module decides from them: which process is the
//! game, which table rows it owns, how long a snapshot stays fresh, and what
//! the diagnostics report.
use crate::sort::{is_stable_desc_order, precedes, stable_desc_order};
use crate::text::{ascii_lower_seq, int_decimal, lower_ascii_char, push_char, push_decimal};
use std::collections::HashSet;
use vstd::prelude::*;
use vstd::std_specs::iter::IteratorSpec;

verus! {

broadcast use vstd::std_specs::hash::group_hash_axioms;

/// How long (in milliseconds) a connection snapshot stays fresh.
pub const REFRESH_INTERVAL_MS: u64 = 3000;

/// Game executable names to look for (without `.exe`): standalone, Steam and
/// Epic builds.
pub fn default_game_exes() -> (names: Vec<&'static str>)
    ensures
        names@.len() == 3,
        names@[0]@ == "BPSR"@,
        names@[1]@ == "BPSR_STEAM"@,
        names@[2]@ == "BPSR_EPIC"@,
{
    let mut names: Vec<&'static str> = Vec::new();
    names.push("BPSR");
    names.push("BPSR_STEAM");
    names.push("BPSR_EPIC");
    names
}

/// The running game processes and the local TCP ports they own.
#[derive(Debug)]
pub struct GameConnections {
    pub pids: HashSet<u32>,
    pub local_ports: HashSet<u16>,
}

pub struct GameConnectionsView {
    pub pids: Set<u32>,
    pub local_ports: Set<u16>,
}

impl View for GameConnections {
    type V = GameConnectionsView;

    open spec fn view(&self) -> GameConnectionsView {
        GameConnectionsView { pids: self.pids@, local_ports: self.local_ports@ }
    }
}

impl Default for GameConnections {
    fn default() -> (c: GameConnections)
        ensures
            c.pids@ == Set::<u32>::empty(),
            c.local_ports@ == Set::<u16>::empty(),
    {
        GameConnections { pids: HashSet::new(), local_ports: HashSet::new() }
    }
}

fn copy_set<K: Copy + Eq + std::hash::Hash>(s: &HashSet<K>) -> (r: HashSet<K>)
    requires
        vstd::std_specs::hash::obeys_key_model::<K>(),
    ensures
        r@ == s@,
{
    let ghost items = s.iter().remaining();
    let mut r: HashSet<K> = HashSet::new();
    let ghost mut n: int = 0;
    for x in it: s.iter()
        invariant
            vstd::std_specs::hash::obeys_key_model::<K>(),
            n == it.index(),
            it.seq() == items,
            items.unref().to_set() == s@,
            items.len() == s@.len(),
            forall|k: K| r@.contains(k) <==> exists|j: int| 0 <= j < it.index() && *items[j] == k,
    {
        r.insert(*x);
        proof {
            n = n + 1;
        }
    }
    assert(n == items.len());
    proof {
        assert forall|k: K| r@.contains(k) <==> s@.contains(k) by {
            if s@.contains(k) {
                assert(items.unref().contains(k));
                let j = choose|j: int| 0 <= j < items.unref().len() && items.unref()[j] == k;
                assert(*items[j] == k);
            }
            if r@.contains(k) {
                let j = choose|j: int| 0 <= j < n && *items[j] == k;
                assert(items.unref()[j] == k);
                assert(items.unref().contains(k));
            }
        }
        assert(r@ =~= s@);
    }
    r
}

/// The ports of a set, in no particular order, each once.
fn ports_of(s: &HashSet<u16>) -> (v: Vec<u16>)
    ensures
        v@.to_set() == s@,
        v@.no_duplicates(),
        v@.len() == s@.len(),
{
    let ghost items = s.iter().remaining();
    let mut v: Vec<u16> = Vec::new();
    let ghost mut n: int = 0;
    for x in it: s.iter()
        invariant
            n == it.index(),
            it.seq() == items,
            items.unref().to_set() == s@,
            items.unref().no_duplicates(),
            items.len() == s@.len(),
            v@ == items.unref().take(it.index() as int),
    {
        assert(items.unref()[it.index() as int] == *x);
        v.push(*x);
        assert(v@ =~= items.unref().take(it.index() + 1));
        proof {
            n = n + 1;
        }
    }
    assert(n == items.len());
    assert(v@ =~= items.unref());
    v
}

fn copy_connections(c: &GameConnections) -> (r: GameConnections)
    ensures
        r@ == c@,
{
    GameConnections { pids: copy_set(&c.pids), local_ports: copy_set(&c.local_ports) }
}

// --- snapshot cache ---------------------------------------------------------------------

/// The last connection snapshot and when (in milliseconds of a monotonic
/// clock) it was taken.
pub struct ConnectionCache {
    entry: Option<(GameConnections, u64)>,
}

impl ConnectionCache {
    /// The cached snapshot and its time, if any.
    pub closed spec fn snapshot(&self) -> Option<(GameConnectionsView, u64)> {
        match self.entry {
            Some((c, t)) => Some((c@, t)),
            None => None,
        }
    }

    /// An empty cache.
    pub fn new() -> (c: ConnectionCache)
        ensures
            c.snapshot() is None,
    {
        ConnectionCache { entry: None }
    }
}

/// A snapshot is refreshed when there is none or it is at least
/// [`REFRESH_INTERVAL_MS`] old.
pub open spec fn needs_refresh(snapshot: Option<(GameConnectionsView, u64)>, now_ms: u64) -> bool {
    match snapshot {
        Some((_, at)) => (if now_ms >= at { now_ms - at } else { 0 }) >= REFRESH_INTERVAL_MS,
        None => true,
    }
}

/// The current game connections: the cached snapshot while it is fresh,
/// otherwise a new one from `collect`, which is cached with time `now_ms`.
pub fn game_connections<F: FnOnce() -> GameConnections>(cache: &mut ConnectionCache, now_ms: u64, collect: F) -> (c: GameConnections)
    requires
        collect.requires(()),
    ensures
        needs_refresh(old(cache).snapshot(), now_ms) ==> {
            &&& collect.ensures((), c)
            &&& final(cache).snapshot() == Some((c@, now_ms))
        },
        !needs_refresh(old(cache).snapshot(), now_ms) ==> {
            &&& final(cache).snapshot() == old(cache).snapshot()
            &&& old(cache).snapshot() matches Some(snap) && snap.0 == c@
        },
{
    let refresh = match &cache.entry {
        Some((_, at)) => now_ms.saturating_sub(*at) >= REFRESH_INTERVAL_MS,
        None => true,
    };
    if refresh {
        let conns = collect();
        cache.entry = Some((copy_connections(&conns), now_ms));
        conns
    } else {
        match &cache.entry {
            Some((c, _)) => copy_connections(c),
            None => GameConnections::default(),
        }
    }
}

/// A snapshot taken at `at` stays fresh for [`REFRESH_INTERVAL_MS`]: a call
/// of [`game_connections`] within that time answers the cached snapshot and
/// keeps it, so two calls less than the interval after a refresh answer the
/// same connections.
pub proof fn lemma_snapshot_fresh(c: GameConnectionsView, at: u64, now: u64)
    requires
        at <= now,
        now < at + REFRESH_INTERVAL_MS,
    ensures
        !needs_refresh(Some((c, at)), now),
{
}

/// Once the interval has passed since the snapshot, the next call refreshes.
pub proof fn lemma_snapshot_stale(c: GameConnectionsView, at: u64, now: u64)
    requires
        now >= at + REFRESH_INTERVAL_MS,
    ensures
        needs_refresh(Some((c, at)), now),
{
}

/// Whether a captured flow is the game's: either endpoint port is a local
/// port owned by the game.
pub fn is_game_flow(conns: &GameConnections, src_port: u16, dst_port: u16) -> (b: bool)
    ensures
        b == (conns.local_ports@.contains(src_port) || conns.local_ports@.contains(dst_port)),
{
    if conns.local_ports.is_empty() {
        return false;
    }
    conns.local_ports.contains(&src_port) || conns.local_ports.contains(&dst_port)
}

// --- diagnostics ---------------------------------------------------------------------

/// Connection diagnostics for the capture settings.
pub struct CaptureDiagnostics {
    /// A game process is running.
    pub game_detected: bool,
    /// Number of running game processes.
    pub process_count: usize,
    /// The game's local TCP ports, ascending.
    pub ports: Vec<u16>,
}

/// The diagnostics of a snapshot: whether the game runs, how many processes,
/// and its ports in ascending order.
pub fn diagnostics(conns: &GameConnections) -> (d: CaptureDiagnostics)
    ensures
        d.game_detected == !conns.pids@.is_empty(),
        d.process_count == conns.pids@.len(),
        d.ports@.to_set() == conns.local_ports@,
        d.ports@.len() == conns.local_ports@.len(),
        forall|i: int, j: int| 0 <= i < j < d.ports@.len() ==> d.ports@[i] < d.ports@[j],
{
    let unsorted = ports_of(&conns.local_ports);
    let mut keys: Vec<(i128, i128)> = Vec::new();
    let mut i: usize = 0;
    while i < unsorted.len()
        invariant
            i <= unsorted.len(),
            keys@.len() == i,
            forall|k: int| 0 <= k < i ==> #[trigger] keys@[k] == ((-(unsorted@[k] as int)) as i128, 0i128),
        decreases unsorted.len() - i,
    {
        keys.push((-(unsorted[i] as i128), 0i128));
        i = i + 1;
    }
    let p = stable_desc_order(&keys);
    let mut ports: Vec<u16> = Vec::new();
    let mut k: usize = 0;
    while k < p.len()
        invariant
            k <= p.len(),
            keys@.len() == unsorted@.len(),
            forall|m: int| 0 <= m < unsorted@.len() ==> #[trigger] keys@[m] == ((-(unsorted@[m] as int)) as i128, 0i128),
            is_stable_desc_order(keys@, p@),
            ports@.len() == k,
            forall|m: int| 0 <= m < k ==> #[trigger] ports@[m] == unsorted@[p@[m] as int],
        decreases p.len() - k,
    {
        assert(p@[k as int] < unsorted@.len());
        ports.push(unsorted[p[k]]);
        k = k + 1;
    }
    proof {
        assert forall|a: int, b: int| 0 <= a < b < ports@.len() implies ports@[a] < ports@[b] by {
            let x = p@[a] as int;
            let y = p@[b] as int;
            assert(precedes(keys@, x, y));
            if x == y {
                assert(false);
            }
            assert(unsorted@[x] != unsorted@[y]);
        }
        assert forall|v: u16| ports@.contains(v) <==> unsorted@.contains(v) by {
            if unsorted@.contains(v) {
                let m = choose|m: int| 0 <= m < unsorted@.len() && unsorted@[m] == v;
                assert(p@.contains(m as usize));
                let t = choose|t: int| 0 <= t < p@.len() && p@[t] == m as usize;
                assert(ports@[t] == v);
            }
        }
        assert(ports@.to_set() =~= unsorted@.to_set());
    }
    CaptureDiagnostics {
        game_detected: !conns.pids.is_empty(),
        process_count: conns.pids.len(),
        ports,
    }
}

/// `"Capture diagnostics: {processes} game process(es), {ports} local port(s) tracked"`.
pub open spec fn summary_text(processes: nat, ports: nat) -> Seq<char> {
    "Capture diagnostics: "@ + int_decimal(processes as int) + " game process(es), "@ + int_decimal(ports as int)
        + " local port(s) tracked"@
}

/// The one-line summary of a snapshot for the log.
pub fn log_summary(conns: &GameConnections) -> (s: String)
    ensures
        s@ == summary_text(conns.pids@.len(), conns.local_ports@.len()),
{
    let mut s = String::from_str("Capture diagnostics: ");
    push_decimal(&mut s, conns.pids.len() as i128);
    s.append(" game process(es), ");
    push_decimal(&mut s, conns.local_ports.len() as i128);
    s.append(" local port(s) tracked");
    s
}

/// The last detection message written to the log.
pub struct DetectionLog {
    last: String,
}

impl DetectionLog {
    pub closed spec fn last(&self) -> Seq<char> {
        self.last@
    }

    /// No message written yet.
    pub fn new() -> (l: DetectionLog)
        ensures
            l.last() == Seq::<char>::empty(),
    {
        DetectionLog { last: String::new() }
    }
}

/// Whether a detection message is logged: only when it differs from the
/// previous one, which it then replaces.
pub fn log_detect_change(log: &mut DetectionLog, msg: String) -> (emit: bool)
    ensures
        emit == (old(log).last() != msg@),
        final(log).last() == msg@,
{
    if log.last == msg {
        false
    } else {
        log.last = msg;
        true
    }
}

// --- process names ---------------------------------------------------------------------

/// UTF-16 decoding with each unpaired surrogate replaced by U+FFFD.
pub open spec fn utf16_lossy(u: Seq<u16>) -> Seq<char>
    decreases u.len(),
{
    if u.len() == 0 {
        Seq::empty()
    } else if u[0] < 0xD800 || u[0] > 0xDFFF {
        seq![(u[0] as u32) as char] + utf16_lossy(u.drop_first())
    } else if u[0] <= 0xDBFF && u.len() >= 2 && 0xDC00 <= u[1] <= 0xDFFF {
        seq![((0x10000 + (u[0] - 0xD800) * 0x400 + (u[1] - 0xDC00)) as u32) as char] + utf16_lossy(
            u.subrange(2, u.len() as int),
        )
    } else {
        seq!['\u{FFFD}'] + utf16_lossy(u.drop_first())
    }
}

/// Decodes UTF-16 (std's `String::from_utf16_lossy`): the documented
/// behaviour is decoding with every unpaired surrogate replaced by U+FFFD.
#[verifier::external_body]
fn decode_utf16_lossy(units: &[u16]) -> (s: String)
    ensures
        s@ == utf16_lossy(units@),
{
    String::from_utf16_lossy(units)
}

/// The code units before the first NUL (all of them when there is none).
pub open spec fn before_nul(u: Seq<u16>) -> Seq<u16>
    decreases u.len(),
{
    if u.len() == 0 {
        u
    } else if u[0] == 0 {
        Seq::empty()
    } else {
        seq![u[0]] + before_nul(u.drop_first())
    }
}

proof fn lemma_before_nul(u: Seq<u16>, k: int)
    requires
        0 <= k <= u.len(),
        forall|j: int| 0 <= j < k ==> u[j] != 0,
        k == u.len() || u[k] == 0,
    ensures
        before_nul(u) == u.take(k),
    decreases k,
{
    if k > 0 {
        lemma_before_nul(u.drop_first(), k - 1);
        assert(u.take(k) =~= seq![u[0]] + u.drop_first().take(k - 1));
    } else if u.len() > 0 {
        assert(u.take(0) =~= Seq::<u16>::empty());
    }
}

/// A file name without a trailing `.exe`, the extension matched without
/// regard to ASCII case (`.exe`, `.EXE`, `.Exe`, ...).
pub open spec fn exe_stem(name: Seq<char>) -> Seq<char> {
    if name.len() >= 4 && ascii_lower_seq(name.skip(name.len() - 4)) == ".exe"@ {
        name.take(name.len() - 4)
    } else {
        name
    }
}

/// The lower-cased stem of a process's executable name.
pub open spec fn exe_name_lower_of(wide: Seq<u16>) -> Seq<char> {
    ascii_lower_seq(exe_stem(utf16_lossy(before_nul(wide))))
}

/// The lower-cased executable name without its `.exe` extension (in any
/// ASCII case).
pub fn exe_stem_lower(name: &str) -> (s: String)
    ensures
        s@ == ascii_lower_seq(exe_stem(name@)),
{
    proof {
        reveal_strlit(".exe");
    }
    let n = name.unicode_len();
    let cut = n >= 4 && lower_ascii_char(name.get_char(n - 4)) == '.' && lower_ascii_char(name.get_char(n - 3)) == 'e'
        && lower_ascii_char(name.get_char(n - 2)) == 'x' && lower_ascii_char(name.get_char(n - 1)) == 'e';
    let end = if cut { n - 4 } else { n };
    proof {
        if n >= 4 {
            let tail = ascii_lower_seq(name@.skip(n - 4));
            if cut {
                assert(tail =~= ".exe"@);
            } else {
                assert(tail != ".exe"@) by {
                    if tail == ".exe"@ {
                        assert(tail[0] == '.');
                        assert(tail[1] == 'e');
                        assert(tail[2] == 'x');
                        assert(tail[3] == 'e');
                    }
                }
            }
        }
    }
    let ghost stem = exe_stem(name@);
    assert(stem =~= name@.take(end as int));
    let mut s = String::new();
    let mut i: usize = 0;
    while i < end
        invariant
            i <= end <= n,
            n == name@.len(),
            stem == name@.take(end as int),
            s@ == ascii_lower_seq(stem).take(i as int),
        decreases end - i,
    {
        push_char(&mut s, lower_ascii_char(name.get_char(i)));
        i = i + 1;
        assert(s@ =~= ascii_lower_seq(stem).take(i as int));
    }
    assert(s@ =~= ascii_lower_seq(stem));
    s
}

/// A process's executable name (a NUL-terminated UTF-16 buffer), decoded,
/// without `.exe`, lower-cased.
pub fn exe_name_lower(wide: &[u16]) -> (s: String)
    ensures
        s@ == exe_name_lower_of(wide@),
{
    let mut units: Vec<u16> = Vec::new();
    let mut i: usize = 0;
    while i < wide.len() && wide[i] != 0
        invariant
            i <= wide.len(),
            units@ == wide@.take(i as int),
            forall|j: int| 0 <= j < i ==> wide@[j] != 0,
        decreases wide.len() - i,
    {
        units.push(wide[i]);
        i = i + 1;
        assert(units@ =~= wide@.take(i as int));
    }
    proof {
        lemma_before_nul(wide@, i as int);
    }
    let name = decode_utf16_lossy(units.as_slice());
    exe_stem_lower(name.as_str())
}

/// A process is the game's when its lower-cased executable stem equals one
/// of the wanted names, lower-cased.
pub fn is_game_exe(wide: &[u16], exe_names: &[&str]) -> (b: bool)
    ensures
        b == exists|i: int| 0 <= i < exe_names@.len() && ascii_lower_seq(#[trigger] exe_names@[i]@) == exe_name_lower_of(wide@),
{
    let name = exe_name_lower(wide);
    let mut i: usize = 0;
    while i < exe_names.len()
        invariant
            i <= exe_names.len(),
            name@ == exe_name_lower_of(wide@),
            forall|j: int| 0 <= j < i ==> ascii_lower_seq(#[trigger] exe_names@[j]@) != name@,
        decreases exe_names.len() - i,
    {
        let wanted = lower_str(exe_names[i]);
        if wanted == name {
            return true;
        }
        i = i + 1;
    }
    false
}

fn lower_str(w: &str) -> (s: String)
    ensures
        s@ == ascii_lower_seq(w@),
{
    let n = w.unicode_len();
    let mut s = String::new();
    let mut i: usize = 0;
    while i < n
        invariant
            i <= n,
            n == w@.len(),
            s@ == ascii_lower_seq(w@).take(i as int),
        decreases n - i,
    {
        push_char(&mut s, lower_ascii_char(w.get_char(i)));
        i = i + 1;
        assert(s@ =~= ascii_lower_seq(w@).take(i as int));
    }
    assert(s@ =~= ascii_lower_seq(w@));
    s
}

// --- the TCP table -------------------------------------------------------------------

/// Size in bytes of one row of the owner-PID TCP table (six 32-bit fields:
/// state, local address, local port, remote address, remote port, owning PID).
pub const TCP_ROW_SIZE: usize = 24;

/// The little-endian 32-bit word at `off` (Windows is little-endian).
pub open spec fn le_u32(b: Seq<u8>, off: int) -> int {
    b[off] + b[off + 1] * 0x100 + b[off + 2] * 0x1_0000 + b[off + 3] * 0x100_0000
}

/// Number of table rows read: the count in the leading word, cut to the rows
/// that fit in the buffer.
pub open spec fn table_rows(b: Seq<u8>) -> int {
    let n = le_u32(b, 0);
    let fit = (b.len() - 4) / (TCP_ROW_SIZE as int);
    if n < fit { n } else { fit }
}

/// Offset of row `i`.
pub open spec fn row_offset(i: int) -> int {
    4 + i * (TCP_ROW_SIZE as int)
}

/// The owning PID of row `i`.
pub open spec fn row_pid(b: Seq<u8>, i: int) -> int {
    le_u32(b, row_offset(i) + 20)
}

/// The local port of row `i` (network byte order in the low 16 bits of its field).
pub open spec fn row_local_port(b: Seq<u8>, i: int) -> int {
    b[row_offset(i) + 8] * 0x100 + b[row_offset(i) + 9]
}

/// The local ports of the rows owned by one of `pids`.
pub open spec fn owned_ports(b: Seq<u8>, pids: Set<u32>) -> Set<u16> {
    Set::new(
        |port: u16|
            exists|i: int|
                0 <= i < table_rows(b) && pids.contains(#[trigger] row_pid(b, i) as u32) && row_local_port(b, i)
                    == port,
    )
}

fn read_u32(b: &[u8], off: usize) -> (v: u32)
    requires
        off + 4 <= b@.len(),
    ensures
        v == le_u32(b@, off as int),
{
    let v0 = b[off] as u32;
    let v1 = b[off + 1] as u32;
    let v2 = b[off + 2] as u32;
    let v3 = b[off + 3] as u32;
    v0 + v1 * 0x100 + v2 * 0x1_0000 + v3 * 0x100_0000
}

/// The local TCP ports owned by the given processes, from an owner-PID TCP
/// table: a leading row count, then the rows (see [`TCP_ROW_SIZE`]); rows
/// that do not fit in the buffer are not read.
pub fn owned_local_ports(table: &[u8], pids: &HashSet<u32>) -> (ports: HashSet<u16>)
    requires
        table@.len() >= 4,
    ensures
        ports@ == owned_ports(table@, pids@),
{
    let b = table;
    let count = read_u32(b, 0) as usize;
    let mut ports: HashSet<u16> = HashSet::new();
    let mut i: usize = 0;
    while i < count && 24 <= b.len() - (4 + i * 24)
        invariant
            i <= count,
            count == le_u32(b@, 0),
            b@.len() >= 4,
            4 + i * 24 <= b@.len(),
            i <= table_rows(b@),
            forall|port: u16|
                ports@.contains(port) <==> exists|j: int|
                    0 <= j < i && pids@.contains(#[trigger] row_pid(b@, j) as u32) && row_local_port(b@, j) == port,
        decreases count - i,
    {
        let off = 4 + i * 24;
        let pid = read_u32(b, off + 20);
        assert(pid == row_pid(b@, i as int));
        if pids.contains(&pid) {
            let port: u16 = (b[off + 8] as u16) * 0x100 + b[off + 9] as u16;
            assert(port == row_local_port(b@, i as int));
            ports.insert(port);
        }
        proof {
            assert((b@.len() - 4) / 24 >= i + 1) by {
                assert(4 + (i + 1) * 24 <= b@.len());
            }
        }
        i = i + 1;
    }
    proof {
        assert(i == table_rows(b@)) by {
            if i < count {
                assert(4 + i * 24 + 24 > b@.len());
                assert((b@.len() - 4) / 24 <= i);
            }
        }
        assert(ports@ =~= owned_ports(b@, pids@));
    }
    ports
}

/// The game connections from the running game processes and, when one was
/// read, the owner-PID TCP table: no game process means no ports; otherwise
/// the ports are those the game's processes own in the table (none when no
/// table could be read).
pub fn collect(pids: HashSet<u32>, table: Option<&[u8]>) -> (c: GameConnections)
    requires
        table matches Some(t) ==> t@.len() >= 4,
    ensures
        pids@.is_empty() ==> c.pids@ == Set::<u32>::empty() && c.local_ports@ == Set::<u16>::empty(),
        !pids@.is_empty() ==> c.pids@ == pids@ && c.local_ports@ == (match table {
            Some(t) => owned_ports(t@, pids@),
            None => Set::<u16>::empty(),
        }),
{
    if pids.is_empty() {
        return GameConnections::default();
    }
    let local_ports = match table {
        Some(t) => owned_local_ports(t, &pids),
        None => HashSet::new(),
    };
    GameConnections { pids, local_ports }
}

} // verus!
