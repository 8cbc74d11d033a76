//! Combinatorial module optimizer: scoring of attribute totals and the
//! search for the best combinations of 4 or 5 modules.
//!
//! For a combination, each attribute's value is summed across the chosen
//! modules. That per-attribute sum is converted to a *level* by counting how
//! many of the thresholds `1, 4, 8, 12, 16, 20` it meets (0..=6). The level
//! maps to a power value via the basic/special power tables. The score is the
//! sum of those per-attribute powers plus a bonus looked up from a sparse
//! table keyed by the *uncapped* total of all attribute values; totals that
//! the table does not list contribute 0.
use crate::modules::{
    attr_def, attr_is_special, attr_name_of, attr_slot, category_name, lemma_slot_of_id, slot_of_id, slot_search,
    ModuleCategory, ModuleInfo, ModuleInfoView, ModulePartView, MAX_MODULE_MAGNITUDE, NUM_ATTRS,
    attr_vector_of, copy_module, lemma_in_range_sums_fit, lemma_part_sums_bounded, module_in_range, parts_total, slot_total,
};
use crate::sort::{is_stable_desc_order, key_gt, precedes, stable_desc_order};
use vstd::prelude::*;

verus! {

// --- scoring -------------------------------------------------------------------

/// Number of the thresholds `1, 4, 8, 12, 16, 20` that `v` meets (0..=6).
pub open spec fn attr_level(v: int) -> int {
    (if v >= 1 { 1int } else { 0int }) + (if v >= 4 { 1int } else { 0int }) + (if v >= 8 {
        1int
    } else {
        0int
    }) + (if v >= 12 { 1int } else { 0int }) + (if v >= 16 { 1int } else { 0int }) + (if v
        >= 20 {
        1int
    } else {
        0int
    })
}

/// A level is between 0 and 6: no threshold lies above 20, so levels cap
/// at 6 by themselves.
pub proof fn lemma_attr_level_range(v: int)
    ensures
        0 <= attr_level(v) <= 6,
        v >= 20 ==> attr_level(v) == 6,
        v < 1 ==> attr_level(v) == 0,
{
}

/// Power of a level: the basic table `0, 7, 14, 29, 44, 167, 254` or the
/// special table `0, 14, 29, 59, 89, 298, 448`.
pub open spec fn level_power(special: bool, level: int) -> int {
    if !special {
        if level <= 0 { 0 } else if level == 1 { 7 } else if level == 2 { 14 } else if level == 3 {
            29
        } else if level == 4 { 44 } else if level == 5 { 167 } else { 254 }
    } else {
        if level <= 0 { 0 } else if level == 1 { 14 } else if level == 2 { 29 } else if level
            == 3 {
            59
        } else if level == 4 { 89 } else if level == 5 { 298 } else { 448 }
    }
}

/// Power contributed by one attribute whose summed value is `v`.
pub open spec fn attr_power(special: bool, v: int) -> int {
    level_power(special, attr_level(v))
}

/// Bonus for the uncapped total of all attribute values (0 where the table
/// has no entry, and outside `0..=120`).
pub open spec fn total_bonus(t: i32) -> int {
    match t {
        0 => 0,
        1 => 5,
        2 => 11,
        3 => 17,
        4 => 23,
        5 => 29,
        6 => 34,
        7 => 40,
        8 => 46,
        18 => 104,
        19 => 110,
        20 => 116,
        21 => 122,
        22 => 128,
        23 => 133,
        24 => 139,
        25 => 145,
        26 => 151,
        27 => 157,
        28 => 163,
        29 => 168,
        30 => 174,
        31 => 180,
        32 => 186,
        33 => 192,
        34 => 198,
        35 => 203,
        36 => 209,
        37 => 215,
        38 => 221,
        39 => 227,
        40 => 233,
        41 => 238,
        42 => 244,
        43 => 250,
        44 => 256,
        45 => 262,
        46 => 267,
        47 => 273,
        48 => 279,
        49 => 285,
        50 => 291,
        51 => 297,
        52 => 302,
        53 => 308,
        54 => 314,
        55 => 320,
        56 => 326,
        57 => 332,
        58 => 337,
        59 => 343,
        60 => 349,
        61 => 355,
        62 => 361,
        63 => 366,
        64 => 372,
        65 => 378,
        66 => 384,
        67 => 390,
        68 => 396,
        69 => 401,
        70 => 407,
        71 => 413,
        72 => 419,
        73 => 425,
        74 => 431,
        75 => 436,
        76 => 442,
        77 => 448,
        78 => 454,
        79 => 460,
        80 => 466,
        81 => 471,
        82 => 477,
        83 => 483,
        84 => 489,
        85 => 495,
        86 => 500,
        87 => 506,
        88 => 512,
        89 => 518,
        90 => 524,
        91 => 530,
        92 => 535,
        93 => 541,
        94 => 547,
        95 => 553,
        96 => 559,
        97 => 565,
        98 => 570,
        99 => 576,
        100 => 582,
        101 => 588,
        102 => 594,
        103 => 599,
        104 => 605,
        105 => 611,
        106 => 617,
        113 => 658,
        114 => 664,
        115 => 669,
        116 => 675,
        117 => 681,
        118 => 687,
        119 => 693,
        120 => 699,
        _ => 0,
    }
}

/// Sum of the attribute powers over the first `k` slots of `totals`.
pub open spec fn threshold_power(totals: Seq<i32>, k: int) -> int
    decreases k,
{
    if k <= 0 {
        0
    } else {
        threshold_power(totals, k - 1) + attr_power(attr_is_special(k - 1), totals[k - 1] as int)
    }
}

/// Score of a combination with per-attribute totals `totals` (21 slots) and
/// overall total `total_value`.
pub open spec fn combo_score(totals: Seq<i32>, total_value: i32) -> int {
    threshold_power(totals, NUM_ATTRS as int) + total_bonus(total_value)
}

proof fn lemma_threshold_power_bounds(totals: Seq<i32>, k: int)
    ensures
        0 <= threshold_power(totals, k) <= 448 * (if k < 0 { 0 } else { k }),
    decreases k,
{
    if k > 0 {
        lemma_threshold_power_bounds(totals, k - 1);
    }
}

proof fn lemma_attr_power_monotone(special: bool, a: int, b: int)
    requires
        a <= b,
    ensures
        attr_power(special, a) <= attr_power(special, b),
{
    lemma_attr_level_range(a);
    lemma_attr_level_range(b);
    assert(attr_level(a) <= attr_level(b));
}

proof fn lemma_threshold_power_monotone(t1: Seq<i32>, t2: Seq<i32>, k: int)
    requires
        0 <= k <= t1.len(),
        k <= t2.len(),
        forall|i: int| 0 <= i < k ==> t1[i] <= t2[i],
    ensures
        threshold_power(t1, k) <= threshold_power(t2, k),
    decreases k,
{
    if k > 0 {
        lemma_threshold_power_monotone(t1, t2, k - 1);
        lemma_attr_power_monotone(attr_is_special(k - 1), t1[k - 1] as int, t2[k - 1] as int);
    }
}

proof fn lemma_threshold_power_capped(t1: Seq<i32>, t2: Seq<i32>, k: int)
    requires
        0 <= k <= t1.len(),
        k <= t2.len(),
        forall|i: int| 0 <= i < k ==> t1[i] == t2[i] || (t1[i] >= 20 && t2[i] >= 20),
    ensures
        threshold_power(t1, k) == threshold_power(t2, k),
    decreases k,
{
    if k > 0 {
        lemma_threshold_power_capped(t1, t2, k - 1);
        lemma_attr_level_range(t1[k - 1] as int);
        lemma_attr_level_range(t2[k - 1] as int);
    }
}

/// The score never decreases as attribute totals grow (for the same overall
/// total).
pub proof fn lemma_score_monotone(t1: Seq<i32>, t2: Seq<i32>, total_value: i32)
    requires
        t1.len() == NUM_ATTRS,
        t2.len() == NUM_ATTRS,
        forall|i: int| 0 <= i < NUM_ATTRS ==> t1[i] <= t2[i],
    ensures
        combo_score(t1, total_value) <= combo_score(t2, total_value),
{
    lemma_threshold_power_monotone(t1, t2, NUM_ATTRS as int);
}

/// Totals count only up to 20: totals that differ only where both are at
/// least 20 score the same (levels cap at 6).
pub proof fn lemma_score_caps_at_twenty(t1: Seq<i32>, t2: Seq<i32>, total_value: i32)
    requires
        t1.len() == NUM_ATTRS,
        t2.len() == NUM_ATTRS,
        forall|i: int| 0 <= i < NUM_ATTRS ==> t1[i] == t2[i] || (t1[i] >= 20 && t2[i] >= 20),
    ensures
        combo_score(t1, total_value) == combo_score(t2, total_value),
{
    lemma_threshold_power_capped(t1, t2, NUM_ATTRS as int);
}

/// Per-attribute totals with `v` in slot `slot` and 0 in every other slot.
pub open spec fn single_total(slot: int, v: i32) -> Seq<i32> {
    Seq::new(NUM_ATTRS as nat, |i: int| if i == slot { v } else { 0i32 })
}

proof fn lemma_threshold_single(slot: int, v: i32, k: int)
    requires
        0 <= slot < NUM_ATTRS,
        0 <= k <= NUM_ATTRS,
    ensures
        threshold_power(single_total(slot, v), k) == (if k > slot { attr_power(attr_is_special(slot), v as int) } else { 0 }),
    decreases k,
{
    if k > 0 {
        lemma_threshold_single(slot, v, k - 1);
        lemma_attr_level_range(0);
    }
}

/// The eight special ("极") attributes, ids 2104, 2105, 2204, 2205, 2304,
/// 2404, 2405 and 2406, score on the special power table: an attribute total
/// `v` alone is worth 0, 14, 29, 59, 89, 298 or 448 as it reaches 1, 4, 8,
/// 12, 16 and 20, plus the total-value bonus.
pub proof fn lemma_special_attribute_power(id: i32, v: i32, total_value: i32)
    requires
        id == 2104 || id == 2105 || id == 2204 || id == 2205 || id == 2304 || id == 2404 || id == 2405 || id == 2406,
    ensures
        0 <= slot_of_id(id) < NUM_ATTRS,
        combo_score(single_total(slot_of_id(id), v), total_value) == total_bonus(total_value) + (if v >= 20 {
            448int
        } else if v >= 16 {
            298int
        } else if v >= 12 {
            89int
        } else if v >= 8 {
            59int
        } else if v >= 4 {
            29int
        } else if v >= 1 {
            14int
        } else {
            0int
        }),
{
    reveal_with_fuel(slot_search, 22);
    let slot = slot_of_id(id);
    assert(13 <= slot < NUM_ATTRS);
    lemma_threshold_single(slot, v, NUM_ATTRS as int);
}

/// The thirteen basic attributes, ids 1110, 1111, 1112, 1113, 1114, 1205,
/// 1206, 1307, 1308, 1407, 1408, 1409 and 1410, score on the basic power
/// table: an attribute total `v` alone is worth 0, 7, 14, 29, 44, 167 or 254
/// as it reaches 1, 4, 8, 12, 16 and 20, plus the total-value bonus.
pub proof fn lemma_basic_attribute_power(id: i32, v: i32, total_value: i32)
    requires
        id == 1110 || id == 1111 || id == 1112 || id == 1113 || id == 1114 || id == 1205 || id == 1206 || id == 1307
            || id == 1308 || id == 1407 || id == 1408 || id == 1409 || id == 1410,
    ensures
        0 <= slot_of_id(id) < NUM_ATTRS,
        combo_score(single_total(slot_of_id(id), v), total_value) == total_bonus(total_value) + (if v >= 20 {
            254int
        } else if v >= 16 {
            167int
        } else if v >= 12 {
            44int
        } else if v >= 8 {
            29int
        } else if v >= 4 {
            14int
        } else if v >= 1 {
            7int
        } else {
            0int
        }),
{
    reveal_with_fuel(slot_search, 22);
    let slot = slot_of_id(id);
    assert(0 <= slot < 13);
    lemma_threshold_single(slot, v, NUM_ATTRS as int);
}

/// The power of an attribute with summed value `v`, for `v` in `0..=20`.
fn power_for_value(special: bool, v: i32) -> (p: i32)
    requires
        0 <= v <= 20,
    ensures
        p == attr_power(special, v as int),
{
    let level: i32 = if v >= 20 { 6 } else if v >= 16 { 5 } else if v >= 12 { 4 } else if v >= 8 {
        3
    } else if v >= 4 { 2 } else if v >= 1 { 1 } else { 0 };
    if !special {
        if level == 0 { 0 } else if level == 1 { 7 } else if level == 2 { 14 } else if level == 3 {
            29
        } else if level == 4 { 44 } else if level == 5 { 167 } else { 254 }
    } else {
        if level == 0 { 0 } else if level == 1 { 14 } else if level == 2 { 29 } else if level
            == 3 {
            59
        } else if level == 4 { 89 } else if level == 5 { 298 } else { 448 }
    }
}

/// The total-value bonus of `t`.
fn total_bonus_of(t: i32) -> (b: i32)
    ensures
        b == total_bonus(t),
{
    match t {
        0 => 0,
        1 => 5,
        2 => 11,
        3 => 17,
        4 => 23,
        5 => 29,
        6 => 34,
        7 => 40,
        8 => 46,
        18 => 104,
        19 => 110,
        20 => 116,
        21 => 122,
        22 => 128,
        23 => 133,
        24 => 139,
        25 => 145,
        26 => 151,
        27 => 157,
        28 => 163,
        29 => 168,
        30 => 174,
        31 => 180,
        32 => 186,
        33 => 192,
        34 => 198,
        35 => 203,
        36 => 209,
        37 => 215,
        38 => 221,
        39 => 227,
        40 => 233,
        41 => 238,
        42 => 244,
        43 => 250,
        44 => 256,
        45 => 262,
        46 => 267,
        47 => 273,
        48 => 279,
        49 => 285,
        50 => 291,
        51 => 297,
        52 => 302,
        53 => 308,
        54 => 314,
        55 => 320,
        56 => 326,
        57 => 332,
        58 => 337,
        59 => 343,
        60 => 349,
        61 => 355,
        62 => 361,
        63 => 366,
        64 => 372,
        65 => 378,
        66 => 384,
        67 => 390,
        68 => 396,
        69 => 401,
        70 => 407,
        71 => 413,
        72 => 419,
        73 => 425,
        74 => 431,
        75 => 436,
        76 => 442,
        77 => 448,
        78 => 454,
        79 => 460,
        80 => 466,
        81 => 471,
        82 => 477,
        83 => 483,
        84 => 489,
        85 => 495,
        86 => 500,
        87 => 506,
        88 => 512,
        89 => 518,
        90 => 524,
        91 => 530,
        92 => 535,
        93 => 541,
        94 => 547,
        95 => 553,
        96 => 559,
        97 => 565,
        98 => 570,
        99 => 576,
        100 => 582,
        101 => 588,
        102 => 594,
        103 => 599,
        104 => 605,
        105 => 611,
        106 => 617,
        113 => 658,
        114 => 664,
        115 => 669,
        116 => 675,
        117 => 681,
        118 => 687,
        119 => 693,
        120 => 699,
        _ => 0,
    }
}

/// Score a combination from its summed per-attribute totals and the
/// (uncapped) total value.
pub fn score_totals(totals: &[i32; 21], total_value: i32) -> (s: i64)
    ensures
        s == combo_score(totals@, total_value),
{
    let mut threshold: i64 = 0;
    let mut i: usize = 0;
    while i < NUM_ATTRS
        invariant
            i <= NUM_ATTRS,
            threshold == threshold_power(totals@, i as int),
        decreases NUM_ATTRS - i,
    {
        proof {
            lemma_threshold_power_bounds(totals@, i as int);
        }
        let v = totals[i];
        let special = attr_def(i).special;
        if v > 0 {
            let clamped = if v < 20 { v } else { 20 };
            threshold = threshold + power_for_value(special, clamped) as i64;
        }
        i = i + 1;
    }
    let bonus = total_bonus_of(total_value);
    proof {
        lemma_threshold_power_bounds(totals@, NUM_ATTRS as int);
        assert(0 <= bonus <= 699);
    }
    threshold + bonus as i64
}


// --- scored candidates -----------------------------------------------------------

/// A scored combination: its score, its overall attribute total, and the
/// indices of its modules.
pub struct Scored {
    pub score: i64,
    pub total: i32,
    pub idxs: Vec<usize>,
}

/// Mathematical value of a [`Scored`].
#[verifier::ext_equal]
pub struct ScoredView {
    pub score: i64,
    pub total: i32,
    pub idxs: Seq<usize>,
}

impl View for Scored {
    type V = ScoredView;

    open spec fn view(&self) -> ScoredView {
        ScoredView { score: self.score, total: self.total, idxs: self.idxs@ }
    }
}

/// Ranking key of a scored combination: score first, then the overall total.
pub open spec fn rank_key(v: ScoredView) -> (i128, i128) {
    (v.score as i128, v.total as i128)
}

/// `a` ranks strictly above `b`.
pub open spec fn ranks_above(a: ScoredView, b: ScoredView) -> bool {
    key_gt(rank_key(a), rank_key(b))
}

/// `a` ranks at least as high as `b`.
pub open spec fn ranks_at_least(a: ScoredView, b: ScoredView) -> bool {
    !ranks_above(b, a)
}

/// Whether `a` ranks strictly above `b`.
pub fn outranks(a: &Scored, b: &Scored) -> (r: bool)
    ensures
        r == ranks_above(a@, b@),
{
    a.score > b.score || (a.score == b.score && a.total > b.total)
}

fn copy_indices(v: &Vec<usize>) -> (r: Vec<usize>)
    ensures
        r@ == v@,
{
    let mut r: Vec<usize> = Vec::new();
    let mut i: usize = 0;
    while i < v.len()
        invariant
            i <= v.len(),
            r@ == v@.take(i as int),
        decreases v.len() - i,
    {
        r.push(v[i]);
        i = i + 1;
        assert(r@ =~= v@.take(i as int));
    }
    assert(v@.take(v.len() as int) =~= v@);
    r
}

/// A copy of a scored combination.
pub fn copy_scored(s: &Scored) -> (r: Scored)
    ensures
        r@ == s@,
{
    Scored { score: s.score, total: s.total, idxs: copy_indices(&s.idxs) }
}

// --- bounded top-k ----------------------------------------------------------------

/// Position of the first lowest-ranked element of `s`.
pub open spec fn first_min_index(s: Seq<ScoredView>) -> int
    decreases s.len(),
{
    if s.len() <= 1 {
        0
    } else {
        let m = first_min_index(s.drop_last());
        if ranks_above(s[m], s.last()) {
            s.len() - 1
        } else {
            m
        }
    }
}

/// [`first_min_index`] names a lowest-ranked element.
pub proof fn lemma_first_min_index(s: Seq<ScoredView>)
    requires
        s.len() > 0,
    ensures
        0 <= first_min_index(s) < s.len(),
        forall|j: int| 0 <= j < s.len() ==> ranks_at_least(#[trigger] s[j], s[first_min_index(s)]),
    decreases s.len(),
{
    if s.len() > 1 {
        lemma_first_min_index(s.drop_last());
        let m = first_min_index(s.drop_last());
        assert forall|j: int| 0 <= j < s.len() implies ranks_at_least(#[trigger] s[j], s[first_min_index(s)]) by {
            if j < s.len() - 1 {
                assert(s.drop_last()[j] == s[j]);
            }
        }
    }
}

/// Bounded collection that retains the `cap` highest-ranked items pushed
/// into it.
pub struct TopK {
    cap: usize,
    items: Vec<Scored>,
    dropped: Ghost<Seq<ScoredView>>,
}

impl TopK {
    /// The most items retained.
    pub closed spec fn capacity(&self) -> nat {
        self.cap as nat
    }

    /// The items currently retained, in storage order.
    pub closed spec fn retained(&self) -> Seq<ScoredView> {
        self.items@.map_values(|s: Scored| s@)
    }

    /// Every item pushed and then let go, in the order it left.
    pub closed spec fn dropped(&self) -> Seq<ScoredView> {
        self.dropped@
    }

    /// At most `capacity` items are retained; an item is let go only once
    /// the collection is full; and every item let go ranks no higher than
    /// every item retained.
    pub open spec fn wf(&self) -> bool {
        &&& self.capacity() >= 1
        &&& self.retained().len() <= self.capacity()
        &&& self.dropped().len() > 0 ==> self.retained().len() == self.capacity()
        &&& forall|i: int, j: int|
            0 <= i < self.dropped().len() && 0 <= j < self.retained().len() ==> ranks_at_least(
                #[trigger] self.retained()[j],
                #[trigger] self.dropped()[i],
            )
    }

    /// An empty collection of capacity `max(cap, 1)`.
    pub fn new(cap: usize) -> (t: TopK)
        ensures
            t.wf(),
            t.capacity() == if cap >= 1 { cap as nat } else { 1 },
            t.retained() == Seq::<ScoredView>::empty(),
            t.dropped() == Seq::<ScoredView>::empty(),
    {
        let t = TopK {
            cap: if cap >= 1 { cap } else { 1 },
            items: Vec::new(),
            dropped: Ghost(Seq::empty()),
        };
        assert(t.retained() =~= Seq::<ScoredView>::empty());
        t
    }

    /// Offer `item`: kept while there is room; once full, it replaces the
    /// first lowest-ranked retained item if it ranks strictly above it, and
    /// is let go otherwise.
    pub fn push(&mut self, item: Scored)
        requires
            old(self).wf(),
        ensures
            final(self).wf(),
            final(self).capacity() == old(self).capacity(),
            old(self).retained().len() < old(self).capacity() ==> {
                &&& final(self).retained() == old(self).retained().push(item@)
                &&& final(self).dropped() == old(self).dropped()
            },
            old(self).retained().len() >= old(self).capacity() ==> {
                let r = old(self).retained();
                let m = first_min_index(r);
                if ranks_above(item@, r[m]) {
                    &&& final(self).retained() == r.update(m, item@)
                    &&& final(self).dropped() == old(self).dropped().push(r[m])
                } else {
                    &&& final(self).retained() == r
                    &&& final(self).dropped() == old(self).dropped().push(item@)
                }
            },
            forall|x: ScoredView|
                (#[trigger] final(self).retained().contains(x) || #[trigger] final(self).dropped().contains(x))
                    <==> (old(self).retained().contains(x) || old(self).dropped().contains(x) || x
                    == item@),
            old(self).retained().no_duplicates() && !old(self).retained().contains(item@)
                ==> final(self).retained().no_duplicates(),
    {
        let ghost old_r = self.retained();
        let ghost old_d = self.dropped();
        let ghost iv = item@;
        if self.items.len() < self.cap {
            self.items.push(item);
            proof {
                assert(self.retained() =~= old_r.push(iv));
                assert forall|x: ScoredView|
                    (self.retained().contains(x) || self.dropped().contains(x)) <==> (old_r.contains(x)
                        || old_d.contains(x) || x == iv) by {
                    if old_r.contains(x) {
                        let k = choose|k: int| 0 <= k < old_r.len() && old_r[k] == x;
                        assert(self.retained()[k] == x);
                    }
                    if x == iv {
                        assert(self.retained()[old_r.len() as int] == x);
                    }
                    if self.retained().contains(x) {
                        let k = choose|k: int| 0 <= k < self.retained().len() && self.retained()[k] == x;
                        if k < old_r.len() {
                            assert(old_r[k] == x);
                        }
                    }
                }
            }
        } else {
            proof {
                lemma_first_min_index(old_r);
            }
            let mut m: usize = 0;
            let mut j: usize = 1;
            while j < self.items.len()
                invariant
                    self.items.len() == old_r.len(),
                    old_r == self.items@.map_values(|s: Scored| s@),
                    old_r.len() >= 1,
                    1 <= j <= old_r.len(),
                    m == first_min_index(old_r.take(j as int)),
                decreases old_r.len() - j,
            {
                proof {
                    lemma_first_min_index(old_r.take(j as int));
                    assert(old_r.take(j + 1).drop_last() =~= old_r.take(j as int));
                }
                if outranks(&self.items[m], &self.items[j]) {
                    m = j;
                }
                j = j + 1;
            }
            proof {
                assert(old_r.take(old_r.len() as int) =~= old_r);
            }
            if outranks(&item, &self.items[m]) {
                let ghost gone = old_r[m as int];
                self.items.set(m, item);
                self.dropped = Ghost(old_d.push(gone));
                proof {
                    assert(self.retained() =~= old_r.update(m as int, iv));
                    assert forall|i: int, k: int|
                        0 <= i < self.dropped().len() && 0 <= k < self.retained().len() implies ranks_at_least(
                        #[trigger] self.retained()[k],
                        #[trigger] self.dropped()[i],
                    ) by {
                        assert(ranks_at_least(old_r[k], gone));
                        if i < old_d.len() {
                            assert(ranks_at_least(old_r[m as int], old_d[i]));
                        }
                    }
                    assert forall|x: ScoredView|
                        (self.retained().contains(x) || self.dropped().contains(x)) <==> (old_r.contains(x)
                            || old_d.contains(x) || x == iv) by {
                        if old_r.contains(x) {
                            let k = choose|k: int| 0 <= k < old_r.len() && old_r[k] == x;
                            if k == m {
                                assert(self.dropped()[old_d.len() as int] == x);
                            } else {
                                assert(self.retained()[k] == x);
                            }
                        }
                        if old_d.contains(x) {
                            let k = choose|k: int| 0 <= k < old_d.len() && old_d[k] == x;
                            assert(self.dropped()[k] == x);
                        }
                        if x == iv {
                            assert(self.retained()[m as int] == x);
                        }
                        if self.retained().contains(x) {
                            let k = choose|k: int| 0 <= k < self.retained().len() && self.retained()[k] == x;
                            if k != m {
                                assert(old_r[k] == x);
                            }
                        }
                        if self.dropped().contains(x) {
                            let k = choose|k: int| 0 <= k < self.dropped().len() && self.dropped()[k] == x;
                            if k < old_d.len() {
                                assert(old_d[k] == x);
                            } else {
                                assert(old_r[m as int] == x);
                            }
                        }
                    }
                    if old_r.no_duplicates() && !old_r.contains(iv) {
                        assert forall|a: int, b: int|
                            0 <= a < self.retained().len() && 0 <= b < self.retained().len() && a != b
                            implies self.retained()[a] != self.retained()[b] by {
                            if a == m {
                                assert(old_r[b] == self.retained()[b]);
                            } else if b == m {
                                assert(old_r[a] == self.retained()[a]);
                            }
                        }
                    }
                }
            } else {
                self.dropped = Ghost(old_d.push(iv));
                proof {
                    assert(self.retained() =~= old_r);
                    assert forall|i: int, k: int|
                        0 <= i < self.dropped().len() && 0 <= k < self.retained().len() implies ranks_at_least(
                        #[trigger] self.retained()[k],
                        #[trigger] self.dropped()[i],
                    ) by {
                        assert(ranks_at_least(old_r[k], old_r[m as int]));
                    }
                    assert forall|x: ScoredView|
                        (self.retained().contains(x) || self.dropped().contains(x)) <==> (old_r.contains(x)
                            || old_d.contains(x) || x == iv) by {
                        if old_d.contains(x) {
                            let k = choose|k: int| 0 <= k < old_d.len() && old_d[k] == x;
                            assert(self.dropped()[k] == x);
                        }
                        if x == iv {
                            assert(self.dropped()[old_d.len() as int] == x);
                        }
                        if self.dropped().contains(x) {
                            let k = choose|k: int| 0 <= k < self.dropped().len() && self.dropped()[k] == x;
                            if k < old_d.len() {
                                assert(old_d[k] == x);
                            }
                        }
                    }
                }
            }
        }
    }

    /// The retained items, in storage order.
    pub fn into_vec(self) -> (v: Vec<Scored>)
        ensures
            v@.map_values(|s: Scored| s@) == self.retained(),
    {
        self.items
    }
}


// --- finalize ---------------------------------------------------------------------

/// `s` with `x` inserted before the trailing run of elements greater than `x`.
pub open spec fn insert_sorted(s: Seq<usize>, x: usize) -> Seq<usize>
    decreases s.len(),
{
    if s.len() == 0 {
        seq![x]
    } else if s.last() <= x {
        s.push(x)
    } else {
        insert_sorted(s.drop_last(), x).push(s.last())
    }
}

/// `s` sorted ascending (inserting its elements one by one into a sorted
/// prefix).
pub open spec fn sort_indices(s: Seq<usize>) -> Seq<usize>
    decreases s.len(),
{
    if s.len() == 0 {
        Seq::empty()
    } else {
        insert_sorted(sort_indices(s.drop_last()), s.last())
    }
}

/// Every element is smaller than the next one.
pub open spec fn strictly_increasing(s: Seq<usize>) -> bool {
    forall|i: int, j: int| 0 <= i < j < s.len() ==> #[trigger] s[i] < #[trigger] s[j]
}

/// Sorting an already strictly increasing sequence leaves it unchanged.
pub proof fn lemma_sort_increasing(s: Seq<usize>)
    requires
        strictly_increasing(s),
    ensures
        sort_indices(s) == s,
    decreases s.len(),
{
    if s.len() > 0 {
        lemma_sort_increasing(s.drop_last());
        assert(s.drop_last().push(s.last()) =~= s);
    }
}

fn insert_sorted_exec(s: &mut Vec<usize>, x: usize)
    ensures
        final(s)@ == insert_sorted(old(s)@, x),
    decreases old(s)@.len(),
{
    if s.len() == 0 {
        s.push(x);
        assert(final(s)@ =~= seq![x]);
    } else {
        let l = s[s.len() - 1];
        if l <= x {
            s.push(x);
        } else {
            let ghost before = s@;
            s.pop();
            assert(s@ =~= before.drop_last());
            insert_sorted_exec(s, x);
            s.push(l);
        }
    }
}

/// The indices of a combination sorted ascending: the key under which two
/// combinations are the same set of modules.
pub fn sorted_indices(v: &Vec<usize>) -> (r: Vec<usize>)
    ensures
        r@ == sort_indices(v@),
{
    let mut r: Vec<usize> = Vec::new();
    let mut i: usize = 0;
    while i < v.len()
        invariant
            i <= v.len(),
            r@ == sort_indices(v@.take(i as int)),
        decreases v.len() - i,
    {
        proof {
            assert(v@.take(i + 1).drop_last() =~= v@.take(i as int));
        }
        insert_sorted_exec(&mut r, v[i]);
        i = i + 1;
    }
    assert(v@.take(v.len() as int) =~= v@);
    r
}

fn same_indices(a: &Vec<usize>, b: &Vec<usize>) -> (r: bool)
    ensures
        r == (a@ == b@),
{
    if a.len() != b.len() {
        return false;
    }
    let mut i: usize = 0;
    while i < a.len()
        invariant
            a.len() == b.len(),
            i <= a.len(),
            forall|k: int| 0 <= k < i ==> a@[k] == b@[k],
        decreases a.len() - i,
    {
        if a[i] != b[i] {
            return false;
        }
        i = i + 1;
    }
    assert(a@ =~= b@);
    true
}

/// Two scored combinations use the same set of modules.
pub open spec fn same_modules(a: ScoredView, b: ScoredView) -> bool {
    sort_indices(a.idxs) == sort_indices(b.idxs)
}

/// `s` without every element that uses the same modules as an earlier one.
pub open spec fn dedup_modules(s: Seq<ScoredView>) -> Seq<ScoredView>
    decreases s.len(),
{
    if s.len() == 0 {
        Seq::empty()
    } else {
        let d = dedup_modules(s.drop_last());
        if exists|j: int| 0 <= j < s.len() - 1 && same_modules(#[trigger] s[j], s.last()) {
            d
        } else {
            d.push(s.last())
        }
    }
}

/// The ranking keys of a sequence of scored combinations.
pub open spec fn rank_keys(s: Seq<ScoredView>) -> Seq<(i128, i128)> {
    s.map_values(|v: ScoredView| rank_key(v))
}

/// `s` reordered by the positions `p`.
pub open spec fn permuted(s: Seq<ScoredView>, p: Seq<usize>) -> Seq<ScoredView> {
    p.map_values(|j: usize| s[j as int])
}

/// The result of [`finalize`] on `input`: stably sorted by rank (highest
/// first), without repeated module sets, cut to `top_n`.
pub open spec fn finalized(input: Seq<ScoredView>, top_n: nat, r: Seq<ScoredView>) -> bool {
    exists|p: Seq<usize>|
        #![trigger is_stable_desc_order(rank_keys(input), p)]
        is_stable_desc_order(rank_keys(input), p) && {
            let d = dedup_modules(permuted(input, p));
            r == d.take(if d.len() <= top_n { d.len() as int } else { top_n as int })
        }
}

/// Ranked highest first: each element ranks at least as high as every later one.
pub open spec fn ranked(s: Seq<ScoredView>) -> bool {
    forall|i: int, j: int| 0 <= i < j < s.len() ==> ranks_at_least(#[trigger] s[i], #[trigger] s[j])
}

/// No two elements use the same set of modules.
pub open spec fn distinct_module_sets(s: Seq<ScoredView>) -> bool {
    forall|i: int, j: int|
        0 <= i < s.len() && 0 <= j < s.len() && i != j ==> !same_modules(#[trigger] s[i], #[trigger] s[j])
}

/// Dedup by module set, sort by rank descending, and keep the top `top_n`.
pub fn finalize(scored: Vec<Scored>, top_n: usize) -> (r: Vec<Scored>)
    ensures
        finalized(scored@.map_values(|s: Scored| s@), top_n as nat, r@.map_values(|s: Scored| s@)),
        r.len() <= top_n,
        ranked(r@.map_values(|s: Scored| s@)),
        distinct_module_sets(r@.map_values(|s: Scored| s@)),
        forall|j: int| 0 <= j < r.len() ==> scored@.map_values(|s: Scored| s@).contains(#[trigger] r@[j]@),
{
    let ghost input = scored@.map_values(|s: Scored| s@);
    let mut keys: Vec<(i128, i128)> = Vec::new();
    let mut i: usize = 0;
    while i < scored.len()
        invariant
            i <= scored.len(),
            input == scored@.map_values(|s: Scored| s@),
            keys@ == rank_keys(input).take(i as int),
        decreases scored.len() - i,
    {
        keys.push((scored[i].score as i128, scored[i].total as i128));
        i = i + 1;
        assert(keys@ =~= rank_keys(input).take(i as int));
    }
    assert(keys@ =~= rank_keys(input));
    let p = stable_desc_order(&keys);
    let ghost sorted = permuted(input, p@);
    proof {
        assert forall|a: int, b: int| 0 <= a < b < sorted.len() implies ranks_at_least(
            #[trigger] sorted[a],
            #[trigger] sorted[b],
        ) by {
            assert(precedes(rank_keys(input), p@[a] as int, p@[b] as int));
        }
    }
    let mut out: Vec<Scored> = Vec::new();
    let mut out_keys: Vec<Vec<usize>> = Vec::new();
    let mut k: usize = 0;
    while k < p.len()
        invariant
            input == scored@.map_values(|s: Scored| s@),
            is_stable_desc_order(rank_keys(input), p@),
            sorted == permuted(input, p@),
            ranked(sorted),
            k <= p.len(),
            out@.map_values(|s: Scored| s@) == dedup_modules(sorted.take(k as int)),
            out_keys.len() == out.len(),
            forall|t: int| 0 <= t < out.len() ==> (#[trigger] out_keys@[t])@ == sort_indices(out@[t].idxs@),
            forall|j: int| 0 <= j < k ==> exists|t: int| 0 <= t < out.len() && out_keys@[t]@ == sort_indices(#[trigger] sorted[j].idxs),
            forall|t: int| 0 <= t < out.len() ==> exists|j: int| 0 <= j < k && #[trigger] out@[t]@ == sorted[j],
            ranked(out@.map_values(|s: Scored| s@)),
            distinct_module_sets(out@.map_values(|s: Scored| s@)),
        decreases p.len() - k,
    {
        let ghost ok0 = out_keys@;
        let ghost o0 = out@;
        let cand = &scored[p[k]];
        let key = sorted_indices(&cand.idxs);
        let mut found = false;
        let mut t: usize = 0;
        while t < out_keys.len()
            invariant
                t <= out_keys.len(),
                found ==> exists|u: int| 0 <= u < t && out_keys@[u]@ == key@,
                !found ==> forall|u: int| 0 <= u < t ==> out_keys@[u]@ != key@,
            decreases out_keys.len() - t,
        {
            if same_indices(&out_keys[t], &key) {
                found = true;
            }
            t = t + 1;
        }
        proof {
            assert(sorted[k as int] == cand@);
            assert(sorted.take(k + 1).drop_last() =~= sorted.take(k as int));
            assert(sorted.take(k + 1).last() == sorted[k as int]);
        }
        if found {
            proof {
                let u = choose|u: int| 0 <= u < t && out_keys@[u]@ == key@;
                let j = choose|j: int| 0 <= j < k && out@[u]@ == sorted[j];
                assert(same_modules(sorted.take(k + 1)[j], sorted.take(k + 1).last()));
            }
        } else {
            proof {
                assert forall|j: int| 0 <= j < sorted.take(k + 1).len() - 1 implies !same_modules(
                    #[trigger] sorted.take(k + 1)[j],
                    sorted.take(k + 1).last(),
                ) by {
                    assert(sorted.take(k + 1)[j] == sorted[j]);
                    let u = choose|u: int| 0 <= u < out.len() && out_keys@[u]@ == sort_indices(sorted[j].idxs);
                }
            }
            let ghost ov = out@.map_values(|s: Scored| s@);
            out.push(copy_scored(cand));
            out_keys.push(key);
            proof {
                let nv = out@.map_values(|s: Scored| s@);
                assert(nv =~= ov.push(cand@));
                assert forall|a: int, b: int| 0 <= a < b < nv.len() implies ranks_at_least(
                    #[trigger] nv[a],
                    #[trigger] nv[b],
                ) by {
                    if b == nv.len() - 1 {
                        let j = choose|j: int| 0 <= j < k && o0[a]@ == sorted[j];
                        assert(nv[a] == o0[a]@);
                    } else {
                        assert(nv[a] == ov[a] && nv[b] == ov[b]);
                    }
                }
                assert forall|a: int, b: int|
                    0 <= a < nv.len() && 0 <= b < nv.len() && a != b implies !same_modules(
                    #[trigger] nv[a],
                    #[trigger] nv[b],
                ) by {
                    if a == nv.len() - 1 {
                        assert(ok0[b]@ != key@);
                        assert(nv[b] == o0[b]@);
                    } else if b == nv.len() - 1 {
                        assert(ok0[a]@ != key@);
                        assert(nv[a] == o0[a]@);
                    } else {
                        assert(nv[a] == ov[a] && nv[b] == ov[b]);
                    }
                }
            }
        }
        k = k + 1;
        proof {
            assert forall|j: int| 0 <= j < k implies exists|t: int| 0 <= t < out.len() && out_keys@[t]@ == sort_indices(#[trigger] sorted[j].idxs) by {
                if j < k - 1 {
                    assert(exists|t: int| 0 <= t < o0.len() && ok0[t]@ == sort_indices(sorted[j].idxs));
                    let t0 = choose|t0: int| 0 <= t0 < o0.len() && ok0[t0]@ == sort_indices(sorted[j].idxs);
                    assert(out_keys@[t0] == ok0[t0]);
                } else if found {
                    let u = choose|u: int| 0 <= u < ok0.len() && ok0[u]@ == key@;
                    assert(out_keys@[u] == ok0[u]);
                } else {
                    assert(out_keys@[out.len() - 1]@ == sort_indices(sorted[j].idxs));
                }
            }
            assert forall|t: int| 0 <= t < out.len() implies exists|j: int| 0 <= j < k && #[trigger] out@[t]@ == sorted[j] by {
                if !found && t == out.len() - 1 {
                    assert(out@[t]@ == sorted[k - 1]);
                } else {
                    assert(out@[t] == o0[t]);
                    assert(exists|j: int| 0 <= j < k - 1 && o0[t]@ == sorted[j]);
                    let j = choose|j: int| 0 <= j < k - 1 && o0[t]@ == sorted[j];
                    assert(out@[t]@ == sorted[j]);
                }
            }
        }
    }
    proof {
        assert(sorted.take(p.len() as int) =~= sorted);
    }
    let ghost d = out@.map_values(|s: Scored| s@);
    let ghost o_full = out@;
    if out.len() > top_n {
        out.truncate(top_n);
    }
    proof {
        let rv = out@.map_values(|s: Scored| s@);
        assert(rv =~= d.take(if d.len() <= top_n { d.len() as int } else { top_n as int }));
        assert(finalized(input, top_n as nat, rv));
        assert forall|a: int, b: int| 0 <= a < b < rv.len() implies ranks_at_least(#[trigger] rv[a], #[trigger] rv[b]) by {
            assert(rv[a] == d[a] && rv[b] == d[b]);
        }
        assert forall|a: int, b: int|
            0 <= a < rv.len() && 0 <= b < rv.len() && a != b implies !same_modules(#[trigger] rv[a], #[trigger] rv[b]) by {
            assert(rv[a] == d[a] && rv[b] == d[b]);
        }
        assert forall|j: int| 0 <= j < out.len() implies input.contains(#[trigger] out@[j]@) by {
            assert(out@[j] == o_full[j]);
            let jj = choose|jj: int| 0 <= jj < p.len() && o_full[j]@ == sorted[jj];
            assert(input[p@[jj] as int] == sorted[jj]);
        }
    }
    out
}


// --- exact enumeration --------------------------------------------------------------

/// Sum of slot `s` over the attribute vectors of the modules `c`.
pub open spec fn combo_slot_sum(vecs: Seq<[i32; 21]>, c: Seq<usize>, s: int) -> int
    decreases c.len(),
{
    if c.len() == 0 {
        0
    } else {
        combo_slot_sum(vecs, c.drop_last(), s) + vecs[c.last() as int]@[s] as int
    }
}

/// Sum of the module totals of the modules `c`.
pub open spec fn combo_tv(tv: Seq<i32>, c: Seq<usize>) -> int
    decreases c.len(),
{
    if c.len() == 0 {
        0
    } else {
        combo_tv(tv, c.drop_last()) + tv[c.last() as int] as int
    }
}

/// Per-attribute totals of the modules `c`.
pub open spec fn combo_totals(vecs: Seq<[i32; 21]>, c: Seq<usize>) -> Seq<i32> {
    Seq::new(NUM_ATTRS as nat, |s: int| combo_slot_sum(vecs, c, s) as i32)
}

/// The scored combination of the modules `c`.
pub open spec fn combo_view(vecs: Seq<[i32; 21]>, tv: Seq<i32>, c: Seq<usize>) -> ScoredView {
    ScoredView {
        score: combo_score(combo_totals(vecs, c), combo_tv(tv, c) as i32) as i64,
        total: combo_tv(tv, c) as i32,
        idxs: c,
    }
}

/// `c` is a combination of `size` of the modules `0..n`, listed in increasing order.
pub open spec fn is_combo(c: Seq<usize>, n: int, size: int) -> bool {
    &&& c.len() == size
    &&& strictly_increasing(c)
    &&& forall|i: int| 0 <= i < c.len() ==> #[trigger] c[i] < n
}

/// `c` is a combination that starts with `path`.
pub open spec fn extends(c: Seq<usize>, path: Seq<usize>, n: int, size: int) -> bool {
    is_combo(c, n, size) && c.take(path.len() as int) == path
}

/// Attribute vectors and module totals within [`MAX_MODULE_MAGNITUDE`].
pub open spec fn vectors_in_range(vecs: Seq<[i32; 21]>, tv: Seq<i32>) -> bool {
    &&& vecs.len() == tv.len()
    &&& forall|k: int, s: int|
        0 <= k < vecs.len() && 0 <= s < 21 ==> -MAX_MODULE_MAGNITUDE <= #[trigger] vecs[k]@[s]
            <= MAX_MODULE_MAGNITUDE
    &&& forall|k: int| 0 <= k < tv.len() ==> -MAX_MODULE_MAGNITUDE <= #[trigger] tv[k] <= MAX_MODULE_MAGNITUDE
}

proof fn lemma_combo_sums_bounded(vecs: Seq<[i32; 21]>, tv: Seq<i32>, c: Seq<usize>)
    requires
        vectors_in_range(vecs, tv),
        forall|i: int| 0 <= i < c.len() ==> #[trigger] c[i] < vecs.len(),
    ensures
        -c.len() * MAX_MODULE_MAGNITUDE <= combo_tv(tv, c) <= c.len() * MAX_MODULE_MAGNITUDE,
        forall|s: int|
            0 <= s < 21 ==> -c.len() * MAX_MODULE_MAGNITUDE <= #[trigger] combo_slot_sum(vecs, c, s)
                <= c.len() * MAX_MODULE_MAGNITUDE,
    decreases c.len(),
{
    if c.len() > 0 {
        let d = c.drop_last();
        assert forall|i: int| 0 <= i < d.len() implies #[trigger] d[i] < vecs.len() by {
            assert(d[i] == c[i]);
        }
        lemma_combo_sums_bounded(vecs, tv, d);
        assert(c.last() == c[c.len() - 1]);
        assert forall|s: int|
            0 <= s < 21 implies -c.len() * MAX_MODULE_MAGNITUDE <= #[trigger] combo_slot_sum(vecs, c, s)
                <= c.len() * MAX_MODULE_MAGNITUDE by {
            assert(combo_slot_sum(vecs, c, s) == combo_slot_sum(vecs, d, s) + vecs[c.last() as int]@[s]);
        }
    }
}

/// The heap holds `c`'s scored combination, retained or let go.
pub open spec fn has_combo(heap: &TopK, vecs: Seq<[i32; 21]>, tv: Seq<i32>, c: Seq<usize>) -> bool {
    heap.retained().contains(combo_view(vecs, tv, c)) || heap.dropped().contains(combo_view(vecs, tv, c))
}

/// Everything the heap has seen is a scored combination of `size` modules.
pub open spec fn heap_valid(heap: &TopK, vecs: Seq<[i32; 21]>, tv: Seq<i32>, n: int, size: int) -> bool {
    &&& forall|i: int| 0 <= i < heap.retained().len() ==> {
        &&& is_combo((#[trigger] heap.retained()[i]).idxs, n, size)
        &&& heap.retained()[i] == combo_view(vecs, tv, heap.retained()[i].idxs)
    }
    &&& forall|i: int| 0 <= i < heap.dropped().len() ==> {
        &&& is_combo((#[trigger] heap.dropped()[i]).idxs, n, size)
        &&& heap.dropped()[i] == combo_view(vecs, tv, heap.dropped()[i].idxs)
    }
}

proof fn lemma_extends_step(c: Seq<usize>, path: Seq<usize>, x: usize, n: int, size: int)
    requires
        c.len() == size,
        path.len() < size,
    ensures
        (c.take(path.len() as int + 1) == path.push(x)) <==> (c.take(path.len() as int) == path && c[path.len() as int] == x),
{
    if c.take(path.len() as int + 1) == path.push(x) {
        assert(c.take(path.len() as int) =~= c.take(path.len() as int + 1).drop_last());
        assert(path.push(x).drop_last() =~= path);
        assert(c[path.len() as int] == c.take(path.len() as int + 1)[path.len() as int]);
    }
    if c.take(path.len() as int) == path && c[path.len() as int] == x {
        assert(c.take(path.len() as int + 1) =~= path.push(x));
    }
}

/// Depth-first helper for [`enumerate_exact`]: offers every combination of
/// `size` modules that starts with `path` (whose last element is `last`).
#[verifier::rlimit(50)]
pub fn recurse(
    vecs: &Vec<[i32; 21]>,
    tv: &Vec<i32>,
    size: usize,
    last: usize,
    path: &mut Vec<usize>,
    cur_totals: [i32; 21],
    cur_tv: i32,
    heap: &mut TopK,
    depth: usize,
)
    requires
        vectors_in_range(vecs@, tv@),
        1 <= depth <= size <= 5,
        old(path)@.len() == depth,
        is_combo(old(path)@, vecs.len() as int, depth as int),
        old(path)@.last() == last,
        cur_totals@ == combo_totals(vecs@, old(path)@),
        cur_tv == combo_tv(tv@, old(path)@),
        old(heap).wf(),
        heap_valid(old(heap), vecs@, tv@, vecs.len() as int, size as int),
        old(heap).retained().no_duplicates(),
        forall|c: Seq<usize>|
            #[trigger] extends(c, old(path)@, vecs.len() as int, size as int) ==> !has_combo(old(heap), vecs@, tv@, c),
    ensures
        final(path)@ == old(path)@,
        final(heap).wf(),
        final(heap).capacity() == old(heap).capacity(),
        heap_valid(final(heap), vecs@, tv@, vecs.len() as int, size as int),
        final(heap).retained().no_duplicates(),
        forall|c: Seq<usize>|
            #[trigger] has_combo(final(heap), vecs@, tv@, c) <==> (has_combo(old(heap), vecs@, tv@, c)
                || extends(c, old(path)@, vecs.len() as int, size as int)),
    decreases size - depth,
{
    let ghost n = vecs.len() as int;
    let ghost path0 = path@;
    proof {
        lemma_combo_sums_bounded(vecs@, tv@, path0);
    }
    if depth == size {
        let score = score_totals(&cur_totals, cur_tv);
        let item = Scored { score, total: cur_tv, idxs: copy_indices(path) };
        let ghost cv = combo_view(vecs@, tv@, path0);
        proof {
            assert(item@ == cv);
            assert(extends(path0, path0, n, size as int)) by {
                assert(path0.take(path0.len() as int) =~= path0);
            }
        }
        let ghost h0 = *heap;
        heap.push(item);
        proof {
            assert forall|c: Seq<usize>|
                #[trigger] has_combo(heap, vecs@, tv@, c) <==> (has_combo(&h0, vecs@, tv@, c) || extends(c, path0, n, size as int)) by {
                if extends(c, path0, n, size as int) {
                    assert(c =~= c.take(path0.len() as int));
                }
            }
            assert forall|i: int| 0 <= i < heap.retained().len() implies {
                &&& is_combo((#[trigger] heap.retained()[i]).idxs, n, size as int)
                &&& heap.retained()[i] == combo_view(vecs@, tv@, heap.retained()[i].idxs)
            } by {
                assert(heap.retained().contains(heap.retained()[i]));
                if h0.retained().contains(heap.retained()[i]) {
                    let k = choose|k: int| 0 <= k < h0.retained().len() && h0.retained()[k] == heap.retained()[i];
                } else if h0.dropped().contains(heap.retained()[i]) {
                    let k = choose|k: int| 0 <= k < h0.dropped().len() && h0.dropped()[k] == heap.retained()[i];
                }
            }
            assert forall|i: int| 0 <= i < heap.dropped().len() implies {
                &&& is_combo((#[trigger] heap.dropped()[i]).idxs, n, size as int)
                &&& heap.dropped()[i] == combo_view(vecs@, tv@, heap.dropped()[i].idxs)
            } by {
                assert(heap.dropped().contains(heap.dropped()[i]));
                if h0.retained().contains(heap.dropped()[i]) {
                    let k = choose|k: int| 0 <= k < h0.retained().len() && h0.retained()[k] == heap.dropped()[i];
                } else if h0.dropped().contains(heap.dropped()[i]) {
                    let k = choose|k: int| 0 <= k < h0.dropped().len() && h0.dropped()[k] == heap.dropped()[i];
                }
            }
        }
        return;
    }
    let mut next: usize = last + 1;
    let ghost h0 = *heap;
    while next < vecs.len()
        invariant
            vectors_in_range(vecs@, tv@),
            n == vecs.len(),
            1 <= depth < size <= 5,
            path@ == path0,
            path0.len() == depth,
            is_combo(path0, n, depth as int),
            path0.last() == last,
            cur_totals@ == combo_totals(vecs@, path0),
            cur_tv == combo_tv(tv@, path0),
            last < next,
            heap.wf(),
            heap.capacity() == h0.capacity(),
            heap_valid(heap, vecs@, tv@, n, size as int),
            heap.retained().no_duplicates(),
            forall|c: Seq<usize>| #[trigger] extends(c, path0, n, size as int) ==> !has_combo(&h0, vecs@, tv@, c),
            forall|c: Seq<usize>|
                #[trigger] has_combo(heap, vecs@, tv@, c) <==> (has_combo(&h0, vecs@, tv@, c) || (extends(
                    c,
                    path0,
                    n,
                    size as int,
                ) && c[depth as int] < next)),
        decreases vecs.len() - next,
    {
        let ghost child = path0.push(next);
        proof {
            lemma_combo_sums_bounded(vecs@, tv@, child);
            lemma_combo_sums_bounded(vecs@, tv@, path0);
        }
        let mut totals = cur_totals;
        let mut s: usize = 0;
        while s < NUM_ATTRS
            invariant
                s <= NUM_ATTRS,
                next < vecs.len(),
                vectors_in_range(vecs@, tv@),
                cur_totals@ == combo_totals(vecs@, path0),
                child == path0.push(next),
                path0.len() < 5,
                forall|t: int| 0 <= t < s ==> #[trigger] totals@[t] == combo_slot_sum(vecs@, child, t),
                forall|t: int| s <= t < 21 ==> #[trigger] totals@[t] == cur_totals@[t],
                forall|t: int|
                    0 <= t < 21 ==> -child.len() * MAX_MODULE_MAGNITUDE <= #[trigger] combo_slot_sum(vecs@, child, t)
                        <= child.len() * MAX_MODULE_MAGNITUDE,
                forall|t: int|
                    0 <= t < 21 ==> -path0.len() * MAX_MODULE_MAGNITUDE <= #[trigger] combo_slot_sum(vecs@, path0, t)
                        <= path0.len() * MAX_MODULE_MAGNITUDE,
            decreases NUM_ATTRS - s,
        {
            proof {
                assert(child.drop_last() =~= path0);
                assert(combo_slot_sum(vecs@, child, s as int) == combo_slot_sum(vecs@, path0, s as int)
                    + vecs@[next as int]@[s as int]);
                assert(totals@[s as int] == combo_slot_sum(vecs@, path0, s as int));
            }
            totals[s] = totals[s] + vecs[next][s];
            s = s + 1;
        }
        proof {
            assert(totals@ =~= combo_totals(vecs@, child));
            assert(child.drop_last() =~= path0);
            assert(combo_tv(tv@, child) == cur_tv + tv@[next as int]);
            assert(is_combo(child, n, depth + 1)) by {
                assert forall|i: int, j: int| 0 <= i < j < child.len() implies #[trigger] child[i] < #[trigger] child[j] by {
                    if j == child.len() - 1 && i < j {
                        assert(path0[i] <= path0.last());
                    }
                }
            }
        }
        path.push(next);
        let ghost hb = *heap;
        proof {
            assert forall|c: Seq<usize>| #[trigger] extends(c, path@, n, size as int) implies !has_combo(heap, vecs@, tv@, c) by {
                lemma_extends_step(c, path0, next, n, size as int);
                assert(extends(c, path0, n, size as int));
            }
        }
        recurse(vecs, tv, size, next, path, totals, cur_tv + tv[next], heap, depth + 1);
        path.pop();
        proof {
            assert(path@ =~= path0);
            assert forall|c: Seq<usize>|
                #[trigger] has_combo(heap, vecs@, tv@, c) <==> (has_combo(&h0, vecs@, tv@, c) || (extends(
                    c,
                    path0,
                    n,
                    size as int,
                ) && c[depth as int] < next + 1)) by {
                assert(has_combo(heap, vecs@, tv@, c) <==> (has_combo(&hb, vecs@, tv@, c) || extends(c, child, n, size as int)));
                assert(has_combo(&hb, vecs@, tv@, c) <==> (has_combo(&h0, vecs@, tv@, c) || (extends(c, path0, n, size as int) && c[depth as int] < next)));
                if c.len() == size {
                    lemma_extends_step(c, path0, next, n, size as int);
                }
            }
        }
        next = next + 1;
    }
    proof {
        assert forall|c: Seq<usize>|
            #[trigger] has_combo(heap, vecs@, tv@, c) <==> (has_combo(&h0, vecs@, tv@, c) || extends(c, path0, n, size as int)) by {
            if extends(c, path0, n, size as int) {
                assert(c[depth as int] < n);
            }
        }
    }
}


/// `r` is a best `top_n` of all combinations of `size` of the modules `0..n`:
/// ranked highest first, each a correctly scored combination, no two the same;
/// and every combination is either among them, or there are `top_n` of them
/// and each ranks at least as high as it.
pub open spec fn is_top_n_of_all(
    r: Seq<ScoredView>,
    vecs: Seq<[i32; 21]>,
    tv: Seq<i32>,
    n: int,
    size: int,
    top_n: nat,
) -> bool {
    &&& r.len() <= top_n
    &&& ranked(r)
    &&& forall|j: int|
        0 <= j < r.len() ==> is_combo((#[trigger] r[j]).idxs, n, size) && r[j] == combo_view(
            vecs,
            tv,
            r[j].idxs,
        )
    &&& forall|j: int, k: int| 0 <= j < r.len() && 0 <= k < r.len() && j != k ==> (#[trigger] r[j]).idxs != (#[trigger] r[k]).idxs
    &&& forall|c: Seq<usize>|
        #[trigger] is_combo(c, n, size) ==> (exists|j: int| 0 <= j < r.len() && r[j].idxs == c) || (r.len()
            == top_n && forall|j: int| 0 <= j < r.len() ==> ranks_at_least(r[j], combo_view(vecs, tv, c)))
}

proof fn lemma_dedup_identity(s: Seq<ScoredView>)
    requires
        distinct_module_sets(s),
    ensures
        dedup_modules(s) == s,
    decreases s.len(),
{
    if s.len() > 0 {
        let d = s.drop_last();
        assert forall|i: int, j: int|
            0 <= i < d.len() && 0 <= j < d.len() && i != j implies !same_modules(#[trigger] d[i], #[trigger] d[j]) by {
            assert(d[i] == s[i] && d[j] == s[j]);
        }
        lemma_dedup_identity(d);
        assert(!exists|j: int| 0 <= j < s.len() - 1 && same_modules(#[trigger] s[j], s.last()));
        assert(d.push(s.last()) =~= s);
    }
}

/// Full enumeration of all `size`-combinations of the modules, keeping the
/// best `top_n`.
pub fn enumerate_exact(vecs: &Vec<[i32; 21]>, tv: &Vec<i32>, size: usize, top_n: usize) -> (r: Vec<Scored>)
    requires
        vectors_in_range(vecs@, tv@),
        1 <= size <= 5,
    ensures
        is_top_n_of_all(r@.map_values(|s: Scored| s@), vecs@, tv@, vecs.len() as int, size as int, top_n as nat),
{
    let n = vecs.len();
    let mut heap = TopK::new(top_n);
    let mut a: usize = 0;
    while a < n
        invariant
            vectors_in_range(vecs@, tv@),
            n == vecs.len(),
            1 <= size <= 5,
            a <= n,
            heap.wf(),
            heap.capacity() == if top_n >= 1 { top_n as nat } else { 1 },
            heap_valid(&heap, vecs@, tv@, n as int, size as int),
            heap.retained().no_duplicates(),
            forall|c: Seq<usize>|
                #[trigger] has_combo(&heap, vecs@, tv@, c) <==> (is_combo(c, n as int, size as int) && c[0] < a),
        decreases n - a,
    {
        let mut path: Vec<usize> = Vec::new();
        path.push(a);
        let ghost p1 = path@;
        proof {
            assert(p1 =~= seq![a]);
            assert(p1.drop_last() =~= Seq::<usize>::empty());
            assert(vecs@[a as int]@ =~= combo_totals(vecs@, p1)) by {
                assert forall|t: int| 0 <= t < 21 implies vecs@[a as int]@[t] == combo_totals(vecs@, p1)[t] by {
                    assert(combo_slot_sum(vecs@, p1, t) == combo_slot_sum(vecs@, p1.drop_last(), t) + vecs@[a as int]@[t]);
                }
            }
            assert(combo_tv(tv@, p1) == combo_tv(tv@, p1.drop_last()) + tv@[a as int]);
            assert forall|c: Seq<usize>| #[trigger] extends(c, p1, n as int, size as int) implies !has_combo(&heap, vecs@, tv@, c) by {
                assert(c[0] == c.take(1)[0]);
            }
        }
        let ghost hb = heap;
        recurse(vecs, tv, size, a, &mut path, vecs[a], tv[a], &mut heap, 1);
        a = a + 1;
        proof {
            assert forall|c: Seq<usize>|
                #[trigger] has_combo(&heap, vecs@, tv@, c) <==> (is_combo(c, n as int, size as int) && c[0] < a) by {
                assert(has_combo(&hb, vecs@, tv@, c) <==> (is_combo(c, n as int, size as int) && c[0] < a - 1));
                if is_combo(c, n as int, size as int) {
                    if c[0] == a - 1 {
                        assert(c.take(1) =~= p1);
                    }
                    if c.take(1) == p1 {
                        assert(c[0] == c.take(1)[0]);
                    }
                }
            }
        }
    }
    let ghost rr = heap.retained();
    let ghost dd = heap.dropped();
    let ghost cap = heap.capacity();
    proof {
        assert forall|c: Seq<usize>| #[trigger] is_combo(c, n as int, size as int) implies has_combo(&heap, vecs@, tv@, c) by {
            assert(c[0] < n);
        }
    }
    let items = heap.into_vec();
    let r = finalize(items, top_n);
    proof {
        let rv = r@.map_values(|s: Scored| s@);
        assert(items@.map_values(|s: Scored| s@) == rr);
        // the retained combinations use pairwise different module sets
        assert forall|i: int, j: int|
            0 <= i < rr.len() && 0 <= j < rr.len() && i != j implies !same_modules(#[trigger] rr[i], #[trigger] rr[j]) by {
            lemma_sort_increasing(rr[i].idxs);
            lemma_sort_increasing(rr[j].idxs);
        }
        let p = choose|p: Seq<usize>|
            #![trigger is_stable_desc_order(rank_keys(rr), p)]
            is_stable_desc_order(rank_keys(rr), p) && {
                let d = dedup_modules(permuted(rr, p));
                rv == d.take(if d.len() <= top_n { d.len() as int } else { top_n as int })
            };
        let sorted = permuted(rr, p);
        assert forall|i: int, j: int|
            0 <= i < sorted.len() && 0 <= j < sorted.len() && i != j implies !same_modules(
            #[trigger] sorted[i],
            #[trigger] sorted[j],
        ) by {
            if p[i] == p[j] {
                if i < j {
                    assert(precedes(rank_keys(rr), p[i] as int, p[j] as int));
                } else {
                    assert(precedes(rank_keys(rr), p[j] as int, p[i] as int));
                }
            }
        }
        lemma_dedup_identity(sorted);
        assert(rv == sorted.take(if sorted.len() <= top_n { sorted.len() as int } else { top_n as int }));
        // each result element is a retained, correctly scored combination
        assert forall|j: int| 0 <= j < rv.len() implies is_combo((#[trigger] rv[j]).idxs, n as int, size as int) && rv[j] == combo_view(vecs@, tv@, rv[j].idxs) by {
            assert(rv[j] == r@[j]@);
            assert(rr.contains(r@[j]@));
        }
        assert forall|j: int, k: int| 0 <= j < rv.len() && 0 <= k < rv.len() && j != k implies (#[trigger] rv[j]).idxs != (#[trigger] rv[k]).idxs by {
            if rv[j].idxs == rv[k].idxs {
                assert(same_modules(rv[j], rv[k]));
            }
        }
        assert forall|c: Seq<usize>|
            #[trigger] is_combo(c, n as int, size as int) implies (exists|j: int| 0 <= j < rv.len() && rv[j].idxs == c) || (rv.len()
                == top_n && forall|j: int| 0 <= j < rv.len() ==> ranks_at_least(rv[j], combo_view(vecs@, tv@, c))) by {
            let cv = combo_view(vecs@, tv@, c);
            assert(has_combo(&heap, vecs@, tv@, c));
            if rr.contains(cv) {
                let i = choose|i: int| 0 <= i < rr.len() && rr[i] == cv;
                assert(p.contains(i as usize));
                let j = choose|j: int| 0 <= j < p.len() && p[j] == i as usize;
                if sorted.len() <= top_n {
                    assert(rv[j] == sorted[j]);
                    assert(rv[j].idxs == c);
                } else {
                    assert(top_n == 0);
                }
            } else {
                assert(dd.contains(cv));
                let i = choose|i: int| 0 <= i < dd.len() && dd[i] == cv;
                assert forall|j: int| 0 <= j < rv.len() implies ranks_at_least(rv[j], cv) by {
                    assert(rv[j] == r@[j]@);
                    assert(rr.contains(r@[j]@));
                    let k = choose|k: int| 0 <= k < rr.len() && rr[k] == r@[j]@;
                    assert(ranks_at_least(rr[k], dd[i]));
                }
            }
        }
    }
    r
}


// --- prefilter -----------------------------------------------------------------------

/// Ranking keys of the modules by (target-attribute sum, overall total).
pub open spec fn total_keys(target_sum: Seq<i128>, totals_v: Seq<i32>) -> Seq<(i128, i128)> {
    Seq::new(target_sum.len(), |i: int| (target_sum[i], totals_v[i] as i128))
}

/// The modules among `0..k` with a positive value in `slot`, ascending.
pub open spec fn positives(vecs: Seq<[i32; 21]>, slot: int, k: int) -> Seq<usize>
    decreases k,
{
    if k <= 0 {
        Seq::empty()
    } else if vecs[k - 1]@[slot] > 0 {
        positives(vecs, slot, k - 1).push((k - 1) as usize)
    } else {
        positives(vecs, slot, k - 1)
    }
}

/// Ranking keys of the modules `pos` by their value in `slot`.
pub open spec fn attr_keys(vecs: Seq<[i32; 21]>, slot: int, pos: Seq<usize>) -> Seq<(i128, i128)> {
    pos.map_values(|i: usize| (vecs[i as int]@[slot] as i128, 0i128))
}

/// The first `m` (at most) of `order`.
pub open spec fn first_at_most(order: Seq<usize>, m: int) -> Seq<usize> {
    order.take(if order.len() <= m { order.len() as int } else { m })
}

/// The indices `i` in `0..flags.len()` with `flags[i]`, ascending.
pub open spec fn indices_where(flags: Seq<bool>) -> Seq<usize>
    decreases flags.len(),
{
    if flags.len() == 0 {
        Seq::empty()
    } else if flags.last() {
        indices_where(flags.drop_last()).push((flags.len() - 1) as usize)
    } else {
        indices_where(flags.drop_last())
    }
}

/// How many of the best modules per target attribute join the candidates.
pub open spec fn single_attr_num(targets: nat) -> int {
    if targets <= 5 { 120 } else { 60 }
}

/// The modules ranked first by `q` (a ranking of `positives(vecs, slot, n)`),
/// at most `m` of them.
pub open spec fn attr_top(vecs: Seq<[i32; 21]>, slot: int, n: int, q: Seq<usize>, m: int) -> Seq<usize> {
    first_at_most(q, m).map_values(|k: usize| positives(vecs, slot, n)[k as int])
}

/// `r` is the prefilter's candidate list: the best 500 modules by
/// (target-attribute sum, overall total); and, when there are target
/// attributes, also the best few modules by each target attribute's value
/// (among those with a positive value), listed in ascending index order.
/// Rankings are stable: ties keep index order.
pub open spec fn prefiltered(
    vecs: Seq<[i32; 21]>,
    totals_v: Seq<i32>,
    target_sum: Seq<i128>,
    target_slots: Seq<usize>,
    r: Seq<usize>,
) -> bool {
    let n = vecs.len() as int;
    exists|p: Seq<usize>, qs: Seq<Seq<usize>>|
        #![trigger is_stable_desc_order(total_keys(target_sum, totals_v), p), qs.len()]
        {
            &&& is_stable_desc_order(total_keys(target_sum, totals_v), p)
            &&& qs.len() == target_slots.len()
            &&& forall|t: int|
                0 <= t < qs.len() ==> is_stable_desc_order(
                    attr_keys(vecs, target_slots[t] as int, positives(vecs, target_slots[t] as int, n)),
                    #[trigger] qs[t],
                )
            &&& if target_slots.len() == 0 {
                r == first_at_most(p, 500)
            } else {
                r == indices_where(
                    Seq::new(
                        n as nat,
                        |i: int|
                            first_at_most(p, 500).contains(i as usize) || exists|t: int|
                                0 <= t < qs.len() && #[trigger] attr_top(vecs, target_slots[t] as int, n, qs[t], single_attr_num(target_slots.len())).contains(i as usize),
                    ),
                )
            }
        }
}

proof fn lemma_positives_facts(vecs: Seq<[i32; 21]>, slot: int, k: int)
    requires
        0 <= k,
    ensures
        forall|j: int| 0 <= j < positives(vecs, slot, k).len() ==> #[trigger] positives(vecs, slot, k)[j] < k,
    decreases k,
{
    if k > 0 {
        lemma_positives_facts(vecs, slot, k - 1);
        let prev = positives(vecs, slot, k - 1);
        assert forall|j: int| 0 <= j < positives(vecs, slot, k).len() implies #[trigger] positives(vecs, slot, k)[j] < k by {
            if j < prev.len() {
                assert(positives(vecs, slot, k)[j] == prev[j]);
            }
        }
    }
}

proof fn lemma_indices_where_flagged(flags: Seq<bool>)
    requires
        flags.len() <= usize::MAX,
    ensures
        forall|j: int|
            0 <= j < indices_where(flags).len() ==> 0 <= #[trigger] indices_where(flags)[j] < flags.len()
                && flags[indices_where(flags)[j] as int],
    decreases flags.len(),
{
    if flags.len() > 0 {
        lemma_indices_where_flagged(flags.drop_last());
        let prev = indices_where(flags.drop_last());
        let cur = indices_where(flags);
        assert forall|j: int| 0 <= j < cur.len() implies 0 <= #[trigger] cur[j] < flags.len() && flags[cur[j] as int] by {
            if flags.last() {
                assert(cur == prev.push((flags.len() - 1) as usize));
                if j < prev.len() {
                    assert(cur[j] == prev[j]);
                    assert(flags.drop_last()[prev[j] as int] == flags[prev[j] as int]);
                } else {
                    assert(j == prev.len());
                    assert(cur[j] == flags.len() - 1);
                    assert(flags[flags.len() - 1] == flags.last());
                }
            } else {
                assert(cur == prev);
                assert(flags.drop_last()[prev[j] as int] == flags[prev[j] as int]);
            }
        }
    }
}

proof fn lemma_indices_where_facts(flags: Seq<bool>)
    requires
        flags.len() <= usize::MAX,
    ensures
        forall|j: int| 0 <= j < indices_where(flags).len() ==> #[trigger] indices_where(flags)[j] < flags.len(),
        strictly_increasing(indices_where(flags)),
    decreases flags.len(),
{
    if flags.len() > 0 {
        lemma_indices_where_facts(flags.drop_last());
        let prev = indices_where(flags.drop_last());
        let cur = indices_where(flags);
        assert forall|j: int| 0 <= j < cur.len() implies #[trigger] cur[j] < flags.len() by {
            if j < prev.len() {
                assert(cur[j] == prev[j]);
            }
        }
        assert forall|i: int, j: int| 0 <= i < j < cur.len() implies #[trigger] cur[i] < #[trigger] cur[j] by {
            if j < prev.len() {
                assert(cur[i] == prev[i] && cur[j] == prev[j]);
            } else {
                assert(flags.last());
                assert(cur == prev.push((flags.len() - 1) as usize));
                assert(j == prev.len());
                assert(cur[i] == prev[i]);
                assert(prev[i] < flags.drop_last().len());
                assert(cur[j] == flags.len() - 1);
            }
        }
    }
}

/// The best modules by attribute `slot` (among those with a positive
/// value), best first, at most `m` of them.
fn best_by_attr(vecs: &Vec<[i32; 21]>, slot: usize, m: usize) -> (r: Vec<usize>)
    requires
        slot < 21,
    ensures
        exists|q: Seq<usize>|
            #![trigger is_stable_desc_order(attr_keys(vecs@, slot as int, positives(vecs@, slot as int, vecs.len() as int)), q)]
            is_stable_desc_order(attr_keys(vecs@, slot as int, positives(vecs@, slot as int, vecs.len() as int)), q)
                && r@ == attr_top(vecs@, slot as int, vecs.len() as int, q, m as int),
{
    let n = vecs.len();
    let mut pos: Vec<usize> = Vec::new();
    let mut i: usize = 0;
    while i < n
        invariant
            i <= n,
            n == vecs.len(),
            slot < 21,
            pos@ == positives(vecs@, slot as int, i as int),
        decreases n - i,
    {
        if vecs[i][slot] > 0 {
            pos.push(i);
        }
        i = i + 1;
    }
    proof {
        lemma_positives_facts(vecs@, slot as int, n as int);
    }
    let ghost posv = pos@;
    let mut keys: Vec<(i128, i128)> = Vec::new();
    let mut k: usize = 0;
    while k < pos.len()
        invariant
            k <= pos.len(),
            pos@ == posv,
            slot < 21,
            forall|j: int| 0 <= j < posv.len() ==> #[trigger] posv[j] < vecs.len(),
            keys@ == attr_keys(vecs@, slot as int, posv).take(k as int),
        decreases pos.len() - k,
    {
        keys.push((vecs[pos[k]][slot] as i128, 0i128));
        k = k + 1;
        assert(keys@ =~= attr_keys(vecs@, slot as int, posv).take(k as int));
    }
    assert(keys@ =~= attr_keys(vecs@, slot as int, posv));
    let q = stable_desc_order(&keys);
    let mut r: Vec<usize> = Vec::new();
    let mut j: usize = 0;
    let limit = if q.len() <= m { q.len() } else { m };
    while j < limit
        invariant
            j <= limit,
            limit <= q.len(),
            limit == (if q.len() <= m { q.len() } else { m }),
            pos@ == posv,
            is_stable_desc_order(keys@, q@),
            keys@.len() == posv.len(),
            r@ == q@.take(j as int).map_values(|k: usize| posv[k as int]),
        decreases limit - j,
    {
        r.push(pos[q[j]]);
        j = j + 1;
        assert(r@ =~= q@.take(j as int).map_values(|k: usize| posv[k as int]));
    }
    r
}

/// Reduce the working set to a bounded list of candidate module indices.
pub fn prefilter(
    n: usize,
    totals_v: &Vec<i32>,
    target_sum: &Vec<i128>,
    vecs: &Vec<[i32; 21]>,
    target_slots: &Vec<usize>,
) -> (r: Vec<usize>)
    requires
        n == vecs.len() == totals_v.len() == target_sum.len(),
        forall|t: int| 0 <= t < target_slots.len() ==> #[trigger] target_slots[t] < 21,
    ensures
        prefiltered(vecs@, totals_v@, target_sum@, target_slots@, r@),
        forall|j: int| 0 <= j < r.len() ==> #[trigger] r[j] < n,
        forall|j: int, k: int| 0 <= j < r.len() && 0 <= k < r.len() && j != k ==> #[trigger] r[j] != #[trigger] r[k],
{
    let single = if target_slots.len() <= 5 { 120usize } else { 60usize };
    let mut keys: Vec<(i128, i128)> = Vec::new();
    let mut i: usize = 0;
    while i < n
        invariant
            i <= n,
            n == totals_v.len() == target_sum.len(),
            keys@ == total_keys(target_sum@, totals_v@).take(i as int),
        decreases n - i,
    {
        keys.push((target_sum[i], totals_v[i] as i128));
        i = i + 1;
        assert(keys@ =~= total_keys(target_sum@, totals_v@).take(i as int));
    }
    assert(keys@ =~= total_keys(target_sum@, totals_v@));
    let by_total_all = stable_desc_order(&keys);
    let mut by_total: Vec<usize> = Vec::new();
    let limit = if n <= 500 { n } else { 500 };
    let mut j: usize = 0;
    while j < limit
        invariant
            j <= limit,
            limit == (if n <= 500 { n } else { 500 }),
            n == keys.len(),
            is_stable_desc_order(keys@, by_total_all@),
            by_total@ == by_total_all@.take(j as int),
        decreases limit - j,
    {
        by_total.push(by_total_all[j]);
        j = j + 1;
        assert(by_total@ =~= by_total_all@.take(j as int));
    }
    let ghost top = first_at_most(by_total_all@, 500);
    assert(by_total@ == top);
    if target_slots.len() == 0 {
        proof {
            let qs = Seq::<Seq<usize>>::empty();
            assert(is_stable_desc_order(total_keys(target_sum@, totals_v@), by_total_all@) && qs.len() == target_slots@.len());
            assert(prefiltered(vecs@, totals_v@, target_sum@, target_slots@, by_total@));
            assert forall|a: int, b: int| 0 <= a < by_total.len() && 0 <= b < by_total.len() && a != b implies #[trigger] by_total@[a] != #[trigger] by_total@[b] by {
                if a < b {
                    assert(precedes(keys@, by_total_all@[a] as int, by_total_all@[b] as int));
                } else {
                    assert(precedes(keys@, by_total_all@[b] as int, by_total_all@[a] as int));
                }
            }
        }
        return by_total;
    }
    let mut keep: Vec<bool> = Vec::new();
    let mut i2: usize = 0;
    while i2 < n
        invariant
            i2 <= n,
            keep@.len() == i2,
            forall|x: int| 0 <= x < i2 ==> !(#[trigger] keep@[x]),
        decreases n - i2,
    {
        keep.push(false);
        i2 = i2 + 1;
    }
    let mut b: usize = 0;
    while b < by_total.len()
        invariant
            b <= by_total.len(),
            by_total@ == top,
            keep@.len() == n,
            is_stable_desc_order(keys@, by_total_all@),
            top == first_at_most(by_total_all@, 500),
            n == keys.len(),
            forall|x: int| 0 <= x < n ==> (#[trigger] keep@[x] <==> top.take(b as int).contains(x as usize)),
        decreases by_total.len() - b,
    {
        let idx = by_total[b];
        assert(idx == by_total_all@[b as int]);
        keep.set(idx, true);
        b = b + 1;
        proof {
            let prev = top.take(b - 1);
            let cur = top.take(b as int);
            assert forall|x: int| 0 <= x < n implies (#[trigger] keep@[x] <==> cur.contains(x as usize)) by {
                if prev.contains(x as usize) {
                    let w = choose|w: int| 0 <= w < prev.len() && prev[w] == x as usize;
                    assert(cur[w] == x as usize);
                }
                if cur.contains(x as usize) {
                    let w = choose|w: int| 0 <= w < cur.len() && cur[w] == x as usize;
                    if w < b - 1 {
                        assert(prev[w] == x as usize);
                    }
                }
                if x == idx as int {
                    assert(cur[b - 1] == x as usize);
                }
            }
        }
    }
    assert(top.take(by_total.len() as int) =~= top);
    let ghost mut qs: Seq<Seq<usize>> = Seq::empty();
    let ghost flag = |x: int, upto: int|
        top.contains(x as usize) || exists|t: int|
            0 <= t < upto && #[trigger] attr_top(vecs@, target_slots@[t] as int, n as int, qs[t], single as int).contains(x as usize);
    let mut t: usize = 0;
    while t < target_slots.len()
        invariant
            t <= target_slots.len(),
            n == vecs.len(),
            keep@.len() == n,
            single as int == single_attr_num(target_slots.len() as nat),
            forall|u: int| 0 <= u < target_slots.len() ==> #[trigger] target_slots[u] < 21,
            qs.len() == t,
            forall|u: int|
                0 <= u < t ==> is_stable_desc_order(
                    attr_keys(vecs@, target_slots@[u] as int, positives(vecs@, target_slots@[u] as int, n as int)),
                    #[trigger] qs[u],
                ),
            forall|x: int|
                0 <= x < n ==> (#[trigger] keep@[x] <==> (top.contains(x as usize) || exists|u: int|
                    0 <= u < t && #[trigger] attr_top(vecs@, target_slots@[u] as int, n as int, qs[u], single as int).contains(x as usize))),
        decreases target_slots.len() - t,
    {
        let slot = target_slots[t];
        let best = best_by_attr(vecs, slot, single);
        let ghost q = choose|q: Seq<usize>|
            #![trigger is_stable_desc_order(attr_keys(vecs@, slot as int, positives(vecs@, slot as int, vecs.len() as int)), q)]
            is_stable_desc_order(attr_keys(vecs@, slot as int, positives(vecs@, slot as int, vecs.len() as int)), q)
                && best@ == attr_top(vecs@, slot as int, vecs.len() as int, q, single as int);
        let ghost qs0 = qs;
        let ghost keep0 = keep@;
        assert(forall|x: int|
            0 <= x < n ==> (#[trigger] keep0[x] <==> (top.contains(x as usize) || exists|u: int|
                0 <= u < t && #[trigger] attr_top(vecs@, target_slots@[u] as int, n as int, qs0[u], single as int).contains(x as usize))));
        proof {
            qs = qs.push(q);
            lemma_positives_facts(vecs@, slot as int, n as int);
        }
        let mut w: usize = 0;
        while w < best.len()
            invariant
                w <= best.len(),
                keep@.len() == n,
                keep0.len() == n,
                forall|y: int| 0 <= y < best.len() ==> #[trigger] best@[y] < n,
                forall|x: int|
                    0 <= x < n ==> (#[trigger] keep@[x] <==> (keep0[x] || best@.take(w as int).contains(x as usize))),
            decreases best.len() - w,
        {
            let idx = best[w];
            keep.set(idx, true);
            w = w + 1;
            proof {
                let prev = best@.take(w - 1);
                let cur = best@.take(w as int);
                assert forall|x: int| 0 <= x < n implies (#[trigger] keep@[x] <==> (keep0[x] || cur.contains(x as usize))) by {
                    if prev.contains(x as usize) {
                        let z = choose|z: int| 0 <= z < prev.len() && prev[z] == x as usize;
                        assert(cur[z] == x as usize);
                    }
                    if cur.contains(x as usize) {
                        let z = choose|z: int| 0 <= z < cur.len() && cur[z] == x as usize;
                        if z < w - 1 {
                            assert(prev[z] == x as usize);
                        }
                    }
                    if x == idx as int {
                        assert(cur[w - 1] == x as usize);
                    }
                }
            }
        }
        proof {
            assert(best@.take(best.len() as int) =~= best@);
            assert forall|x: int| 0 <= x < n implies (#[trigger] keep@[x] <==> (top.contains(x as usize) || exists|u: int|
                0 <= u < t + 1 && #[trigger] attr_top(vecs@, target_slots@[u] as int, n as int, qs[u], single as int).contains(x as usize))) by {
                assert(qs[t as int] == q);
                if exists|u: int| 0 <= u < t && #[trigger] attr_top(vecs@, target_slots@[u] as int, n as int, qs0[u], single as int).contains(x as usize) {
                    let u = choose|u: int| 0 <= u < t && #[trigger] attr_top(vecs@, target_slots@[u] as int, n as int, qs0[u], single as int).contains(x as usize);
                    assert(qs[u] == qs0[u]);
                    assert(attr_top(vecs@, target_slots@[u] as int, n as int, qs[u], single as int).contains(x as usize));
                }
                if exists|u: int| 0 <= u < t + 1 && #[trigger] attr_top(vecs@, target_slots@[u] as int, n as int, qs[u], single as int).contains(x as usize) {
                    let u = choose|u: int| 0 <= u < t + 1 && #[trigger] attr_top(vecs@, target_slots@[u] as int, n as int, qs[u], single as int).contains(x as usize);
                    if u < t {
                        assert(qs[u] == qs0[u]);
                        assert(attr_top(vecs@, target_slots@[u] as int, n as int, qs0[u], single as int).contains(x as usize));
                    } else {
                        assert(best@.contains(x as usize));
                    }
                }
                if best@.contains(x as usize) {
                    assert(attr_top(vecs@, target_slots@[t as int] as int, n as int, qs[t as int], single as int).contains(x as usize));
                }
            }
        }
        t = t + 1;
    }
    let mut r: Vec<usize> = Vec::new();
    let mut x: usize = 0;
    while x < n
        invariant
            x <= n,
            keep@.len() == n,
            r@ == indices_where(keep@.take(x as int)),
        decreases n - x,
    {
        proof {
            assert(keep@.take(x + 1).drop_last() =~= keep@.take(x as int));
        }
        if keep[x] {
            r.push(x);
        }
        x = x + 1;
    }
    proof {
        assert(keep@.take(n as int) =~= keep@);
        lemma_indices_where_facts(keep@);
        let flags = Seq::new(
            n as nat,
            |i: int|
                first_at_most(by_total_all@, 500).contains(i as usize) || exists|u: int|
                    0 <= u < qs.len() && #[trigger] attr_top(vecs@, target_slots@[u] as int, n as int, qs[u], single_attr_num(target_slots.len() as nat)).contains(i as usize),
        );
        assert(keep@ =~= flags);
        assert(is_stable_desc_order(total_keys(target_sum@, totals_v@), by_total_all@) && qs.len() == target_slots@.len());
        assert(prefiltered(vecs@, totals_v@, target_sum@, target_slots@, r@));
        assert forall|a: int, b: int| 0 <= a < r.len() && 0 <= b < r.len() && a != b implies #[trigger] r@[a] != #[trigger] r@[b] by {
            if a < b {
                assert(r@[a] < r@[b]);
            } else {
                assert(r@[b] < r@[a]);
            }
        }
    }
    r
}


// --- beam search ---------------------------------------------------------------------

/// Width of the beam: partial combinations kept per level.
pub const BEAM_WIDTH: usize = 5096;

/// A partial combination in the beam.
struct State {
    totals: [i32; 21],
    tv: i32,
    last: usize,
    idxs: Vec<usize>,
}

/// `st` is the partial combination of its modules, `level` of them.
spec fn state_ok(st: &State, vecs: Seq<[i32; 21]>, tv: Seq<i32>, level: int) -> bool {
    &&& is_combo(st.idxs@, vecs.len() as int, level)
    &&& st.last == st.idxs@.last()
    &&& st.totals@ == combo_totals(vecs, st.idxs@)
    &&& st.tv == combo_tv(tv, st.idxs@)
}

/// Ranking key of a partial combination: (score, total).
pub open spec fn state_key(vecs: Seq<[i32; 21]>, tv: Seq<i32>, c: Seq<usize>) -> (i128, i128) {
    (combo_view(vecs, tv, c).score as i128, combo_view(vecs, tv, c).total as i128)
}

/// Ranking keys of a beam.
pub open spec fn state_keys(vecs: Seq<[i32; 21]>, tv: Seq<i32>, b: Seq<Seq<usize>>) -> Seq<(i128, i128)> {
    b.map_values(|c: Seq<usize>| state_key(vecs, tv, c))
}

/// `r` is what the beam keeps of `b`: all of it when it fits in `width`,
/// else the first `width` of `b` stably sorted by (score, total), best first.
pub open spec fn kept_top(vecs: Seq<[i32; 21]>, tv: Seq<i32>, b: Seq<Seq<usize>>, width: nat, r: Seq<Seq<usize>>) -> bool {
    if b.len() <= width {
        r == b
    } else {
        exists|p: Seq<usize>|
            #![trigger is_stable_desc_order(state_keys(vecs, tv, b), p)]
            is_stable_desc_order(state_keys(vecs, tv, b), p) && r == first_at_most(p, width as int).map_values(
                |j: usize| b[j as int],
            )
    }
}

/// The extensions of `c` by one later module, in increasing order.
pub open spec fn children(c: Seq<usize>, n: int) -> Seq<Seq<usize>> {
    Seq::new((n - c.last() - 1) as nat, |j: int| c.push((c.last() + 1 + j) as usize))
}

/// Every extension of every element of `b`, in order.
pub open spec fn expand(b: Seq<Seq<usize>>, n: int) -> Seq<Seq<usize>>
    decreases b.len(),
{
    if b.len() == 0 {
        Seq::empty()
    } else {
        expand(b.drop_last(), n) + children(b.last(), n)
    }
}

/// Each single module, as a one-element combination.
pub open spec fn singles(n: int) -> Seq<Seq<usize>> {
    Seq::new(n as nat, |i: int| seq![i as usize])
}

/// `levels` are the successive beams of a beam search of `size` levels.
pub open spec fn beam_levels(vecs: Seq<[i32; 21]>, tv: Seq<i32>, size: int, width: nat, levels: Seq<Seq<Seq<usize>>>) -> bool {
    &&& levels.len() == size
    &&& kept_top(vecs, tv, singles(vecs.len() as int), width, levels[0])
    &&& forall|l: int|
        0 <= l < size - 1 ==> kept_top(vecs, tv, expand(#[trigger] levels[l], vecs.len() as int), width, levels[l + 1])
}

spec fn idxs_of(b: Seq<State>) -> Seq<Seq<usize>> {
    b.map_values(|st: State| st.idxs@)
}

fn copy_state(st: &State) -> (r: State)
    ensures
        r.totals@ == st.totals@,
        r.tv == st.tv,
        r.last == st.last,
        r.idxs@ == st.idxs@,
{
    State { totals: st.totals, tv: st.tv, last: st.last, idxs: copy_indices(&st.idxs) }
}

/// Retain the `width` highest-ranked partial combinations.
fn keep_top_states(states: Vec<State>, width: usize, vecs: &Vec<[i32; 21]>, tv: &Vec<i32>, level: usize) -> (r: Vec<State>)
    requires
        vectors_in_range(vecs@, tv@),
        1 <= level <= 5,
        forall|i: int| 0 <= i < states.len() ==> state_ok(#[trigger] &states@[i], vecs@, tv@, level as int),
    ensures
        kept_top(vecs@, tv@, idxs_of(states@), width as nat, idxs_of(r@)),
        r.len() <= width,
        forall|i: int| 0 <= i < r.len() ==> state_ok(#[trigger] &r@[i], vecs@, tv@, level as int),
{
    if states.len() <= width {
        return states;
    }
    let ghost b = idxs_of(states@);
    let mut keys: Vec<(i128, i128)> = Vec::new();
    let mut i: usize = 0;
    while i < states.len()
        invariant
            i <= states.len(),
            b == idxs_of(states@),
            vectors_in_range(vecs@, tv@),
            1 <= level <= 5,
            forall|i: int| 0 <= i < states.len() ==> state_ok(#[trigger] &states@[i], vecs@, tv@, level as int),
            keys@ == state_keys(vecs@, tv@, b).take(i as int),
        decreases states.len() - i,
    {
        let st = &states[i];
        proof {
            assert(state_ok(&states@[i as int], vecs@, tv@, level as int));
            lemma_combo_sums_bounded(vecs@, tv@, st.idxs@);
            assert(st.totals@ =~= combo_totals(vecs@, st.idxs@));
        }
        let score = score_totals(&st.totals, st.tv);
        keys.push((score as i128, st.tv as i128));
        i = i + 1;
        proof {
            assert(keys@ =~= state_keys(vecs@, tv@, b).take(i as int));
        }
    }
    assert(keys@ =~= state_keys(vecs@, tv@, b));
    let p = stable_desc_order(&keys);
    let mut r: Vec<State> = Vec::new();
    let mut j: usize = 0;
    while j < width
        invariant
            j <= width,
            width < states.len(),
            b == idxs_of(states@),
            is_stable_desc_order(keys@, p@),
            keys@.len() == states.len(),
            forall|i: int| 0 <= i < states.len() ==> state_ok(#[trigger] &states@[i], vecs@, tv@, level as int),
            idxs_of(r@) == p@.take(j as int).map_values(|x: usize| b[x as int]),
            r.len() == j,
            forall|i: int| 0 <= i < r.len() ==> state_ok(#[trigger] &r@[i], vecs@, tv@, level as int),
        decreases width - j,
    {
        let st = copy_state(&states[p[j]]);
        proof {
            assert(state_ok(&states@[p@[j as int] as int], vecs@, tv@, level as int));
        }
        let ghost r0 = r@;
        let ghost sv = st.idxs@;
        assert(sv == b[p@[j as int] as int]);
        r.push(st);
        j = j + 1;
        proof {
            assert(idxs_of(r@) =~= idxs_of(r0).push(sv));
            assert(p@.take(j as int).map_values(|x: usize| b[x as int]) =~= p@.take(j - 1).map_values(|x: usize| b[x as int]).push(sv));
            assert(idxs_of(r@) =~= p@.take(j as int).map_values(|x: usize| b[x as int]));
            assert forall|i: int| 0 <= i < r.len() implies state_ok(#[trigger] &r@[i], vecs@, tv@, level as int) by {
                if i < r.len() - 1 {
                    assert(r@[i] == r0[i]);
                }
            }
        }
    }
    proof {
        assert(first_at_most(p@, width as int) == p@.take(width as int));
        assert(kept_top(vecs@, tv@, b, width as nat, idxs_of(r@)));
    }
    r
}

/// Beam search for combinations of `size` modules, where full enumeration
/// is intractable: each level keeps the [`BEAM_WIDTH`] best partial
/// combinations and extends each of them by every later module.
pub fn beam_search(vecs: &Vec<[i32; 21]>, tv: &Vec<i32>, size: usize, top_n: usize) -> (r: Vec<Scored>)
    requires
        vectors_in_range(vecs@, tv@),
        1 <= size <= 5,
    ensures
        exists|levels: Seq<Seq<Seq<usize>>>|
            #![trigger beam_levels(vecs@, tv@, size as int, BEAM_WIDTH as nat, levels)]
            beam_levels(vecs@, tv@, size as int, BEAM_WIDTH as nat, levels) && finalized(
                levels[size - 1].map_values(|c: Seq<usize>| combo_view(vecs@, tv@, c)),
                top_n as nat,
                r@.map_values(|s: Scored| s@),
            ),
        r.len() <= top_n,
        ranked(r@.map_values(|s: Scored| s@)),
        distinct_module_sets(r@.map_values(|s: Scored| s@)),
        forall|j: int|
            0 <= j < r.len() ==> is_combo((#[trigger] r@[j]).idxs@, vecs.len() as int, size as int) && r@[j]@
                == combo_view(vecs@, tv@, r@[j].idxs@),
{
    let n = vecs.len();
    let mut beam: Vec<State> = Vec::new();
    let mut i: usize = 0;
    while i < n
        invariant
            i <= n,
            n == vecs.len(),
            vectors_in_range(vecs@, tv@),
            idxs_of(beam@) == singles(n as int).take(i as int),
            forall|k: int| 0 <= k < beam.len() ==> state_ok(#[trigger] &beam@[k], vecs@, tv@, 1),
        decreases n - i,
    {
        let mut idxs: Vec<usize> = Vec::new();
        idxs.push(i);
        let ghost c = idxs@;
        proof {
            assert(c =~= seq![i]);
            assert(c.drop_last() =~= Seq::<usize>::empty());
            assert(vecs@[i as int]@ =~= combo_totals(vecs@, c)) by {
                assert forall|t: int| 0 <= t < 21 implies vecs@[i as int]@[t] == combo_totals(vecs@, c)[t] by {
                    assert(combo_slot_sum(vecs@, c, t) == combo_slot_sum(vecs@, c.drop_last(), t) + vecs@[i as int]@[t]);
                }
            }
            assert(combo_tv(tv@, c) == combo_tv(tv@, c.drop_last()) + tv@[i as int]);
        }
        let ghost b0 = beam@;
        beam.push(State { totals: vecs[i], tv: tv[i], last: i, idxs });
        i = i + 1;
        proof {
            assert(idxs_of(beam@) =~= idxs_of(b0).push(c));
            assert(singles(n as int).take(i as int) =~= singles(n as int).take(i - 1).push(c));
            assert(idxs_of(beam@) =~= singles(n as int).take(i as int));
            assert forall|k: int| 0 <= k < beam.len() implies state_ok(#[trigger] &beam@[k], vecs@, tv@, 1) by {
                if k < beam.len() - 1 {
                    assert(beam@[k] == b0[k]);
                }
            }
        }
    }
    assert(idxs_of(beam@) =~= singles(n as int));
    let ghost s0 = idxs_of(beam@);
    beam = keep_top_states(beam, BEAM_WIDTH, vecs, tv, 1);
    let ghost mut levels: Seq<Seq<Seq<usize>>> = seq![idxs_of(beam@)];
    let mut level: usize = 1;
    while level < size
        invariant
            1 <= level <= size <= 5,
            n == vecs.len(),
            vectors_in_range(vecs@, tv@),
            levels.len() == level,
            levels[level - 1] == idxs_of(beam@),
            kept_top(vecs@, tv@, singles(n as int), BEAM_WIDTH as nat, levels[0]),
            forall|l: int|
                0 <= l < level - 1 ==> kept_top(vecs@, tv@, expand(#[trigger] levels[l], n as int), BEAM_WIDTH as nat, levels[l + 1]),
            forall|k: int| 0 <= k < beam.len() ==> state_ok(#[trigger] &beam@[k], vecs@, tv@, level as int),
        decreases size - level,
    {
        let ghost bi = idxs_of(beam@);
        let mut next: Vec<State> = Vec::new();
        let mut bidx: usize = 0;
        while bidx < beam.len()
            invariant
                bidx <= beam.len(),
                n == vecs.len(),
                1 <= level < 5,
                vectors_in_range(vecs@, tv@),
                bi == idxs_of(beam@),
                forall|k: int| 0 <= k < beam.len() ==> state_ok(#[trigger] &beam@[k], vecs@, tv@, level as int),
                idxs_of(next@) == expand(bi.take(bidx as int), n as int),
                forall|k: int| 0 <= k < next.len() ==> state_ok(#[trigger] &next@[k], vecs@, tv@, level + 1),
            decreases beam.len() - bidx,
        {
            let st = &beam[bidx];
            proof {
                assert(state_ok(&beam@[bidx as int], vecs@, tv@, level as int));
                assert(bi.take(bidx + 1).drop_last() =~= bi.take(bidx as int));
                assert(bi[bidx as int] == st.idxs@);
                assert(st.last < n);
            }
            let ghost base = next@;
            let mut k: usize = st.last + 1;
            while k < n
                invariant
                    n == vecs.len(),
                    1 <= level < 5,
                    vectors_in_range(vecs@, tv@),
                    state_ok(st, vecs@, tv@, level as int),
                    st.last < k <= n,
                    idxs_of(next@) == idxs_of(base) + children(st.idxs@, n as int).take(k - st.last - 1),
                    forall|x: int| 0 <= x < next.len() ==> state_ok(#[trigger] &next@[x], vecs@, tv@, level + 1),
                decreases n - k,
            {
                let ghost child = st.idxs@.push(k);
                proof {
                    lemma_combo_sums_bounded(vecs@, tv@, child);
                    lemma_combo_sums_bounded(vecs@, tv@, st.idxs@);
                    assert(child.drop_last() =~= st.idxs@);
                }
                let mut totals = st.totals;
                let mut s: usize = 0;
                while s < NUM_ATTRS
                    invariant
                        s <= NUM_ATTRS,
                        k < vecs.len(),
                        vectors_in_range(vecs@, tv@),
                        st.totals@ == combo_totals(vecs@, st.idxs@),
                        child == st.idxs@.push(k),
                        child.drop_last() == st.idxs@,
                        st.idxs@.len() < 5,
                        forall|t: int| 0 <= t < s ==> #[trigger] totals@[t] == combo_slot_sum(vecs@, child, t),
                        forall|t: int| s <= t < 21 ==> #[trigger] totals@[t] == st.totals@[t],
                        forall|t: int|
                            0 <= t < 21 ==> -child.len() * MAX_MODULE_MAGNITUDE <= #[trigger] combo_slot_sum(vecs@, child, t)
                                <= child.len() * MAX_MODULE_MAGNITUDE,
                        forall|t: int|
                            0 <= t < 21 ==> -st.idxs@.len() * MAX_MODULE_MAGNITUDE <= #[trigger] combo_slot_sum(vecs@, st.idxs@, t)
                                <= st.idxs@.len() * MAX_MODULE_MAGNITUDE,
                    decreases NUM_ATTRS - s,
                {
                    proof {
                        assert(combo_slot_sum(vecs@, child, s as int) == combo_slot_sum(vecs@, st.idxs@, s as int)
                            + vecs@[k as int]@[s as int]);
                        assert(totals@[s as int] == combo_slot_sum(vecs@, st.idxs@, s as int));
                    }
                    totals[s] = totals[s] + vecs[k][s];
                    s = s + 1;
                }
                let mut idxs = copy_indices(&st.idxs);
                idxs.push(k);
                proof {
                    assert(totals@ =~= combo_totals(vecs@, child));
                    assert(combo_tv(tv@, child) == st.tv + tv@[k as int]);
                    assert(is_combo(child, n as int, level + 1)) by {
                        assert forall|a: int, b: int| 0 <= a < b < child.len() implies #[trigger] child[a] < #[trigger] child[b] by {
                            if b == child.len() - 1 && a < b {
                                assert(st.idxs@[a] <= st.idxs@.last());
                            }
                        }
                    }
                    assert(idxs@ == child);
                }
                let ghost nb = next@;
                next.push(State { totals, tv: st.tv + tv[k], last: k, idxs });
                k = k + 1;
                proof {
                    assert(idxs_of(next@) =~= idxs_of(base) + children(st.idxs@, n as int).take(k - st.last - 1)) by {
                        assert(idxs_of(next@) =~= idxs_of(nb).push(child));
                        assert(children(st.idxs@, n as int).take(k - st.last - 1) =~= children(st.idxs@, n as int).take(
                            k - st.last - 2,
                        ).push(child));
                    }
                    assert forall|x: int| 0 <= x < next.len() implies state_ok(#[trigger] &next@[x], vecs@, tv@, level + 1) by {
                        if x < next.len() - 1 {
                            assert(next@[x] == nb[x]);
                        }
                    }
                }
            }
            bidx = bidx + 1;
            proof {
                assert(children(st.idxs@, n as int).take(n - st.last - 1) =~= children(st.idxs@, n as int));
                assert(bi.take(bidx as int).last() == st.idxs@);
                assert(idxs_of(next@) =~= expand(bi.take(bidx as int), n as int));
            }
        }
        assert(bi.take(beam.len() as int) =~= bi);
        let ghost ex = idxs_of(next@);
        beam = keep_top_states(next, BEAM_WIDTH, vecs, tv, level + 1);
        proof {
            let old_levels = levels;
            levels = levels.push(idxs_of(beam@));
            assert forall|l: int|
                0 <= l < level implies kept_top(vecs@, tv@, expand(#[trigger] levels[l], n as int), BEAM_WIDTH as nat, levels[l + 1]) by {
                if l < level - 1 {
                    assert(levels[l] == old_levels[l] && levels[l + 1] == old_levels[l + 1]);
                } else {
                    assert(levels[l] == bi);
                }
            }
        }
        level = level + 1;
    }
    let mut scored: Vec<Scored> = Vec::new();
    let mut j: usize = 0;
    let ghost last_level = idxs_of(beam@);
    while j < beam.len()
        invariant
            j <= beam.len(),
            vectors_in_range(vecs@, tv@),
            size <= 5,
            last_level == idxs_of(beam@),
            forall|k: int| 0 <= k < beam.len() ==> state_ok(#[trigger] &beam@[k], vecs@, tv@, size as int),
            scored@.map_values(|s: Scored| s@) == last_level.take(j as int).map_values(|c: Seq<usize>| combo_view(vecs@, tv@, c)),
        decreases beam.len() - j,
    {
        let st = &beam[j];
        proof {
            assert(state_ok(&beam@[j as int], vecs@, tv@, size as int));
            lemma_combo_sums_bounded(vecs@, tv@, st.idxs@);
            assert(st.totals@ =~= combo_totals(vecs@, st.idxs@));
        }
        let score = score_totals(&st.totals, st.tv);
        let item = Scored { score, total: st.tv, idxs: copy_indices(&st.idxs) };
        let ghost sc0 = scored@;
        let ghost iv = item@;
        assert(iv == combo_view(vecs@, tv@, last_level[j as int]));
        scored.push(item);
        j = j + 1;
        proof {
            assert(scored@.map_values(|s: Scored| s@) =~= sc0.map_values(|s: Scored| s@).push(iv));
            assert(last_level.take(j as int).map_values(|c: Seq<usize>| combo_view(vecs@, tv@, c)) =~= last_level.take(j - 1).map_values(|c: Seq<usize>| combo_view(vecs@, tv@, c)).push(iv));
            assert(scored@.map_values(|s: Scored| s@) =~= last_level.take(j as int).map_values(|c: Seq<usize>| combo_view(vecs@, tv@, c)));
        }
    }
    assert(last_level.take(beam.len() as int) =~= last_level);
    let ghost input = scored@.map_values(|s: Scored| s@);
    let r = finalize(scored, top_n);
    proof {
        assert(beam_levels(vecs@, tv@, size as int, BEAM_WIDTH as nat, levels));
        assert forall|j: int|
            0 <= j < r.len() implies is_combo((#[trigger] r@[j]).idxs@, vecs.len() as int, size as int) && r@[j]@
                == combo_view(vecs@, tv@, r@[j].idxs@) by {
            assert(input.contains(r@[j]@));
            let k = choose|k: int| 0 <= k < input.len() && input[k] == r@[j]@;
            assert(state_ok(&beam@[k], vecs@, tv@, size as int));
        }
    }
    r
}


// --- request / response ---------------------------------------------------------------

/// What to optimize for.
pub struct OptimizeRequest {
    /// `"All"` (or empty), `"Attack"`, `"Guardian"`, or `"Support"`.
    pub category: String,
    /// Attribute ids to maximize (empty = maximize overall power).
    pub target_attrs: Vec<i32>,
    /// Attribute ids to avoid: any module carrying one of these is dropped.
    pub exclude_attrs: Vec<i32>,
    /// A module must carry at least this many of `target_attrs` to be used.
    pub match_count: u32,
    /// Combination size: 4 or 5 (clamped).
    pub combo_size: u32,
    /// Number of ranked solutions to return (clamped to 1..=100).
    pub top_n: u32,
}

/// One attribute of a solution's breakdown: its name and summed value.
pub struct AttrValue {
    pub name: String,
    pub value: i32,
}

/// One ranked combination of modules.
pub struct ModuleSolution {
    pub rank: u32,
    pub score: i64,
    pub total_value: i32,
    pub modules: Vec<ModuleInfo>,
    pub breakdown: Vec<AttrValue>,
}

/// Mathematical value of a [`ModuleSolution`].
pub struct ModuleSolutionView {
    pub rank: u32,
    pub score: i64,
    pub total_value: i32,
    pub modules: Seq<ModuleInfoView>,
    pub breakdown: Seq<(Seq<char>, i32)>,
}

impl View for ModuleSolution {
    type V = ModuleSolutionView;

    open spec fn view(&self) -> ModuleSolutionView {
        ModuleSolutionView {
            rank: self.rank,
            score: self.score,
            total_value: self.total_value,
            modules: self.modules@.map_values(|m: ModuleInfo| m@),
            breakdown: self.breakdown@.map_values(|a: AttrValue| (a.name@, a.value)),
        }
    }
}

/// The canonical slots of the known attribute ids among `ids`, in order.
pub open spec fn known_slots(ids: Seq<i32>) -> Seq<usize>
    decreases ids.len(),
{
    if ids.len() == 0 {
        Seq::empty()
    } else if slot_of_id(ids.last()) >= 0 {
        known_slots(ids.drop_last()).push(slot_of_id(ids.last()) as usize)
    } else {
        known_slots(ids.drop_last())
    }
}

/// The requested category admits modules of category `c`.
pub open spec fn category_matches(cat: Seq<char>, c: ModuleCategory) -> bool {
    cat == "All"@ || cat == Seq::<char>::empty() || cat == category_name(c)
}

/// Number of parts whose attribute is one of the target slots.
pub open spec fn target_hits(parts: Seq<ModulePartView>, slots: Seq<usize>) -> int
    decreases parts.len(),
{
    if parts.len() == 0 {
        0
    } else {
        target_hits(parts.drop_last(), slots) + (if slot_of_id(parts.last().id) >= 0 && slots.contains(
            slot_of_id(parts.last().id) as usize,
        ) {
            1int
        } else {
            0int
        })
    }
}

/// A module passes the request's filters: its category is admitted, it
/// carries no excluded attribute, and (when there are target attributes and
/// a match count) it carries at least `match_count` of the targets.
pub open spec fn passes_filters(
    m: ModuleInfoView,
    category: Seq<char>,
    exclude: Seq<i32>,
    match_count: u32,
    slots: Seq<usize>,
) -> bool {
    &&& category_matches(category, m.category)
    &&& !exists|k: int| 0 <= k < m.parts.len() && exclude.contains(#[trigger] m.parts[k].id)
    &&& (slots.len() == 0 || match_count == 0 || target_hits(m.parts, slots) >= match_count)
}

/// Sum of `v` over the slots `slots` (each occurrence counted).
pub open spec fn target_sum_of(v: Seq<i32>, slots: Seq<usize>) -> int
    decreases slots.len(),
{
    if slots.len() == 0 {
        0
    } else {
        target_sum_of(v, slots.drop_last()) + v[slots.last() as int] as int
    }
}

/// Ranking keys of the slots `ps` by their total.
pub open spec fn slot_keys(totals: Seq<i32>, ps: Seq<usize>) -> Seq<(i128, i128)> {
    ps.map_values(|x: usize| (totals[x as int] as i128, 0i128))
}

/// `b` is the breakdown of `totals`: the name and value of every slot with a
/// positive total, largest first (ties in slot order).
pub open spec fn breakdown_of(totals: Seq<i32>, b: Seq<(Seq<char>, i32)>) -> bool {
    let ps = indices_where(Seq::new(NUM_ATTRS as nat, |s: int| totals[s] > 0));
    exists|p: Seq<usize>|
        #![trigger is_stable_desc_order(slot_keys(totals, ps), p)]
        is_stable_desc_order(slot_keys(totals, ps), p) && b
            == p.map_values(|k: usize| (attr_name_of(ps[k as int] as int), totals[ps[k as int] as int]))
}

/// `sol` is the solution of rank `rank` built from the scored combination
/// `s` of candidates `cand` (positions in the filtered list `f` of `modules`).
pub open spec fn solution_of(
    modules: Seq<ModuleInfoView>,
    f: Seq<usize>,
    cand: Seq<usize>,
    cvecs: Seq<[i32; 21]>,
    s: ScoredView,
    rank: int,
    sol: ModuleSolutionView,
) -> bool {
    &&& sol.rank == rank
    &&& sol.score == s.score
    &&& sol.total_value == s.total
    &&& sol.modules == s.idxs.map_values(|ci: usize| modules[f[cand[ci as int] as int] as int])
    &&& breakdown_of(combo_totals(cvecs, s.idxs), sol.breakdown)
}

fn contains_i32(v: &Vec<i32>, x: i32) -> (b: bool)
    ensures
        b == v@.contains(x),
{
    let mut i: usize = 0;
    while i < v.len()
        invariant
            i <= v.len(),
            forall|k: int| 0 <= k < i ==> v@[k] != x,
        decreases v.len() - i,
    {
        if v[i] == x {
            assert(v@[i as int] == x);
            return true;
        }
        i = i + 1;
    }
    false
}

fn contains_usize(v: &Vec<usize>, x: usize) -> (b: bool)
    ensures
        b == v@.contains(x),
{
    let mut i: usize = 0;
    while i < v.len()
        invariant
            i <= v.len(),
            forall|k: int| 0 <= k < i ==> v@[k] != x,
        decreases v.len() - i,
    {
        if v[i] == x {
            assert(v@[i as int] == x);
            return true;
        }
        i = i + 1;
    }
    false
}

/// Whether module `m` passes the request's filters.
fn passes(m: &ModuleInfo, req: &OptimizeRequest, target_slots: &Vec<usize>) -> (b: bool)
    ensures
        b == passes_filters(m@, req.category@, req.exclude_attrs@, req.match_count, target_slots@),
{
    let all = String::from_str("All");
    let cat_ok = req.category == all || req.category.unicode_len() == 0
        || String::from_str(m.category.as_str()) == req.category;
    proof {
        if req.category@.len() == 0 {
            assert(req.category@ =~= Seq::<char>::empty());
        }
    }
    assert(cat_ok == category_matches(req.category@, m.category));
    if !cat_ok {
        return false;
    }
    let mut k: usize = 0;
    while k < m.parts.len()
        invariant
            k <= m.parts.len(),
            forall|j: int| 0 <= j < k ==> !req.exclude_attrs@.contains(#[trigger] m@.parts[j].id),
        decreases m.parts.len() - k,
    {
        if contains_i32(&req.exclude_attrs, m.parts[k].id) {
            assert(m@.parts[k as int].id == m.parts@[k as int].id);
            return false;
        }
        k = k + 1;
    }
    assert(!exists|k: int| 0 <= k < m@.parts.len() && req.exclude_attrs@.contains(#[trigger] m@.parts[k].id));
    if target_slots.len() == 0 || req.match_count == 0 {
        return true;
    }
    let mut hits: u64 = 0;
    let mut j: usize = 0;
    while j < m.parts.len()
        invariant
            j <= m.parts.len(),
            hits == target_hits(m@.parts.take(j as int), target_slots@),
            hits <= j,
        decreases m.parts.len() - j,
    {
        proof {
            assert(m@.parts.take(j + 1).drop_last() =~= m@.parts.take(j as int));
            assert(m@.parts.take(j + 1).last() == m@.parts[j as int]);
            lemma_slot_of_id(m.parts@[j as int].id);
        }
        match attr_slot(m.parts[j].id) {
            Some(s) => {
                if contains_usize(target_slots, s) {
                    hits = hits + 1;
                }
            },
            None => {},
        }
        j = j + 1;
    }
    assert(m@.parts.take(m.parts.len() as int) =~= m@.parts);
    hits >= req.match_count as u64
}

/// The canonical slots of the known ids among `ids`, in order.
fn known_slots_of(ids: &Vec<i32>) -> (r: Vec<usize>)
    ensures
        r@ == known_slots(ids@),
        forall|t: int| 0 <= t < r.len() ==> #[trigger] r[t] < NUM_ATTRS,
{
    let mut r: Vec<usize> = Vec::new();
    let mut i: usize = 0;
    while i < ids.len()
        invariant
            i <= ids.len(),
            r@ == known_slots(ids@.take(i as int)),
            forall|t: int| 0 <= t < r.len() ==> #[trigger] r[t] < NUM_ATTRS,
        decreases ids.len() - i,
    {
        proof {
            assert(ids@.take(i + 1).drop_last() =~= ids@.take(i as int));
            lemma_slot_of_id(ids@[i as int]);
        }
        if let Some(s) = attr_slot(ids[i]) {
            r.push(s);
        }
        i = i + 1;
    }
    assert(ids@.take(ids.len() as int) =~= ids@);
    r
}

fn breakdown(totals: &[i32; 21]) -> (b: Vec<AttrValue>)
    ensures
        breakdown_of(totals@, b@.map_values(|a: AttrValue| (a.name@, a.value))),
{
    let ghost flags = Seq::new(NUM_ATTRS as nat, |s: int| totals@[s] > 0);
    let mut ps: Vec<usize> = Vec::new();
    let mut s: usize = 0;
    while s < NUM_ATTRS
        invariant
            s <= NUM_ATTRS,
            flags == Seq::new(NUM_ATTRS as nat, |s: int| totals@[s] > 0),
            ps@ == indices_where(flags.take(s as int)),
        decreases NUM_ATTRS - s,
    {
        proof {
            assert(flags.take(s + 1).drop_last() =~= flags.take(s as int));
        }
        if totals[s] > 0 {
            ps.push(s);
        }
        s = s + 1;
    }
    assert(flags.take(NUM_ATTRS as int) =~= flags);
    proof {
        lemma_indices_where_facts(flags);
    }
    let ghost psv = ps@;
    let mut keys: Vec<(i128, i128)> = Vec::new();
    let mut k: usize = 0;
    while k < ps.len()
        invariant
            k <= ps.len(),
            ps@ == psv,
            forall|j: int| 0 <= j < psv.len() ==> #[trigger] psv[j] < NUM_ATTRS,
            keys@ == slot_keys(totals@, psv).take(k as int),
        decreases ps.len() - k,
    {
        keys.push((totals[ps[k]] as i128, 0i128));
        k = k + 1;
        assert(keys@ =~= slot_keys(totals@, psv).take(k as int));
    }
    assert(keys@ =~= slot_keys(totals@, psv));
    let p = stable_desc_order(&keys);
    let mut b: Vec<AttrValue> = Vec::new();
    let mut j: usize = 0;
    while j < p.len()
        invariant
            j <= p.len(),
            ps@ == psv,
            forall|t: int| 0 <= t < psv.len() ==> #[trigger] psv[t] < NUM_ATTRS,
            is_stable_desc_order(keys@, p@),
            keys@.len() == psv.len(),
            b@.map_values(|a: AttrValue| (a.name@, a.value)) == p@.take(j as int).map_values(
                |k: usize| (attr_name_of(psv[k as int] as int), totals@[psv[k as int] as int]),
            ),
        decreases p.len() - j,
    {
        let slot = ps[p[j]];
        let def = attr_def(slot);
        let ghost b0 = b@;
        b.push(AttrValue { name: String::from_str(def.name), value: totals[slot] });
        j = j + 1;
        proof {
            assert(b@.map_values(|a: AttrValue| (a.name@, a.value)) =~= b0.map_values(|a: AttrValue| (a.name@, a.value)).push((attr_name_of(slot as int), totals@[slot as int])));
            assert(p@.take(j as int).map_values(|k: usize| (attr_name_of(psv[k as int] as int), totals@[psv[k as int] as int]))
                =~= p@.take(j - 1).map_values(|k: usize| (attr_name_of(psv[k as int] as int), totals@[psv[k as int] as int])).push((attr_name_of(slot as int), totals@[slot as int])));
        }
    }
    assert(p@.take(p.len() as int) =~= p@);
    b
}


/// Mathematical values of a list of solutions.
pub open spec fn solution_views(r: Seq<ModuleSolution>) -> Seq<ModuleSolutionView> {
    r.map_values(|s: ModuleSolution| s@)
}

/// Requested combination size, clamped to 4..=5.
pub open spec fn clamped_combo_size(req_size: u32) -> int {
    if req_size < 4 { 4 } else if req_size > 5 { 5 } else { req_size as int }
}

/// Requested number of solutions, clamped to 1..=100.
pub open spec fn clamped_top_n(req_top_n: u32) -> int {
    if req_top_n < 1 { 1 } else if req_top_n > 100 { 100 } else { req_top_n as int }
}

/// Positions (ascending) of the modules that pass the request's filters.
pub open spec fn filtered_positions(
    mv: Seq<ModuleInfoView>,
    category: Seq<char>,
    exclude: Seq<i32>,
    match_count: u32,
    slots: Seq<usize>,
) -> Seq<usize> {
    indices_where(Seq::new(mv.len(), |i: int| passes_filters(mv[i], category, exclude, match_count, slots)))
}

/// How the optimizer's answer `r` arises from the filtered modules `f`:
/// `fv`, `ftv`, `fts` are their attribute vectors, totals and target sums;
/// `cand` is the prefilter's candidate list over them; `sv` are the ranked
/// scored combinations of candidates (the exact best `tn` for size 4, the beam
/// search's result for size 5); and `r[j]` is the solution of rank `j + 1`
/// built from `sv[j]`.
pub open spec fn solved_by(
    modules: Seq<ModuleInfo>,
    f: Seq<usize>,
    slots: Seq<usize>,
    cs: int,
    tn: int,
    fv: Seq<[i32; 21]>,
    ftv: Seq<i32>,
    fts: Seq<i128>,
    cand: Seq<usize>,
    sv: Seq<ScoredView>,
    r: Seq<ModuleSolutionView>,
) -> bool {
    let cvecs = cand.map_values(|c: usize| fv[c as int]);
    let ctv = cand.map_values(|c: usize| ftv[c as int]);
    &&& fv.len() == f.len() && ftv.len() == f.len() && fts.len() == f.len()
    &&& forall|i: int|
        0 <= i < f.len() ==> {
            &&& (#[trigger] fv[i])@ == attr_vector_of(modules[f[i] as int].parts@)
            &&& ftv[i] == parts_total(modules[f[i] as int].parts@)
            &&& fts[i] == target_sum_of(fv[i]@, slots)
        }
    &&& prefiltered(fv, ftv, fts, slots, cand)
    &&& (cs == 4 ==> is_top_n_of_all(sv, cvecs, ctv, cand.len() as int, 4, tn as nat))
    &&& (cs == 5 ==> exists|levels: Seq<Seq<Seq<usize>>>|
        #![trigger beam_levels(cvecs, ctv, 5, BEAM_WIDTH as nat, levels)]
        beam_levels(cvecs, ctv, 5, BEAM_WIDTH as nat, levels) && finalized(
            levels[4].map_values(|c: Seq<usize>| combo_view(cvecs, ctv, c)),
            tn as nat,
            sv,
        ))
    &&& ranked(sv)
    &&& r.len() == sv.len()
    &&& forall|j: int|
        0 <= j < r.len() ==> solution_of(
            modules.map_values(|m: ModuleInfo| m@),
            f,
            cand,
            cvecs,
            sv[j],
            j + 1,
            #[trigger] r[j],
        )
}

fn sum_targets(v: &[i32; 21], slots: &Vec<usize>) -> (t: i128)
    requires
        forall|k: int| 0 <= k < slots.len() ==> #[trigger] slots[k] < NUM_ATTRS,
        forall|s: int| 0 <= s < 21 ==> -MAX_MODULE_MAGNITUDE <= #[trigger] v@[s] <= MAX_MODULE_MAGNITUDE,
    ensures
        t == target_sum_of(v@, slots@),
{
    let mut t: i128 = 0;
    let mut k: usize = 0;
    while k < slots.len()
        invariant
            k <= slots.len(),
            forall|k: int| 0 <= k < slots.len() ==> #[trigger] slots[k] < NUM_ATTRS,
            forall|s: int| 0 <= s < 21 ==> -MAX_MODULE_MAGNITUDE <= #[trigger] v@[s] <= MAX_MODULE_MAGNITUDE,
            t == target_sum_of(v@, slots@.take(k as int)),
            -(k as int) * MAX_MODULE_MAGNITUDE <= t <= (k as int) * MAX_MODULE_MAGNITUDE,
        decreases slots.len() - k,
    {
        proof {
            assert(slots@.take(k + 1).drop_last() =~= slots@.take(k as int));
            assert(k < usize::MAX);
        }
        t = t + v[slots[k]] as i128;
        k = k + 1;
    }
    assert(slots@.take(slots.len() as int) =~= slots@);
    t
}

/// Every module that passes the request's filters is within
/// [`MAX_MODULE_MAGNITUDE`] (modules the filters drop are never summed).
pub open spec fn filtered_in_range(modules: Seq<ModuleInfo>, req: &OptimizeRequest) -> bool {
    forall|i: int|
        #![trigger modules[i]]
        0 <= i < modules.len() && passes_filters(
            modules[i]@,
            req.category@,
            req.exclude_attrs@,
            req.match_count,
            known_slots(req.target_attrs@),
        ) ==> module_in_range(&modules[i])
}

/// Whether the optimizer can take `modules` for `req` (see
/// [`filtered_in_range`]).
pub fn fits_optimizer(modules: &Vec<ModuleInfo>, req: &OptimizeRequest) -> (b: bool)
    ensures
        b == filtered_in_range(modules@, req),
{
    let target_slots = known_slots_of(&req.target_attrs);
    let mut i: usize = 0;
    while i < modules.len()
        invariant
            i <= modules.len(),
            target_slots@ == known_slots(req.target_attrs@),
            forall|j: int|
                #![trigger modules@[j]]
                0 <= j < i && passes_filters(
                    modules@[j]@,
                    req.category@,
                    req.exclude_attrs@,
                    req.match_count,
                    known_slots(req.target_attrs@),
                ) ==> module_in_range(&modules@[j]),
        decreases modules.len() - i,
    {
        if passes(&modules[i], req, &target_slots) && !modules[i].in_range() {
            return false;
        }
        i = i + 1;
    }
    true
}

/// Every module of every solution is one of `modules` that passes the
/// request's filters.
pub open spec fn solutions_use_filtered(modules: Seq<ModuleInfo>, req: &OptimizeRequest, r: Seq<ModuleSolutionView>) -> bool {
    forall|j: int, k: int|
        #![trigger r[j].modules[k]]
        0 <= j < r.len() && 0 <= k < r[j].modules.len() ==> exists|p: int|
            0 <= p < modules.len() && #[trigger] passes_filters(
                modules[p]@,
                req.category@,
                req.exclude_attrs@,
                req.match_count,
                known_slots(req.target_attrs@),
            ) && r[j].modules[k] == modules[p]@
}

/// For a request of one category (not "All" or empty), every module of every
/// solution is of that category.
pub open spec fn solutions_in_category(cat: Seq<char>, r: Seq<ModuleSolutionView>) -> bool {
    cat != "All"@ && cat.len() > 0 ==> forall|j: int, k: int|
        0 <= j < r.len() && 0 <= k < r[j].modules.len() ==> category_name(#[trigger] r[j].modules[k].category) == cat
}

/// A request for one category ("Attack", "Guardian" or "Support"; not "All"
/// or empty) yields only modules of that category, and no solution holds a
/// module that carries an excluded attribute.
pub proof fn lemma_solutions_respect_filters(modules: Seq<ModuleInfo>, req: &OptimizeRequest, r: Seq<ModuleSolutionView>)
    requires
        solutions_use_filtered(modules, req, r),
    ensures
        req.category@ != "All"@ && req.category@.len() > 0 ==> forall|j: int, k: int|
            0 <= j < r.len() && 0 <= k < r[j].modules.len() ==> category_name(#[trigger] r[j].modules[k].category)
                == req.category@,
        forall|j: int, k: int, q: int|
            0 <= j < r.len() && 0 <= k < r[j].modules.len() && 0 <= q < r[j].modules[k].parts.len()
                ==> !req.exclude_attrs@.contains(#[trigger] r[j].modules[k].parts[q].id),
{
    assert forall|j: int, k: int|
        0 <= j < r.len() && 0 <= k < r[j].modules.len() && req.category@ != "All"@ && req.category@.len() > 0 implies category_name(
        #[trigger] r[j].modules[k].category,
    ) == req.category@ by {
        let m = r[j].modules[k];
        let p = choose|p: int|
            0 <= p < modules.len() && #[trigger] passes_filters(
                modules[p]@,
                req.category@,
                req.exclude_attrs@,
                req.match_count,
                known_slots(req.target_attrs@),
            ) && m == modules[p]@;
        assert(req.category@ != Seq::<char>::empty());
    }
    assert forall|j: int, k: int, q: int|
        0 <= j < r.len() && 0 <= k < r[j].modules.len() && 0 <= q < r[j].modules[k].parts.len()
            implies !req.exclude_attrs@.contains(#[trigger] r[j].modules[k].parts[q].id) by {
        let m = r[j].modules[k];
        let p = choose|p: int|
            0 <= p < modules.len() && #[trigger] passes_filters(
                modules[p]@,
                req.category@,
                req.exclude_attrs@,
                req.match_count,
                known_slots(req.target_attrs@),
            ) && m == modules[p]@;
        assert(m.parts[q].id == modules[p]@.parts[q].id);
    }
}

/// `r` is the optimizer's answer for `modules` and `req`: nothing when fewer
/// modules pass the request's filters than a combination needs; otherwise
/// the ranked top combinations of the prefiltered candidates (all of them
/// for 4 modules, the beam search's for 5).
pub open spec fn optimized(modules: Seq<ModuleInfo>, req: &OptimizeRequest, r: Seq<ModuleSolutionView>) -> bool {
    let slots = known_slots(req.target_attrs@);
    let f = filtered_positions(
        modules.map_values(|m: ModuleInfo| m@),
        req.category@,
        req.exclude_attrs@,
        req.match_count,
        slots,
    );
    let cs = clamped_combo_size(req.combo_size);
    let tn = clamped_top_n(req.top_n);
    &&& f.len() < cs ==> r.len() == 0
    &&& f.len() >= cs ==> exists|
        fv: Seq<[i32; 21]>,
        ftv: Seq<i32>,
        fts: Seq<i128>,
        cand: Seq<usize>,
        sv: Seq<ScoredView>,
    |
        #[trigger] solved_by(modules, f, slots, cs, tn, fv, ftv, fts, cand, sv, r)
}

/// Run the optimizer over the full module inventory: the best `top_n`
/// combinations (4 or 5 modules) for the request, ranked highest first.
#[verifier::rlimit(100)]
pub fn optimize(modules: &Vec<ModuleInfo>, req: &OptimizeRequest) -> (r: Vec<ModuleSolution>)
    requires
        filtered_in_range(modules@, req),
    ensures
        optimized(modules@, req, solution_views(r@)),
        solutions_use_filtered(modules@, req, solution_views(r@)),
        solutions_in_category(req.category@, solution_views(r@)),
{
    let combo_size: usize = if req.combo_size < 4 {
        4
    } else if req.combo_size > 5 {
        5
    } else {
        req.combo_size as usize
    };
    let top_n: usize = if req.top_n < 1 {
        1
    } else if req.top_n > 100 {
        100
    } else {
        req.top_n as usize
    };
    let target_slots = known_slots_of(&req.target_attrs);
    let ghost mv = modules@.map_values(|m: ModuleInfo| m@);
    let ghost flags = Seq::new(
        modules.len() as nat,
        |i: int| passes_filters(mv[i], req.category@, req.exclude_attrs@, req.match_count, target_slots@),
    );
    // 1) Filter by category / exclude / match-count.
    let mut filtered: Vec<usize> = Vec::new();
    let mut i: usize = 0;
    while i < modules.len()
        invariant
            i <= modules.len(),
            mv == modules@.map_values(|m: ModuleInfo| m@),
            flags == Seq::new(
                modules.len() as nat,
                |i: int| passes_filters(mv[i], req.category@, req.exclude_attrs@, req.match_count, target_slots@),
            ),
            filtered@ == indices_where(flags.take(i as int)),
            filtered_in_range(modules@, req),
            target_slots@ == known_slots(req.target_attrs@),
            forall|j: int| 0 <= j < filtered.len() ==> module_in_range(#[trigger] &modules@[filtered@[j] as int]),
        decreases modules.len() - i,
    {
        proof {
            assert(flags.take(i + 1).drop_last() =~= flags.take(i as int));
            assert(mv[i as int] == modules@[i as int]@);
        }
        if passes(&modules[i], req, &target_slots) {
            assert(module_in_range(&modules@[i as int]));
            filtered.push(i);
        }
        i = i + 1;
    }
    assert(flags.take(modules.len() as int) =~= flags);
    proof {
        lemma_indices_where_facts(flags);
    }
    if filtered.len() < combo_size {
        return Vec::new();
    }
    // Attribute vectors / totals / target sums of the filtered modules.
    let mut vecs: Vec<[i32; 21]> = Vec::new();
    let mut totals_v: Vec<i32> = Vec::new();
    let mut target_sum: Vec<i128> = Vec::new();
    let mut k: usize = 0;
    while k < filtered.len()
        invariant
            k <= filtered.len(),
            forall|j: int| 0 <= j < filtered.len() ==> module_in_range(#[trigger] &modules@[filtered@[j] as int]),
            forall|j: int| 0 <= j < filtered.len() ==> #[trigger] filtered@[j] < modules.len(),
            forall|t: int| 0 <= t < target_slots.len() ==> #[trigger] target_slots[t] < NUM_ATTRS,
            vecs.len() == k && totals_v.len() == k && target_sum.len() == k,
            forall|i: int|
                0 <= i < k ==> {
                    &&& (#[trigger] vecs@[i])@ == attr_vector_of(modules@[filtered@[i] as int].parts@)
                    &&& totals_v@[i] == parts_total(modules@[filtered@[i] as int].parts@)
                    &&& target_sum@[i] == target_sum_of(vecs@[i]@, target_slots@)
                },
            vectors_in_range(vecs@, totals_v@),
        decreases filtered.len() - k,
    {
        let m = &modules[filtered[k]];
        proof {
            assert(module_in_range(&modules@[filtered@[k as int] as int]));
            lemma_part_sums_bounded(m.parts@);
            lemma_in_range_sums_fit(m);
        }
        let v = m.attr_vector();
        let tvm = m.total_value();
        let ts = sum_targets(&v, &target_slots);
        let ghost (v0, t0, ts0) = (vecs@, totals_v@, target_sum@);
        vecs.push(v);
        totals_v.push(tvm);
        target_sum.push(ts);
        k = k + 1;
        proof {
            assert forall|i: int| 0 <= i < k implies {
                &&& (#[trigger] vecs@[i])@ == attr_vector_of(modules@[filtered@[i] as int].parts@)
                &&& totals_v@[i] == parts_total(modules@[filtered@[i] as int].parts@)
                &&& target_sum@[i] == target_sum_of(vecs@[i]@, target_slots@)
            } by {
                if i < k - 1 {
                    assert(vecs@[i] == v0[i] && totals_v@[i] == t0[i] && target_sum@[i] == ts0[i]);
                }
            }
            assert forall|a: int, b: int| 0 <= a < vecs.len() && 0 <= b < 21 implies -MAX_MODULE_MAGNITUDE
                <= #[trigger] vecs@[a]@[b] <= MAX_MODULE_MAGNITUDE by {
                if a == k - 1 {
                    assert(vecs@[a]@[b] == slot_total(m.parts@, b) as i32);
                } else {
                    assert(vecs@[a] == v0[a]);
                }
            }
            assert forall|a: int| 0 <= a < totals_v.len() implies -MAX_MODULE_MAGNITUDE <= #[trigger] totals_v@[a]
                <= MAX_MODULE_MAGNITUDE by {
                if a < k - 1 {
                    assert(totals_v@[a] == t0[a]);
                }
            }
        }
    }
    // 2) Prefilter to a bounded candidate set.
    let candidates = prefilter(filtered.len(), &totals_v, &target_sum, &vecs, &target_slots);
    let mut cand_vecs: Vec<[i32; 21]> = Vec::new();
    let mut cand_tv: Vec<i32> = Vec::new();
    let mut c: usize = 0;
    while c < candidates.len()
        invariant
            c <= candidates.len(),
            forall|j: int| 0 <= j < candidates.len() ==> #[trigger] candidates@[j] < vecs.len(),
            vecs.len() == totals_v.len(),
            vectors_in_range(vecs@, totals_v@),
            cand_vecs@ == candidates@.take(c as int).map_values(|x: usize| vecs@[x as int]),
            cand_tv@ == candidates@.take(c as int).map_values(|x: usize| totals_v@[x as int]),
        decreases candidates.len() - c,
    {
        cand_vecs.push(vecs[candidates[c]]);
        cand_tv.push(totals_v[candidates[c]]);
        c = c + 1;
        proof {
            assert(cand_vecs@ =~= candidates@.take(c as int).map_values(|x: usize| vecs@[x as int]));
            assert(cand_tv@ =~= candidates@.take(c as int).map_values(|x: usize| totals_v@[x as int]));
        }
    }
    assert(candidates@.take(candidates.len() as int) =~= candidates@);
    let ghost cvecs = candidates@.map_values(|x: usize| vecs@[x as int]);
    let ghost ctv = candidates@.map_values(|x: usize| totals_v@[x as int]);
    proof {
        assert(cand_vecs@ == cvecs && cand_tv@ == ctv);
        assert forall|a: int, b: int| 0 <= a < cvecs.len() && 0 <= b < 21 implies -MAX_MODULE_MAGNITUDE
            <= #[trigger] cvecs[a]@[b] <= MAX_MODULE_MAGNITUDE by {
            assert(cvecs[a] == vecs@[candidates@[a] as int]);
        }
        assert forall|a: int| 0 <= a < ctv.len() implies -MAX_MODULE_MAGNITUDE <= #[trigger] ctv[a]
            <= MAX_MODULE_MAGNITUDE by {
            assert(ctv[a] == totals_v@[candidates@[a] as int]);
        }
    }
    // 3) Enumerate.
    let scored = if combo_size <= 4 {
        enumerate_exact(&cand_vecs, &cand_tv, combo_size, top_n)
    } else {
        beam_search(&cand_vecs, &cand_tv, combo_size, top_n)
    };
    let ghost sv = scored@.map_values(|s: Scored| s@);
    proof {
        assert forall|j: int| 0 <= j < scored.len() implies is_combo((#[trigger] scored@[j]).idxs@, cvecs.len() as int, combo_size as int) by {
            if combo_size <= 4 {
                assert(sv[j] == scored@[j]@);
            }
        }
    }
    // 4) Build solutions.
    let mut out: Vec<ModuleSolution> = Vec::new();
    let mut j: usize = 0;
    while j < scored.len()
        invariant
            j <= scored.len(),
            scored.len() <= top_n <= 100,
            2 <= combo_size <= 5,
            sv == scored@.map_values(|s: Scored| s@),
            mv == modules@.map_values(|m: ModuleInfo| m@),
            forall|i: int| 0 <= i < scored.len() ==> is_combo((#[trigger] scored@[i]).idxs@, cvecs.len() as int, combo_size as int),
            cand_vecs@ == cvecs,
            cvecs.len() == candidates.len(),
            vectors_in_range(cvecs, ctv),
            forall|x: int| 0 <= x < candidates.len() ==> #[trigger] candidates@[x] < filtered.len(),
            forall|x: int| 0 <= x < filtered.len() ==> #[trigger] filtered@[x] < modules.len(),
            out.len() == j,
            forall|t: int|
                0 <= t < j ==> solution_of(mv, filtered@, candidates@, cvecs, sv[t], t + 1, #[trigger] out@[t]@),
        decreases scored.len() - j,
    {
        let s = &scored[j];
        proof {
            assert(is_combo(scored@[j as int].idxs@, cvecs.len() as int, combo_size as int));
        }
        let mut mods: Vec<ModuleInfo> = Vec::new();
        let mut totals = [0i32; 21];
        let mut t: usize = 0;
        while t < s.idxs.len()
            invariant
                t <= s.idxs.len(),
                s.idxs.len() <= 5,
                is_combo(s.idxs@, cvecs.len() as int, s.idxs.len() as int),
                cand_vecs@ == cvecs,
                cvecs.len() == candidates.len(),
                vectors_in_range(cvecs, ctv),
                forall|x: int| 0 <= x < candidates.len() ==> #[trigger] candidates@[x] < filtered.len(),
                forall|x: int| 0 <= x < filtered.len() ==> #[trigger] filtered@[x] < modules.len(),
                mv == modules@.map_values(|m: ModuleInfo| m@),
                mods@.map_values(|m: ModuleInfo| m@) == s.idxs@.take(t as int).map_values(
                    |ci: usize| mv[filtered@[candidates@[ci as int] as int] as int],
                ),
                forall|q: int| 0 <= q < 21 ==> #[trigger] totals@[q] == combo_slot_sum(cvecs, s.idxs@.take(t as int), q),
            decreases s.idxs.len() - t,
        {
            let ci = s.idxs[t];
            let ghost pre = s.idxs@.take(t as int);
            let ghost nxt = s.idxs@.take(t + 1);
            proof {
                assert(nxt.drop_last() =~= pre);
                assert(nxt.last() == ci);
                assert forall|x: int| 0 <= x < nxt.len() implies #[trigger] nxt[x] < cvecs.len() by {
                    assert(nxt[x] == s.idxs@[x]);
                }
                assert forall|x: int| 0 <= x < pre.len() implies #[trigger] pre[x] < cvecs.len() by {
                    assert(pre[x] == s.idxs@[x]);
                }
                lemma_combo_sums_bounded(cvecs, ctv, nxt);
                lemma_combo_sums_bounded(cvecs, ctv, pre);
            }
            let ghost m0 = mods@;
            let cm = copy_module(&modules[filtered[candidates[ci]]]);
            let ghost cmv = cm@;
            assert(cmv == mv[filtered@[candidates@[ci as int] as int] as int]);
            mods.push(cm);
            let mut q: usize = 0;
            while q < NUM_ATTRS
                invariant
                    q <= NUM_ATTRS,
                    ci < cvecs.len(),
                    cand_vecs@ == cvecs,
                    nxt.len() >= 1,
                    nxt.drop_last() == pre,
                    nxt.last() == ci,
                    nxt.len() <= 5,
                    forall|x: int| 0 <= x < 21 ==> -nxt.len() * MAX_MODULE_MAGNITUDE <= #[trigger] combo_slot_sum(cvecs, nxt, x)
                        <= nxt.len() * MAX_MODULE_MAGNITUDE,
                    forall|x: int| 0 <= x < q ==> #[trigger] totals@[x] == combo_slot_sum(cvecs, nxt, x),
                    forall|x: int| q <= x < 21 ==> #[trigger] totals@[x] == combo_slot_sum(cvecs, pre, x),
                decreases NUM_ATTRS - q,
            {
                proof {
                    assert(combo_slot_sum(cvecs, nxt, q as int) == combo_slot_sum(cvecs, pre, q as int) + cvecs[ci as int]@[q as int]);
                }
                totals[q] = totals[q] + cand_vecs[ci][q];
                q = q + 1;
            }
            t = t + 1;
            proof {
                assert(mods@.map_values(|m: ModuleInfo| m@) =~= m0.map_values(|m: ModuleInfo| m@).push(cmv));
                assert(s.idxs@.take(t as int).map_values(|ci: usize| mv[filtered@[candidates@[ci as int] as int] as int])
                    =~= s.idxs@.take(t - 1).map_values(|ci: usize| mv[filtered@[candidates@[ci as int] as int] as int]).push(cmv));
                assert(mods@.map_values(|m: ModuleInfo| m@) =~= s.idxs@.take(t as int).map_values(
                    |ci: usize| mv[filtered@[candidates@[ci as int] as int] as int],
                ));
            }
        }
        proof {
            assert(s.idxs@.take(s.idxs.len() as int) =~= s.idxs@);
            assert(totals@ =~= combo_totals(cvecs, s.idxs@)) by {
                lemma_combo_sums_bounded(cvecs, ctv, s.idxs@);
            }
        }
        let b = breakdown(&totals);
        let ghost o0 = out@;
        out.push(ModuleSolution { rank: (j + 1) as u32, score: s.score, total_value: s.total, modules: mods, breakdown: b });
        j = j + 1;
        proof {
            assert forall|t: int|
                0 <= t < j implies solution_of(mv, filtered@, candidates@, cvecs, sv[t], t + 1, #[trigger] out@[t]@) by {
                if t < j - 1 {
                    assert(out@[t] == o0[t]);
                } else {
                    assert(sv[t] == scored@[t]@);
                }
            }
        }
    }
    proof {
        let rv = solution_views(out@);
        let slots = target_slots@;
        assert(filtered@ == filtered_positions(mv, req.category@, req.exclude_attrs@, req.match_count, slots));
        assert(ranked(sv));
        let fcv = candidates@.map_values(|c: usize| vecs@[c as int]);
        let fctv = candidates@.map_values(|c: usize| totals_v@[c as int]);
        assert(fcv =~= cvecs);
        assert(fctv =~= ctv);
        if combo_size <= 4 {
            assert(combo_size == 4);
            assert(is_top_n_of_all(sv, fcv, fctv, candidates.len() as int, 4, top_n as nat));
        } else {
            assert(combo_size == 5);
            let levels = choose|levels: Seq<Seq<Seq<usize>>>|
                #![trigger beam_levels(cand_vecs@, cand_tv@, combo_size as int, BEAM_WIDTH as nat, levels)]
                beam_levels(cand_vecs@, cand_tv@, combo_size as int, BEAM_WIDTH as nat, levels) && finalized(
                    levels[combo_size - 1].map_values(|c: Seq<usize>| combo_view(cand_vecs@, cand_tv@, c)),
                    top_n as nat,
                    sv,
                );
            assert(beam_levels(fcv, fctv, 5, BEAM_WIDTH as nat, levels));
            assert(levels[4].map_values(|c: Seq<usize>| combo_view(fcv, fctv, c)) =~= levels[combo_size - 1].map_values(|c: Seq<usize>| combo_view(cand_vecs@, cand_tv@, c)));
        }
        assert forall|t: int| 0 <= t < rv.len() implies solution_of(mv, filtered@, candidates@, cvecs, sv[t], t + 1, #[trigger] rv[t]) by {
            assert(rv[t] == out@[t]@);
        }
        assert(combo_size as int == clamped_combo_size(req.combo_size));
        assert(top_n as int == clamped_top_n(req.top_n));
        assert(solved_by(modules@, filtered@, slots, clamped_combo_size(req.combo_size), clamped_top_n(req.top_n), vecs@, totals_v@, target_sum@, candidates@, sv, rv));
        lemma_indices_where_flagged(flags);
        assert(filtered@ == indices_where(flags));
        assert forall|j: int, k: int|
            #![trigger rv[j].modules[k]]
            0 <= j < rv.len() && 0 <= k < rv[j].modules.len() implies exists|p: int|
                0 <= p < modules@.len() && #[trigger] passes_filters(
                    modules@[p]@,
                    req.category@,
                    req.exclude_attrs@,
                    req.match_count,
                    known_slots(req.target_attrs@),
                ) && rv[j].modules[k] == modules@[p]@ by {
            assert(solution_of(mv, filtered@, candidates@, cvecs, sv[j], j + 1, rv[j]));
            assert(sv[j] == scored@[j]@);
            assert(is_combo(scored@[j].idxs@, cvecs.len() as int, combo_size as int));
            let ci = sv[j].idxs[k];
            assert(ci < candidates.len());
            let y = candidates@[ci as int];
            assert(y < filtered.len());
            let p = filtered@[y as int] as int;
            assert(rv[j].modules[k] == mv[p]);
            assert(flags[p]);
            assert(mv[p] == modules@[p]@);
        }
        lemma_solutions_respect_filters(modules@, req, rv);
    }
    out
}

/// The optimizer command: an error while no module data has arrived,
/// otherwise the optimizer's answer (see [`optimize`]).
pub fn optimize_modules(modules: &Vec<ModuleInfo>, request: &OptimizeRequest) -> (r: Result<Vec<ModuleSolution>, String>)
    requires
        filtered_in_range(modules@, request),
    ensures
        modules.len() == 0 ==> (r matches Err(msg) && msg@ == "No module data yet. Open your character / re-log in."@),
        modules.len() > 0 ==> (r matches Ok(v) && optimized(modules@, request, solution_views(v@))
            && solutions_use_filtered(modules@, request, solution_views(v@))
            && solutions_in_category(request.category@, solution_views(v@))),
{
    if modules.len() == 0 {
        return Err(String::from_str("No module data yet. Open your character / re-log in."));
    }
    Ok(optimize(modules, request))
}

} // verus!
