//! Refunding the allocated skill and stat points of a parsed save.
use vstd::prelude::*;
use crate::bytes::{self, AccessError};
use crate::layout::{
    self, GameVersion, OFFSET_RECORD_END, OFFSET_SKILLS, OFFSET_SPELL_START, OFFSET_UNUSED_SKILL_POINTS,
    OFFSET_UNUSED_STAT_POINTS, SKILL_COUNT, SKILL_STRIDE, STAT_COUNT, STAT_STRIDE,
};
use crate::save::{self, AutoDetectError, ParsedSave, SaveError};

verus! {

/// Why a respec was refused: a point total does not fit in an `i32`.
#[derive(Debug, Clone, Copy, PartialEq, Eq, Structural)]
pub enum RespecError {
    /// A bounds-checked access failed.
    Access(AccessError),
    /// The sum of the skill values overflowed.
    SkillTotalOverflow,
    /// The sum of the stat refunds overflowed.
    StatTotalOverflow,
    /// The unused skill point pool plus the refund overflowed.
    UnusedSkillOverflow,
    /// The unused stat point pool plus the refund overflowed.
    UnusedStatOverflow,
}

/// The point totals a respec computes.
pub struct RefundView {
    pub refunded_skills: i32,
    pub refunded_stats: i32,
    pub old_unused_skills: i32,
    pub new_unused_skills: i32,
    pub old_unused_stats: i32,
    pub new_unused_stats: i32,
}

/// What a respec changed, for the summary output.
pub struct RespecResult {
    pub refunded_skills: i32,
    pub refunded_stats: i32,
    pub old_unused_skills: i32,
    pub new_unused_skills: i32,
    pub old_unused_stats: i32,
    pub new_unused_stats: i32,
    /// (display name, value before reset), in file order.
    pub skills: Vec<(String, i32)>,
    /// (display name, value before reset), in file order.
    pub stats: Vec<(String, i32)>,
}

impl RespecResult {
    /// True when the skill and stat lists hold every field's display name and
    /// its value in `d` before the reset, in file order.
    pub open spec fn lists_values_of(&self, d: Seq<u8>, lo: int, so: int) -> bool {
        &&& self.skills@.len() == SKILL_COUNT
        &&& forall|i: int| 0 <= i < SKILL_COUNT ==> (#[trigger] self.skills@[i]).0@ == layout::skill_label(i)
            && self.skills@[i].1 == save::skill_at(d, lo, i)
        &&& self.stats@.len() == STAT_COUNT
        &&& forall|i: int| 0 <= i < STAT_COUNT ==> (#[trigger] self.stats@[i]).0@ == layout::stat_label(i)
            && self.stats@[i].1 == save::stat_at(d, so, i)
    }

    /// The point totals of this result.
    pub open spec fn totals(&self) -> RefundView {
        RefundView {
            refunded_skills: self.refunded_skills,
            refunded_stats: self.refunded_stats,
            old_unused_skills: self.old_unused_skills,
            new_unused_skills: self.new_unused_skills,
            old_unused_stats: self.old_unused_stats,
            new_unused_stats: self.new_unused_stats,
        }
    }
}

/// The level chunk at `lo` and the spell section ending at `so` lie in `d`
/// in the order the format gives them.
pub open spec fn record_fits(d: Seq<u8>, lo: int, so: int) -> bool {
    &&& 0 <= lo
    &&& lo + OFFSET_SPELL_START <= so
    &&& so + OFFSET_RECORD_END <= d.len()
    &&& so + OFFSET_RECORD_END <= usize::MAX
}

/// The unused skill point pool of the level chunk at `lo`.
pub open spec fn unused_skills_at(d: Seq<u8>, lo: int) -> i32 {
    bytes::i32_at(d, lo + OFFSET_UNUSED_SKILL_POINTS)
}

/// The unused stat point pool of the level chunk at `lo`.
pub open spec fn unused_stats_at(d: Seq<u8>, lo: int) -> i32 {
    bytes::i32_at(d, lo + OFFSET_UNUSED_STAT_POINTS)
}

/// The skill values, in file order.
pub open spec fn skill_values(d: Seq<u8>, lo: int) -> Seq<int> {
    Seq::new(SKILL_COUNT as nat, |i: int| save::skill_at(d, lo, i) as int)
}

/// The points a stat at `value` gives back when reset to `baseline`: the
/// excess over the baseline (saturated to `i32::MAX`), and nothing for a stat
/// at or below it.
pub open spec fn stat_refund(value: i32, baseline: i32) -> int {
    if value > baseline {
        if value - baseline > i32::MAX {
            i32::MAX as int
        } else {
            value - baseline
        }
    } else {
        0
    }
}

/// The refund of each main stat, in file order.
pub open spec fn stat_refunds(d: Seq<u8>, so: int, b: Seq<i32>) -> Seq<int> {
    Seq::new(STAT_COUNT as nat, |i: int| stat_refund(save::stat_at(d, so, i), b[i]))
}

/// The sum of `s`.
pub open spec fn total(s: Seq<int>) -> int
    decreases s.len(),
{
    if s.len() == 0 {
        0
    } else {
        total(s.drop_last()) + s.last()
    }
}

/// True when `x` fits in an `i32`.
pub open spec fn fits_i32(x: int) -> bool {
    i32::MIN <= x <= i32::MAX
}

/// The sum of `s` accumulated left to right in `i32` arithmetic, or `None`
/// when some partial sum overflows.
pub open spec fn checked_total(s: Seq<int>) -> Option<i32>
    decreases s.len(),
{
    if s.len() == 0 {
        Some(0)
    } else {
        match checked_total(s.drop_last()) {
            None => None,
            Some(t) => if fits_i32(t + s.last()) {
                Some((t + s.last()) as i32)
            } else {
                None
            },
        }
    }
}

/// The first of `count` four-byte slots, `stride` bytes apart from `base`,
/// at or after slot `i` that a bounds-checked read of a buffer of length `n`
/// refuses; `count` when every one of them can be read.
pub open spec fn first_unreadable(n: int, base: int, stride: int, count: int, i: int) -> int
    decreases count - i,
{
    if i < 0 || i >= count {
        count
    } else if bytes::range_end(n, base + stride * i, 4) is Err {
        i
    } else {
        first_unreadable(n, base, stride, count, i + 1)
    }
}

/// The error a bounds-checked read of the `i32` at `off` reports.
pub open spec fn read_error(n: int, off: int) -> RespecError {
    match bytes::range_end(n, off, 4) {
        Err(e) => RespecError::Access(e),
        Ok(_) => RespecError::Access(AccessError::OffsetOverflow),
    }
}

/// The skill refund: the skills are read and summed in file order, so the
/// result is the first failing read or the first overflowing partial sum,
/// whichever comes first.
pub open spec fn skill_total_spec(d: Seq<u8>, lo: int) -> Result<i32, RespecError> {
    let f = first_unreadable(d.len() as int, lo + OFFSET_SKILLS, SKILL_STRIDE as int, SKILL_COUNT as int, 0);
    match checked_total(skill_values(d, lo).take(f)) {
        None => Err(RespecError::SkillTotalOverflow),
        Some(t) => if f < SKILL_COUNT {
            Err(read_error(d.len() as int, lo + OFFSET_SKILLS + SKILL_STRIDE * f))
        } else {
            Ok(t)
        },
    }
}

/// The stat refund: the stats are read and their refunds summed in file
/// order, so the result is the first failing read or the first overflowing
/// partial sum, whichever comes first.
pub open spec fn stat_total_spec(d: Seq<u8>, so: int, b: Seq<i32>) -> Result<i32, RespecError> {
    let f = first_unreadable(d.len() as int, so, STAT_STRIDE as int, STAT_COUNT as int, 0);
    match checked_total(stat_refunds(d, so, b).take(f)) {
        None => Err(RespecError::StatTotalOverflow),
        Some(t) => if f < STAT_COUNT {
            Err(read_error(d.len() as int, so + STAT_STRIDE * f))
        } else {
            Ok(t)
        },
    }
}

/// The totals a respec of `d` computes, or why it is refused: every read and
/// every overflow check, in the order the respec makes them.
pub open spec fn respec_spec(d: Seq<u8>, lo: int, so: int, b: Seq<i32>) -> Result<RefundView, RespecError> {
    let n = d.len() as int;
    match skill_total_spec(d, lo) {
        Err(e) => Err(e),
        Ok(rs) => match stat_total_spec(d, so, b) {
            Err(e) => Err(e),
            Ok(rt) => {
                let us = unused_skills_at(d, lo);
                let ut = unused_stats_at(d, lo);
                if bytes::range_end(n, lo + OFFSET_UNUSED_SKILL_POINTS, 4) is Err {
                    Err(read_error(n, lo + OFFSET_UNUSED_SKILL_POINTS))
                } else if !fits_i32(us + rs) {
                    Err(RespecError::UnusedSkillOverflow)
                } else if bytes::range_end(n, lo + OFFSET_UNUSED_STAT_POINTS, 4) is Err {
                    Err(read_error(n, lo + OFFSET_UNUSED_STAT_POINTS))
                } else if !fits_i32(ut + rt) {
                    Err(RespecError::UnusedStatOverflow)
                } else {
                    Ok(RefundView {
                        refunded_skills: rs,
                        refunded_stats: rt,
                        old_unused_skills: us,
                        new_unused_skills: (us + rs) as i32,
                        old_unused_stats: ut,
                        new_unused_stats: (ut + rt) as i32,
                    })
                }
            },
        },
    }
}

/// Inside a record that fits, every field can be read, so only the overflow
/// checks can refuse a respec.
proof fn lemma_fits_readable(d: Seq<u8>, lo: int, so: int, b: Seq<i32>)
    requires
        record_fits(d, lo, so),
    ensures
        skill_total_spec(d, lo) == match checked_total(skill_values(d, lo)) {
            None => Err::<i32, RespecError>(RespecError::SkillTotalOverflow),
            Some(t) => Ok(t),
        },
        stat_total_spec(d, so, b) == match checked_total(stat_refunds(d, so, b)) {
            None => Err::<i32, RespecError>(RespecError::StatTotalOverflow),
            Some(t) => Ok(t),
        },
        bytes::range_end(d.len() as int, lo + OFFSET_UNUSED_SKILL_POINTS, 4) is Ok,
        bytes::range_end(d.len() as int, lo + OFFSET_UNUSED_STAT_POINTS, 4) is Ok,
{
    lemma_all_readable(d.len() as int, lo + OFFSET_SKILLS, SKILL_STRIDE as int, SKILL_COUNT as int, 0);
    lemma_all_readable(d.len() as int, so, STAT_STRIDE as int, STAT_COUNT as int, 0);
    assert(skill_values(d, lo).take(SKILL_COUNT as int) =~= skill_values(d, lo));
    assert(stat_refunds(d, so, b).take(STAT_COUNT as int) =~= stat_refunds(d, so, b));
}

/// The first unreadable slot lies between the start of the search and the count.
proof fn lemma_first_unreadable_bounds(n: int, base: int, stride: int, count: int, i: int)
    requires
        0 <= i <= count,
    ensures
        i <= first_unreadable(n, base, stride, count, i) <= count,
    decreases count - i,
{
    if i < count {
        lemma_first_unreadable_bounds(n, base, stride, count, i + 1);
    }
}

/// When no slot from `i` on is unreadable, every one of them can be read.
proof fn lemma_none_unreadable(n: int, base: int, stride: int, count: int, i: int)
    requires
        0 <= i,
        first_unreadable(n, base, stride, count, i) == count,
    ensures
        forall|k: int| i <= k < count ==> #[trigger] bytes::range_end(n, base + stride * k, 4) is Ok,
    decreases count - i,
{
    if i < count {
        lemma_none_unreadable(n, base, stride, count, i + 1);
    }
}

/// Slots that all end inside the buffer can all be read.
proof fn lemma_all_readable(n: int, base: int, stride: int, count: int, i: int)
    requires
        0 <= i,
        0 < stride,
        base + stride * (count - 1) + 4 <= n,
        base + stride * (count - 1) + 4 <= usize::MAX,
    ensures
        first_unreadable(n, base, stride, count, i) == count,
    decreases count - i,
{
    if i < count {
        assert(base + stride * i <= base + stride * (count - 1)) by (nonlinear_arith)
            requires 0 <= i < count, 0 < stride;
        lemma_all_readable(n, base, stride, count, i + 1);
    }
}

/// `d` with `len` bytes from `start` set to zero.
pub open spec fn zero_range(d: Seq<u8>, start: int, len: int) -> Seq<u8> {
    d.take(start) + Seq::new(len as nat, |k: int| 0u8) + d.skip(start + len)
}

/// The main-stat values, in file order.
pub open spec fn stat_values(d: Seq<u8>, so: int) -> Seq<i32> {
    Seq::new(STAT_COUNT as nat, |i: int| save::stat_at(d, so, i))
}

/// Resetting stats keeps the length of the buffer.
proof fn lemma_reset_stats_len(base: Seq<u8>, vals: Seq<i32>, so: int, b: Seq<i32>, i: int)
    requires
        0 <= so,
        i <= 0 || so + STAT_STRIDE * (i - 1) + 4 <= base.len(),
    ensures
        reset_stats(base, vals, so, b, i).len() == base.len(),
    decreases i,
{
    if i > 0 {
        lemma_reset_stats_len(base, vals, so, b, i - 1);
    }
}

/// `base` with the first `i` main stats of the spell section ending at `so`
/// reset to their baselines, where their value in `vals` lies above it.
pub open spec fn reset_stats(base: Seq<u8>, vals: Seq<i32>, so: int, b: Seq<i32>, i: int) -> Seq<u8>
    decreases i,
{
    if i <= 0 {
        base
    } else {
        let prev = reset_stats(base, vals, so, b, i - 1);
        if vals[i - 1] > b[i - 1] {
            bytes::put_i32(prev, so + STAT_STRIDE * (i - 1), b[i - 1])
        } else {
            prev
        }
    }
}

/// The bytes of `d` after a successful respec: when skill points are
/// refunded, every skill is zero and the unused skill pool holds the refund
/// added; when stat points are refunded, every stat above its baseline is at
/// the baseline and the unused stat pool holds the refund added. Every other
/// byte is `d`'s.
pub open spec fn respec_bytes(d: Seq<u8>, lo: int, so: int, b: Seq<i32>) -> Seq<u8> {
    match respec_spec(d, lo, so, b) {
        Err(_) => d,
        Ok(r) => {
            let d1 = if r.refunded_skills > 0 {
                bytes::put_i32(
                    zero_range(d, lo + OFFSET_SKILLS, SKILL_STRIDE * SKILL_COUNT),
                    lo + OFFSET_UNUSED_SKILL_POINTS,
                    r.new_unused_skills,
                )
            } else {
                d
            };
            if r.refunded_stats > 0 {
                bytes::put_i32(
                    reset_stats(d1, stat_values(d, so), so, b, STAT_COUNT as int),
                    lo + OFFSET_UNUSED_STAT_POINTS,
                    r.new_unused_stats,
                )
            } else {
                d1
            }
        },
    }
}

/// A stored `i32` zero is four zero bytes.
proof fn lemma_zero_bytes(d: Seq<u8>, off: int)
    requires
        0 <= off,
        off + 4 <= d.len(),
        bytes::i32_at(d, off) == 0,
    ensures
        d[off] == 0 && d[off + 1] == 0 && d[off + 2] == 0 && d[off + 3] == 0,
{
}

/// Reads the skill values and sums them with overflow checks: the refund and
/// the (display name, value) list, in file order.
fn sum_skills(data: &[u8], lo: usize) -> (res: Result<(i32, Vec<(String, i32)>), RespecError>)
    requires
        lo + OFFSET_SKILLS + SKILL_STRIDE * (SKILL_COUNT - 1) <= usize::MAX,
    ensures
        match skill_total_spec(data@, lo as int) {
            Ok(t) => res matches Ok((r, list)) && r == t && list@.len() == SKILL_COUNT
                && forall|i: int| 0 <= i < SKILL_COUNT ==> (#[trigger] list@[i]).0@ == layout::skill_label(i)
                    && list@[i].1 == save::skill_at(data@, lo as int, i),
            Err(e) => res matches Err(x) && x == e,
        },
{
    let ghost vals = skill_values(data@, lo as int);
    let n = data.len();
    let ghost f = first_unreadable(n as int, lo + OFFSET_SKILLS, SKILL_STRIDE as int, SKILL_COUNT as int, 0);
    let mut refunded: i32 = 0;
    let mut skills: Vec<(String, i32)> = Vec::new();
    let mut i: usize = 0;
    while i < SKILL_COUNT
        invariant
            lo + OFFSET_SKILLS + SKILL_STRIDE * (SKILL_COUNT - 1) <= usize::MAX,
            n == data@.len(),
            vals == skill_values(data@, lo as int),
            i <= SKILL_COUNT,
            f == first_unreadable(n as int, lo + OFFSET_SKILLS, SKILL_STRIDE as int, SKILL_COUNT as int, i as int),
            f == first_unreadable(n as int, lo + OFFSET_SKILLS, SKILL_STRIDE as int, SKILL_COUNT as int, 0),
            checked_total(vals.take(i as int)) == Some(refunded),
            skills@.len() == i,
            forall|k: int| 0 <= k < i ==> (#[trigger] skills@[k]).0@ == layout::skill_label(k)
                && skills@[k].1 == vals[k],
        decreases SKILL_COUNT - i,
    {
        let value = match bytes::read_i32_at(data, lo + OFFSET_SKILLS + i * SKILL_STRIDE) {
            Ok(v) => v,
            Err(e) => {
                assert(f == i);
                assert(checked_total(vals.take(f)) == Some(refunded));
                assert(read_error(n as int, lo + OFFSET_SKILLS + SKILL_STRIDE * f) == RespecError::Access(e));
                return Err(RespecError::Access(e));
            },
        };
        proof {
            lemma_first_unreadable_bounds(n as int, lo + OFFSET_SKILLS, SKILL_STRIDE as int, SKILL_COUNT as int, i + 1);
        }
        assert(vals.take(i + 1).drop_last() =~= vals.take(i as int));
        refunded = match refunded.checked_add(value) {
            Some(t) => t,
            None => {
                proof { lemma_checked_total_none_prefix(vals, i as int + 1, f); }
                assert(checked_total(vals.take(f)) is None);
                return Err(RespecError::SkillTotalOverflow);
            },
        };
        skills.push((layout::skill_name(i).to_owned(), value));
        i = i + 1;
    }
    Ok((refunded, skills))
}

/// Reads the main stats and sums their refunds with overflow checks: the
/// refund and the (display name, value) list, in file order.
fn sum_stat_refunds(data: &[u8], so: usize, baselines: [i32; 4]) -> (res: Result<(i32, Vec<(String, i32)>), RespecError>)
    requires
        so + STAT_STRIDE * (STAT_COUNT - 1) <= usize::MAX,
    ensures
        match stat_total_spec(data@, so as int, baselines@) {
            Ok(t) => res matches Ok((r, list)) && r == t && list@.len() == STAT_COUNT
                && forall|i: int| 0 <= i < STAT_COUNT ==> (#[trigger] list@[i]).0@ == layout::stat_label(i)
                    && list@[i].1 == save::stat_at(data@, so as int, i),
            Err(e) => res matches Err(x) && x == e,
        },
{
    let ghost vals = stat_refunds(data@, so as int, baselines@);
    let n = data.len();
    let ghost f = first_unreadable(n as int, so as int, STAT_STRIDE as int, STAT_COUNT as int, 0);
    let mut refunded: i32 = 0;
    let mut stats: Vec<(String, i32)> = Vec::new();
    let mut j: usize = 0;
    while j < STAT_COUNT
        invariant
            so + STAT_STRIDE * (STAT_COUNT - 1) <= usize::MAX,
            n == data@.len(),
            vals == stat_refunds(data@, so as int, baselines@),
            j <= STAT_COUNT,
            f == first_unreadable(n as int, so as int, STAT_STRIDE as int, STAT_COUNT as int, j as int),
            f == first_unreadable(n as int, so as int, STAT_STRIDE as int, STAT_COUNT as int, 0),
            checked_total(vals.take(j as int)) == Some(refunded),
            stats@.len() == j,
            forall|k: int| 0 <= k < j ==> (#[trigger] stats@[k]).0@ == layout::stat_label(k)
                && stats@[k].1 == save::stat_at(data@, so as int, k),
        decreases STAT_COUNT - j,
    {
        let value = match bytes::read_i32_at(data, so + j * STAT_STRIDE) {
            Ok(v) => v,
            Err(e) => {
                assert(f == j);
                assert(checked_total(vals.take(f)) == Some(refunded));
                assert(read_error(n as int, so + STAT_STRIDE * f) == RespecError::Access(e));
                return Err(RespecError::Access(e));
            },
        };
        let baseline = baselines[j];
        let refund: i32 = if value > baseline {
            let diff: i64 = value as i64 - baseline as i64;
            if diff > i32::MAX as i64 {
                i32::MAX
            } else {
                diff as i32
            }
        } else {
            0
        };
        assert(refund == vals[j as int]);
        proof {
            lemma_first_unreadable_bounds(n as int, so as int, STAT_STRIDE as int, STAT_COUNT as int, j + 1);
        }
        assert(vals.take(j + 1).drop_last() =~= vals.take(j as int));
        refunded = match refunded.checked_add(refund) {
            Some(t) => t,
            None => {
                proof { lemma_checked_total_none_prefix(vals, j as int + 1, f); }
                assert(checked_total(vals.take(f)) is None);
                return Err(RespecError::StatTotalOverflow);
            },
        };
        stats.push((layout::stat_name(j).to_owned(), value));
        j = j + 1;
    }
    Ok((refunded, stats))
}

/// Once a partial sum overflows, every longer prefix overflows too.
proof fn lemma_checked_total_none_prefix(s: Seq<int>, k: int, n: int)
    requires
        0 < k <= n <= s.len(),
        checked_total(s.take(k - 1)) matches Some(t) && !fits_i32(t + s[k - 1]),
    ensures
        checked_total(s.take(n)) is None,
        n == s.len() ==> checked_total(s) is None,
    decreases n - k,
{
    assert(s.take(k).drop_last() =~= s.take(k - 1));
    if n > k {
        lemma_checked_total_none_prefix(s, k, n - 1);
        assert(s.take(n).drop_last() =~= s.take(n - 1));
    }
    if n == s.len() {
        assert(s.take(n) =~= s);
    }
}

/// Writes zero over every skill slot whose value in `skills` is not zero.
fn zero_skills(data: &mut [u8], lo: usize, skills: &Vec<(String, i32)>) -> (res: Result<(), RespecError>)
    requires
        lo + OFFSET_SPELL_START <= old(data)@.len(),
        skills@.len() == SKILL_COUNT,
        forall|i: int| 0 <= i < SKILL_COUNT ==> (#[trigger] skills@[i]).1 == save::skill_at(old(data)@, lo as int, i),
    ensures
        res is Ok,
        final(data)@ == zero_range(old(data)@, lo + OFFSET_SKILLS, SKILL_STRIDE * SKILL_COUNT),
{
    let ghost d0 = data@;
    let n = data.len();
    let mut i: usize = 0;
    while i < SKILL_COUNT
        invariant
            d0.len() == n,
            n == data@.len(),
            lo + OFFSET_SPELL_START <= n,
            skills@.len() == SKILL_COUNT,
            forall|k: int| 0 <= k < SKILL_COUNT ==> (#[trigger] skills@[k]).1 == save::skill_at(d0, lo as int, k),
            i <= SKILL_COUNT,
            data@ == zero_range(d0, lo + OFFSET_SKILLS, SKILL_STRIDE * i),
        decreases SKILL_COUNT - i,
    {
        let off = lo + OFFSET_SKILLS + i * SKILL_STRIDE;
        let ghost before = data@;
        if skills[i].1 != 0 {
            match bytes::write_i32_at(data, off, 0) {
                Ok(()) => {},
                Err(e) => return Err(RespecError::Access(e)),
            }
            assert(bytes::i32_le_bytes(0) =~= seq![0u8, 0u8, 0u8, 0u8]);
            assert(data@ =~= zero_range(d0, lo + OFFSET_SKILLS, SKILL_STRIDE * (i + 1)));
        } else {
            proof {
                lemma_zero_bytes(d0, off as int);
            }
            assert(data@ =~= zero_range(d0, lo + OFFSET_SKILLS, SKILL_STRIDE * (i + 1)));
        }
        i = i + 1;
    }
    Ok(())
}

/// Writes its baseline over every main-stat slot whose value in `stats` lies
/// above that baseline.
fn reset_stat_slots(data: &mut [u8], so: usize, stats: &Vec<(String, i32)>, baselines: [i32; 4]) -> (res: Result<(), RespecError>)
    requires
        so + STAT_STRIDE * (STAT_COUNT - 1) + 4 <= old(data)@.len(),
        stats@.len() == STAT_COUNT,
    ensures
        res is Ok,
        final(data)@ == reset_stats(old(data)@, Seq::new(STAT_COUNT as nat, |i: int| stats@[i].1), so as int, baselines@, STAT_COUNT as int),
{
    let ghost d0 = data@;
    let ghost vals = Seq::new(STAT_COUNT as nat, |i: int| stats@[i].1);
    let n = data.len();
    let mut j: usize = 0;
    while j < STAT_COUNT
        invariant
            d0.len() == n,
            n == data@.len(),
            so + STAT_STRIDE * (STAT_COUNT - 1) + 4 <= n,
            stats@.len() == STAT_COUNT,
            vals == Seq::new(STAT_COUNT as nat, |i: int| stats@[i].1),
            j <= STAT_COUNT,
            data@ == reset_stats(d0, vals, so as int, baselines@, j as int),
        decreases STAT_COUNT - j,
    {
        if stats[j].1 > baselines[j] {
            match bytes::write_i32_at(data, so + j * STAT_STRIDE, baselines[j]) {
                Ok(()) => {},
                Err(e) => return Err(RespecError::Access(e)),
            }
        }
        j = j + 1;
    }
    Ok(())
}

/// Zeros all skill values, resets any main stats above their baselines to
/// those baselines, and refunds the totals to the unused skill and stat point
/// pools. Stats at or below their baseline are left untouched (a respec never
/// grants points), and the buffer is only written where values change. Every
/// read and overflow check comes before the first write, so a refused respec
/// (a field outside the buffer, or a total that overflows) writes nothing.
pub fn respec(data: &mut [u8], save: &ParsedSave, baselines: [i32; 4]) -> (res: Result<RespecResult, RespecError>)
    requires
        save.level_offset + OFFSET_SKILLS + SKILL_STRIDE * (SKILL_COUNT - 1) <= usize::MAX,
        save.stats_offset + STAT_STRIDE * (STAT_COUNT - 1) <= usize::MAX,
    ensures
        match respec_spec(old(data)@, save.level_offset as int, save.stats_offset as int, baselines@) {
            Ok(rv) => res matches Ok(r) && r.totals() == rv
                && r.lists_values_of(old(data)@, save.level_offset as int, save.stats_offset as int),
            Err(e) => res matches Err(x) && x == e,
        },
        final(data)@ == respec_bytes(old(data)@, save.level_offset as int, save.stats_offset as int, baselines@),
{
    let ghost d0 = data@;
    assert(d0.len() == data.len());
    let level_offset = save.level_offset;
    let stats_offset = save.stats_offset;

    // Skills start at 0, so the refund is the full value.
    let (refunded_skills, skills) = match sum_skills(data, level_offset) {
        Ok(r) => r,
        Err(e) => return Err(e),
    };
    // Main stats have non-zero baselines, so the refund is the excess over
    // the baseline, and nothing for a stat at or below it.
    let (refunded_stats, stats) = match sum_stat_refunds(data, stats_offset, baselines) {
        Ok(r) => r,
        Err(e) => return Err(e),
    };
    proof {
        lemma_first_unreadable_bounds(d0.len() as int, level_offset + OFFSET_SKILLS, SKILL_STRIDE as int, SKILL_COUNT as int, 0);
        lemma_first_unreadable_bounds(d0.len() as int, stats_offset as int, STAT_STRIDE as int, STAT_COUNT as int, 0);
        lemma_none_unreadable(d0.len() as int, level_offset + OFFSET_SKILLS, SKILL_STRIDE as int, SKILL_COUNT as int, 0);
        lemma_none_unreadable(d0.len() as int, stats_offset as int, STAT_STRIDE as int, STAT_COUNT as int, 0);
        assert(bytes::range_end(d0.len() as int, level_offset + OFFSET_SKILLS + SKILL_STRIDE * (SKILL_COUNT - 1), 4) is Ok);
        assert(bytes::range_end(d0.len() as int, stats_offset + STAT_STRIDE * (STAT_COUNT - 1), 4) is Ok);
    }

    let old_unused_skills = match bytes::read_i32_at(data, level_offset + OFFSET_UNUSED_SKILL_POINTS) {
        Ok(v) => v,
        Err(e) => return Err(RespecError::Access(e)),
    };
    let new_unused_skills = match old_unused_skills.checked_add(refunded_skills) {
        Some(t) => t,
        None => return Err(RespecError::UnusedSkillOverflow),
    };

    let old_unused_stats = match bytes::read_i32_at(data, level_offset + OFFSET_UNUSED_STAT_POINTS) {
        Ok(v) => v,
        Err(e) => return Err(RespecError::Access(e)),
    };
    let new_unused_stats = match old_unused_stats.checked_add(refunded_stats) {
        Some(t) => t,
        None => return Err(RespecError::UnusedStatOverflow),
    };

    // Writes stay byte-minimal: each point pool is only written when it
    // actually changed, and each slot only where its value differs.
    let ghost d1 = if refunded_skills > 0 {
        bytes::put_i32(
            zero_range(d0, level_offset + OFFSET_SKILLS, SKILL_STRIDE * SKILL_COUNT),
            level_offset + OFFSET_UNUSED_SKILL_POINTS,
            new_unused_skills,
        )
    } else {
        d0
    };
    if refunded_skills > 0 {
        match zero_skills(data, level_offset, &skills) {
            Ok(()) => {},
            Err(e) => return Err(e),
        }
        match bytes::write_i32_at(data, level_offset + OFFSET_UNUSED_SKILL_POINTS, new_unused_skills) {
            Ok(()) => {},
            Err(e) => return Err(RespecError::Access(e)),
        }
    }
    assert(data@ == d1);
    assert(d1.len() == d0.len());

    if refunded_stats > 0 {
        assert(Seq::new(STAT_COUNT as nat, |i: int| stats@[i].1) =~= stat_values(d0, stats_offset as int));
        match reset_stat_slots(data, stats_offset, &stats, baselines) {
            Ok(()) => {},
            Err(e) => return Err(e),
        }
        proof {
            lemma_reset_stats_len(d1, stat_values(d0, stats_offset as int), stats_offset as int, baselines@, STAT_COUNT as int);
        }
        match bytes::write_i32_at(data, level_offset + OFFSET_UNUSED_STAT_POINTS, new_unused_stats) {
            Ok(()) => {},
            Err(e) => return Err(RespecError::Access(e)),
        }
    }

    Ok(RespecResult {
        refunded_skills,
        refunded_stats,
        old_unused_skills,
        new_unused_skills,
        old_unused_stats,
        new_unused_stats,
        skills,
        stats,
    })
}

/// True when byte `k` lies in a field a respec may write: the two unused
/// point pools, the skills block, or the value part of a main-stat slot.
pub open spec fn touched(lo: int, so: int, k: int) -> bool {
    ||| lo + OFFSET_UNUSED_STAT_POINTS <= k < lo + OFFSET_UNUSED_SKILL_POINTS + 4
    ||| lo + OFFSET_SKILLS <= k < lo + OFFSET_SPELL_START
    ||| (so <= k < so + STAT_STRIDE * STAT_COUNT && (k - so) % (STAT_STRIDE as int) < 4)
}

/// Two buffers that agree on the four bytes at `off` hold the same `i32` there.
proof fn lemma_i32_at_agree(d1: Seq<u8>, d2: Seq<u8>, off: int)
    requires
        0 <= off,
        off + 4 <= d1.len(),
        off + 4 <= d2.len(),
        d1[off] == d2[off],
        d1[off + 1] == d2[off + 1],
        d1[off + 2] == d2[off + 2],
        d1[off + 3] == d2[off + 3],
    ensures
        bytes::i32_at(d1, off) == bytes::i32_at(d2, off),
{
}

/// What resetting the first `i` stats does, slot by slot.
proof fn lemma_reset_stats(base: Seq<u8>, vals: Seq<i32>, so: int, b: Seq<i32>, i: int)
    requires
        0 <= so,
        0 <= i <= STAT_COUNT,
        so + STAT_STRIDE * STAT_COUNT <= base.len(),
    ensures
        reset_stats(base, vals, so, b, i).len() == base.len(),
        forall|k: int| 0 <= k < base.len() && !(so <= k < so + STAT_STRIDE * i && (k - so) % (STAT_STRIDE as int) < 4)
            ==> #[trigger] reset_stats(base, vals, so, b, i)[k] == base[k],
        forall|j: int| 0 <= j < i ==> #[trigger] save::stat_at(reset_stats(base, vals, so, b, i), so, j)
            == if vals[j] > b[j] { b[j] } else { save::stat_at(base, so, j) },
    decreases i,
{
    if i > 0 {
        lemma_reset_stats(base, vals, so, b, i - 1);
        let prev = reset_stats(base, vals, so, b, i - 1);
        let off = so + STAT_STRIDE * (i - 1);
        if vals[i - 1] > b[i - 1] {
            bytes::lemma_read_after_write(prev, off, b[i - 1]);
            let cur = bytes::put_i32(prev, off, b[i - 1]);
            assert forall|j: int| 0 <= j < i - 1 implies #[trigger] save::stat_at(cur, so, j) == save::stat_at(prev, so, j) by {
                lemma_i32_at_agree(cur, prev, so + STAT_STRIDE * j);
            }
        } else {
            assert forall|j: int| 0 <= j < i implies #[trigger] save::stat_at(prev, so, j)
                == if vals[j] > b[j] { b[j] } else { save::stat_at(base, so, j) } by {
                if j == i - 1 {
                    lemma_i32_at_agree(prev, base, off);
                }
            }
        }
    }
}

/// Zeroing the skills block and storing the unused skill pool, field by field.
proof fn lemma_skill_phase(d: Seq<u8>, lo: int, so: int, pool: i32)
    requires
        record_fits(d, lo, so),
    ensures
        ({
            let d1 = bytes::put_i32(zero_range(d, lo + OFFSET_SKILLS, SKILL_STRIDE * SKILL_COUNT), lo + OFFSET_UNUSED_SKILL_POINTS, pool);
            &&& d1.len() == d.len()
            &&& forall|k: int| 0 <= k < d.len() && !(lo + OFFSET_UNUSED_SKILL_POINTS <= k < lo + OFFSET_UNUSED_SKILL_POINTS + 4)
                && !(lo + OFFSET_SKILLS <= k < lo + OFFSET_SPELL_START) ==> #[trigger] d1[k] == d[k]
            &&& forall|i: int| 0 <= i < SKILL_COUNT ==> #[trigger] save::skill_at(d1, lo, i) == 0
            &&& unused_skills_at(d1, lo) == pool
        }),
{
    let z = zero_range(d, lo + OFFSET_SKILLS, SKILL_STRIDE * SKILL_COUNT);
    assert(z.len() == d.len());
    assert forall|k: int| 0 <= k < d.len() implies #[trigger] z[k] == if lo + OFFSET_SKILLS <= k < lo + OFFSET_SPELL_START { 0u8 } else { d[k] } by {
    }
    bytes::lemma_read_after_write(z, lo + OFFSET_UNUSED_SKILL_POINTS, pool);
    let d1 = bytes::put_i32(z, lo + OFFSET_UNUSED_SKILL_POINTS, pool);
    assert forall|i: int| 0 <= i < SKILL_COUNT implies #[trigger] save::skill_at(d1, lo, i) == 0 by {
        let off = lo + OFFSET_SKILLS + SKILL_STRIDE * i;
        assert(d1[off] == z[off] && d1[off + 1] == z[off + 1] && d1[off + 2] == z[off + 2] && d1[off + 3] == z[off + 3]);
    }
}

/// Resetting the stats and storing the unused stat pool, field by field.
proof fn lemma_stat_phase(d1: Seq<u8>, vals: Seq<i32>, lo: int, so: int, b: Seq<i32>, pool: i32)
    requires
        record_fits(d1, lo, so),
    ensures
        ({
            let d2 = bytes::put_i32(reset_stats(d1, vals, so, b, STAT_COUNT as int), lo + OFFSET_UNUSED_STAT_POINTS, pool);
            &&& d2.len() == d1.len()
            &&& forall|k: int| 0 <= k < d1.len() && !(lo + OFFSET_UNUSED_STAT_POINTS <= k < lo + OFFSET_UNUSED_STAT_POINTS + 4)
                && !(so <= k < so + STAT_STRIDE * STAT_COUNT && (k - so) % (STAT_STRIDE as int) < 4) ==> #[trigger] d2[k] == d1[k]
            &&& forall|j: int| 0 <= j < STAT_COUNT ==> #[trigger] save::stat_at(d2, so, j)
                == if vals[j] > b[j] { b[j] } else { save::stat_at(d1, so, j) }
            &&& unused_stats_at(d2, lo) == pool
        }),
{
    lemma_reset_stats(d1, vals, so, b, STAT_COUNT as int);
    let r = reset_stats(d1, vals, so, b, STAT_COUNT as int);
    bytes::lemma_read_after_write(r, lo + OFFSET_UNUSED_STAT_POINTS, pool);
    let d2 = bytes::put_i32(r, lo + OFFSET_UNUSED_STAT_POINTS, pool);
    assert forall|j: int| 0 <= j < STAT_COUNT implies #[trigger] save::stat_at(d2, so, j) == save::stat_at(r, so, j) by {
        lemma_i32_at_agree(d2, r, so + STAT_STRIDE * j);
    }
}

/// What a successful respec writes: when skill points are refunded every
/// skill reads zero and the unused skill pool reads the new total; when stat
/// points are refunded every stat above its baseline reads the baseline and
/// the unused stat pool reads the new total; every other byte of the save,
/// including the bytes of all fields not refunded from, is copied verbatim.
pub proof fn lemma_respec_effect(d: Seq<u8>, lo: int, so: int, b: Seq<i32>)
    requires
        record_fits(d, lo, so),
        b.len() == STAT_COUNT,
        respec_spec(d, lo, so, b) is Ok,
    ensures
        respec_spec(d, lo, so, b) matches Ok(r) && ({
            let d2 = respec_bytes(d, lo, so, b);
            &&& d2.len() == d.len()
            &&& forall|k: int| 0 <= k < d.len() && !touched(lo, so, k) ==> #[trigger] d2[k] == d[k]
            &&& forall|i: int| 0 <= i < SKILL_COUNT ==> #[trigger] save::skill_at(d2, lo, i)
                == if r.refunded_skills > 0 { 0 } else { save::skill_at(d, lo, i) }
            &&& unused_skills_at(d2, lo) == if r.refunded_skills > 0 { r.new_unused_skills } else { r.old_unused_skills }
            &&& forall|j: int| 0 <= j < STAT_COUNT ==> #[trigger] save::stat_at(d2, so, j)
                == if r.refunded_stats > 0 && save::stat_at(d, so, j) > b[j] { b[j] } else { save::stat_at(d, so, j) }
            &&& unused_stats_at(d2, lo) == if r.refunded_stats > 0 { r.new_unused_stats } else { r.old_unused_stats }
        }),
{
    let r = respec_spec(d, lo, so, b).unwrap();
    let d1 = if r.refunded_skills > 0 {
        bytes::put_i32(zero_range(d, lo + OFFSET_SKILLS, SKILL_STRIDE * SKILL_COUNT), lo + OFFSET_UNUSED_SKILL_POINTS, r.new_unused_skills)
    } else {
        d
    };
    let vals = stat_values(d, so);
    if r.refunded_skills > 0 {
        lemma_skill_phase(d, lo, so, r.new_unused_skills);
    }
    // The first phase leaves the stats and the unused stat pool alone.
    assert forall|j: int| 0 <= j < STAT_COUNT implies #[trigger] save::stat_at(d1, so, j) == save::stat_at(d, so, j) by {
        lemma_i32_at_agree(d1, d, so + STAT_STRIDE * j);
    }
    lemma_i32_at_agree(d1, d, lo + OFFSET_UNUSED_STAT_POINTS);
    let d2 = respec_bytes(d, lo, so, b);
    if r.refunded_stats > 0 {
        lemma_stat_phase(d1, vals, lo, so, b, r.new_unused_stats);
        assert forall|i: int| 0 <= i < SKILL_COUNT implies #[trigger] save::skill_at(d2, lo, i) == save::skill_at(d1, lo, i) by {
            lemma_i32_at_agree(d2, d1, lo + OFFSET_SKILLS + SKILL_STRIDE * i);
        }
        lemma_i32_at_agree(d2, d1, lo + OFFSET_UNUSED_SKILL_POINTS);
    }
    assert(d2 == if r.refunded_stats > 0 {
        bytes::put_i32(reset_stats(d1, vals, so, b, STAT_COUNT as int), lo + OFFSET_UNUSED_STAT_POINTS, r.new_unused_stats)
    } else {
        d1
    });
}

/// An overflow-checked sum that succeeds is the sum.
proof fn lemma_checked_total_is_total(s: Seq<int>)
    ensures
        checked_total(s) matches Some(t) ==> t == total(s),
    decreases s.len(),
{
    if s.len() > 0 {
        lemma_checked_total_is_total(s.drop_last());
    }
}

/// The sum of a sequence of zeros is zero, and summing it never overflows.
proof fn lemma_total_zeros(s: Seq<int>)
    requires
        forall|i: int| 0 <= i < s.len() ==> s[i] == 0,
    ensures
        total(s) == 0,
        checked_total(s) == Some(0i32),
    decreases s.len(),
{
    if s.len() > 0 {
        lemma_total_zeros(s.drop_last());
    }
}

/// The sum of non-negative values is non-negative, and zero only when every value is.
proof fn lemma_total_nonneg(s: Seq<int>)
    requires
        forall|i: int| 0 <= i < s.len() ==> s[i] >= 0,
    ensures
        total(s) >= 0,
        total(s) == 0 ==> forall|i: int| 0 <= i < s.len() ==> s[i] == 0,
    decreases s.len(),
{
    if s.len() > 0 {
        lemma_total_nonneg(s.drop_last());
        assert forall|i: int| 0 <= i < s.len() - 1 implies s[i] >= 0 by {
            assert(s.drop_last()[i] == s[i]);
        }
        if total(s) == 0 {
            assert forall|i: int| 0 <= i < s.len() implies s[i] == 0 by {
                if i < s.len() - 1 {
                    assert(s.drop_last()[i] == s[i]);
                }
            }
        }
    }
}

/// The difference of two sums is the sum of the differences.
proof fn lemma_total_diff(a: Seq<int>, c: Seq<int>)
    requires
        a.len() == c.len(),
    ensures
        total(a) - total(c) == total(Seq::new(a.len(), |i: int| a[i] - c[i])),
    decreases a.len(),
{
    let diff = Seq::new(a.len(), |i: int| a[i] - c[i]);
    if a.len() > 0 {
        lemma_total_diff(a.drop_last(), c.drop_last());
        assert(diff.drop_last() =~= Seq::new(a.drop_last().len(), |i: int| a.drop_last()[i] - c.drop_last()[i]));
    }
}

/// The main-stat values as integers, in file order.
pub open spec fn stat_ints(d: Seq<u8>, so: int) -> Seq<int> {
    Seq::new(STAT_COUNT as nat, |i: int| save::stat_at(d, so, i) as int)
}

/// A respec moves points between the fields and the pools without creating
/// or destroying any: the skills plus the unused skill pool, and the main stats
/// plus the unused stat pool, sum to the same after as before (for baselines
/// of at least zero, so that no refund saturates).
pub proof fn lemma_respec_conserves_points(d: Seq<u8>, lo: int, so: int, b: Seq<i32>)
    requires
        record_fits(d, lo, so),
        b.len() == STAT_COUNT,
        forall|j: int| 0 <= j < STAT_COUNT ==> b[j] >= 0,
        respec_spec(d, lo, so, b) is Ok,
    ensures
        ({
            let d2 = respec_bytes(d, lo, so, b);
            &&& total(skill_values(d2, lo)) + unused_skills_at(d2, lo) == total(skill_values(d, lo)) + unused_skills_at(d, lo)
            &&& total(stat_ints(d2, so)) + unused_stats_at(d2, lo) == total(stat_ints(d, so)) + unused_stats_at(d, lo)
        }),
{
    lemma_fits_readable(d, lo, so, b);
    let r = respec_spec(d, lo, so, b).unwrap();
    let d2 = respec_bytes(d, lo, so, b);
    lemma_respec_effect(d, lo, so, b);
    lemma_checked_total_is_total(skill_values(d, lo));
    lemma_checked_total_is_total(stat_refunds(d, so, b));
    if r.refunded_skills > 0 {
        lemma_total_zeros(skill_values(d2, lo));
    } else {
        assert(skill_values(d2, lo) =~= skill_values(d, lo));
    }
    if r.refunded_stats > 0 {
        lemma_total_diff(stat_ints(d, so), stat_ints(d2, so));
        assert(Seq::new(STAT_COUNT as nat, |i: int| stat_ints(d, so)[i] - stat_ints(d2, so)[i]) =~= stat_refunds(d, so, b));
    } else {
        assert(stat_ints(d2, so) =~= stat_ints(d, so));
    }
}

/// A respec never grants points: no main stat grows, a stat at or below its
/// baseline keeps its value, every skill either keeps its value or becomes
/// zero, the stat refund is never negative, and the unused stat pool never
/// shrinks.
pub proof fn lemma_respec_never_grants(d: Seq<u8>, lo: int, so: int, b: Seq<i32>)
    requires
        record_fits(d, lo, so),
        b.len() == STAT_COUNT,
        respec_spec(d, lo, so, b) is Ok,
    ensures
        respec_spec(d, lo, so, b) matches Ok(r) && ({
            let d2 = respec_bytes(d, lo, so, b);
            &&& r.refunded_stats >= 0
            &&& unused_stats_at(d2, lo) >= unused_stats_at(d, lo)
            &&& forall|j: int| 0 <= j < STAT_COUNT ==> #[trigger] save::stat_at(d2, so, j) <= save::stat_at(d, so, j)
            &&& forall|j: int| 0 <= j < STAT_COUNT && save::stat_at(d, so, j) <= b[j]
                ==> #[trigger] save::stat_at(d2, so, j) == save::stat_at(d, so, j)
            &&& forall|i: int| 0 <= i < SKILL_COUNT ==> #[trigger] save::skill_at(d2, lo, i) == 0
                || save::skill_at(d2, lo, i) == save::skill_at(d, lo, i)
        }),
{
    lemma_fits_readable(d, lo, so, b);
    lemma_respec_effect(d, lo, so, b);
    lemma_checked_total_is_total(stat_refunds(d, so, b));
    lemma_total_nonneg(stat_refunds(d, so, b));
}

/// Respeccing twice is the same as respeccing once: the second respec
/// succeeds, refunds no stat points and no further skill points, and leaves
/// every byte as it found it.
pub proof fn lemma_respec_idempotent(d: Seq<u8>, lo: int, so: int, b: Seq<i32>)
    requires
        record_fits(d, lo, so),
        b.len() == STAT_COUNT,
        respec_spec(d, lo, so, b) is Ok,
    ensures
        respec_spec(d, lo, so, b) matches Ok(r) && ({
            let d2 = respec_bytes(d, lo, so, b);
            &&& respec_spec(d2, lo, so, b) matches Ok(r2) && r2.refunded_stats == 0
                && r2.refunded_skills == if r.refunded_skills > 0 { 0 } else { r.refunded_skills }
            &&& respec_bytes(d2, lo, so, b) == d2
        }),
{
    lemma_fits_readable(d, lo, so, b);
    let r = respec_spec(d, lo, so, b).unwrap();
    let d2 = respec_bytes(d, lo, so, b);
    lemma_respec_effect(d, lo, so, b);
    assert(record_fits(d2, lo, so));
    lemma_fits_readable(d2, lo, so, b);
    lemma_checked_total_is_total(stat_refunds(d, so, b));
    lemma_total_nonneg(stat_refunds(d, so, b));
    if r.refunded_skills > 0 {
        lemma_total_zeros(skill_values(d2, lo));
    } else {
        assert(skill_values(d2, lo) =~= skill_values(d, lo));
    }
    assert forall|j: int| 0 <= j < STAT_COUNT implies #[trigger] stat_refunds(d2, so, b)[j] == 0 by {
        assert(stat_refunds(d, so, b)[j] == stat_refund(save::stat_at(d, so, j), b[j]));
    }
    lemma_total_zeros(stat_refunds(d2, so, b));
    assert(record_fits(d2, lo, so));
}

/// A respecced save still loads as the same character: for stat baselines
/// that are themselves plausible stat values, respeccing a save that parses
/// leaves it parsing as the same version, name and level, at the same offsets.
pub proof fn lemma_respec_keeps_save(d: Seq<u8>, v: GameVersion, b: Seq<i32>)
    requires
        save::parse_spec(d, v) is Ok,
        b.len() == STAT_COUNT,
        forall|j: int| 0 <= j < STAT_COUNT ==> 0 <= #[trigger] b[j] <= layout::STAT_MAX,
    ensures
        ({
            let sv = save::parse_spec(d, v)->Ok_0;
            save::parse_spec(respec_bytes(d, sv.level_offset, sv.stats_offset, b), v) == save::parse_spec(d, v)
        }),
{
    save::lemma_parsed_record(d, v);
    let sv = save::parse_spec(d, v)->Ok_0;
    let lo = sv.level_offset;
    let so = sv.stats_offset;
    if respec_spec(d, lo, so, b) is Ok {
        let d2 = respec_bytes(d, lo, so, b);
        lemma_respec_effect(d, lo, so, b);
        lemma_checked_total_is_total(stat_refunds(d, so, b));
        lemma_total_nonneg(stat_refunds(d, so, b));
        assert forall|k: int| so + layout::OFFSET_GOLD <= k < so + OFFSET_RECORD_END implies #[trigger] d2[k] == d[k] by {
            assert(!touched(lo, so, k));
        }
        save::lemma_parse_frame(d, d2, v);
    }
}

/// True when every partial sum of `s`, taken left to right, fits in an `i32`.
pub open spec fn partial_sums_fit(s: Seq<int>) -> bool {
    forall|k: int| 0 <= k <= s.len() ==> i32::MIN <= total(#[trigger] s.take(k)) <= i32::MAX
}

/// An overflow-checked sum whose partial sums all fit is the sum.
proof fn lemma_checked_total_fits(s: Seq<int>)
    requires
        partial_sums_fit(s),
    ensures
        checked_total(s) == Some(total(s) as i32),
    decreases s.len(),
{
    assert(s.take(s.len() as int) =~= s);
    assert(s.take(0) =~= Seq::<int>::empty());
    if s.len() > 0 {
        let p = s.drop_last();
        assert forall|k: int| 0 <= k <= p.len() implies i32::MIN <= total(#[trigger] p.take(k)) <= i32::MAX by {
            assert(p.take(k) =~= s.take(k));
        }
        lemma_checked_total_fits(p);
    }
}

/// A respec of a record that fits is refused only for an overflow: when the
/// skills, and the stat refunds, sum left to right without leaving the `i32`
/// range, and each unused point pool takes its refund without leaving it,
/// the respec succeeds and refunds the sum of the skills and the sum of the
/// stat refunds into the pools.
pub proof fn lemma_respec_refused_only_on_overflow(d: Seq<u8>, lo: int, so: int, b: Seq<i32>)
    requires
        record_fits(d, lo, so),
        b.len() == STAT_COUNT,
        partial_sums_fit(skill_values(d, lo)),
        partial_sums_fit(stat_refunds(d, so, b)),
        i32::MIN <= unused_skills_at(d, lo) + total(skill_values(d, lo)) <= i32::MAX,
        i32::MIN <= unused_stats_at(d, lo) + total(stat_refunds(d, so, b)) <= i32::MAX,
    ensures
        respec_spec(d, lo, so, b) == Ok::<RefundView, RespecError>(RefundView {
            refunded_skills: total(skill_values(d, lo)) as i32,
            refunded_stats: total(stat_refunds(d, so, b)) as i32,
            old_unused_skills: unused_skills_at(d, lo),
            new_unused_skills: (unused_skills_at(d, lo) + total(skill_values(d, lo))) as i32,
            old_unused_stats: unused_stats_at(d, lo),
            new_unused_stats: (unused_stats_at(d, lo) + total(stat_refunds(d, so, b))) as i32,
        }),
{
    lemma_fits_readable(d, lo, so, b);
    lemma_checked_total_fits(skill_values(d, lo));
    lemma_checked_total_fits(stat_refunds(d, so, b));
    let rs = total(skill_values(d, lo));
    let rt = total(stat_refunds(d, so, b));
    assert(skill_values(d, lo).take(SKILL_COUNT as int) =~= skill_values(d, lo));
    assert(stat_refunds(d, so, b).take(STAT_COUNT as int) =~= stat_refunds(d, so, b));
    assert(i32::MIN <= total(skill_values(d, lo).take(SKILL_COUNT as int)) <= i32::MAX);
    assert(i32::MIN <= total(stat_refunds(d, so, b).take(STAT_COUNT as int)) <= i32::MAX);
    assert(skill_total_spec(d, lo) == Ok::<i32, RespecError>(rs as i32));
    assert(stat_total_spec(d, so, b) == Ok::<i32, RespecError>(rt as i32));
    assert(fits_i32(unused_skills_at(d, lo) + rs));
    assert(fits_i32(unused_stats_at(d, lo) + rt));
}

/// The sum of values in `0..=hi` lies in `0..=hi * len`, and so does every
/// partial sum.
proof fn lemma_total_bounded(s: Seq<int>, hi: int)
    requires
        0 <= hi,
        forall|i: int| 0 <= i < s.len() ==> 0 <= #[trigger] s[i] <= hi,
    ensures
        0 <= total(s) <= hi * s.len(),
    decreases s.len(),
{
    if s.len() > 0 {
        let p = s.drop_last();
        assert forall|i: int| 0 <= i < p.len() implies 0 <= #[trigger] p[i] <= hi by {
            assert(p[i] == s[i]);
        }
        lemma_total_bounded(p, hi);
        assert(hi * p.len() + hi == hi * s.len()) by (nonlinear_arith)
            requires p.len() + 1 == s.len();
    }
}

/// Sums of plausible values never leave the `i32` range part way.
proof fn lemma_plausible_sums_fit(s: Seq<int>)
    requires
        s.len() <= SKILL_COUNT,
        forall|i: int| 0 <= i < s.len() ==> 0 <= #[trigger] s[i] <= layout::SKILL_MAX,
    ensures
        partial_sums_fit(s),
{
    assert forall|k: int| 0 <= k <= s.len() implies i32::MIN <= total(#[trigger] s.take(k)) <= i32::MAX by {
        let p = s.take(k);
        assert forall|i: int| 0 <= i < p.len() implies 0 <= #[trigger] p[i] <= layout::SKILL_MAX by {
            assert(p[i] == s[i]);
        }
        lemma_total_bounded(p, layout::SKILL_MAX as int);
        assert(layout::SKILL_MAX * p.len() <= layout::SKILL_MAX * SKILL_COUNT) by (nonlinear_arith)
            requires p.len() <= SKILL_COUNT;
    }
}

/// A save that parses is refused a respec with baselines of at least zero
/// only when an unused point pool would leave the `i32` range: otherwise the
/// respec succeeds and refunds every skill point and every stat point above
/// its baseline into the pools.
pub proof fn lemma_parsed_respec_refused_only_on_pool_overflow(d: Seq<u8>, v: GameVersion, b: Seq<i32>)
    requires
        save::parse_spec(d, v) is Ok,
        b.len() == STAT_COUNT,
        forall|j: int| 0 <= j < STAT_COUNT ==> 0 <= #[trigger] b[j],
    ensures
        ({
            let sv = save::parse_spec(d, v)->Ok_0;
            let lo = sv.level_offset;
            let so = sv.stats_offset;
            let rs = total(skill_values(d, lo));
            let rt = total(stat_refunds(d, so, b));
            &&& (respec_spec(d, lo, so, b) is Ok) == (i32::MIN <= unused_skills_at(d, lo) + rs <= i32::MAX
                && i32::MIN <= unused_stats_at(d, lo) + rt <= i32::MAX)
            &&& respec_spec(d, lo, so, b) is Ok ==> respec_spec(d, lo, so, b) == Ok::<RefundView, RespecError>(RefundView {
                refunded_skills: rs as i32,
                refunded_stats: rt as i32,
                old_unused_skills: unused_skills_at(d, lo),
                new_unused_skills: (unused_skills_at(d, lo) + rs) as i32,
                old_unused_stats: unused_stats_at(d, lo),
                new_unused_stats: (unused_stats_at(d, lo) + rt) as i32,
            })
        }),
{
    save::lemma_parsed_record(d, v);
    let sv = save::parse_spec(d, v)->Ok_0;
    let lo = sv.level_offset;
    let so = sv.stats_offset;
    assert(record_fits(d, lo, so));
    let sk = skill_values(d, lo);
    let st = stat_refunds(d, so, b);
    assert forall|i: int| 0 <= i < sk.len() implies 0 <= #[trigger] sk[i] <= layout::SKILL_MAX by {
        assert(sk[i] == save::skill_at(d, lo, i));
    }
    assert forall|i: int| 0 <= i < st.len() implies 0 <= #[trigger] st[i] <= layout::SKILL_MAX by {
        assert(st[i] == stat_refund(save::stat_at(d, so, i), b[i]));
        assert(0 <= save::stat_at(d, so, i) <= layout::STAT_MAX);
    }
    lemma_plausible_sums_fit(sk);
    lemma_plausible_sums_fit(st);
    lemma_fits_readable(d, lo, so, b);
    lemma_checked_total_fits(sk);
    lemma_checked_total_fits(st);
    let rs = total(sk);
    let rt = total(st);
    assert(sk.take(SKILL_COUNT as int) =~= sk);
    assert(st.take(STAT_COUNT as int) =~= st);
    assert(i32::MIN <= total(sk.take(SKILL_COUNT as int)) <= i32::MAX);
    assert(i32::MIN <= total(st.take(STAT_COUNT as int)) <= i32::MAX);
    assert(skill_total_spec(d, lo) == Ok::<i32, RespecError>(rs as i32));
    assert(stat_total_spec(d, so, b) == Ok::<i32, RespecError>(rt as i32));
    if i32::MIN <= unused_skills_at(d, lo) + rs <= i32::MAX && i32::MIN <= unused_stats_at(d, lo) + rt <= i32::MAX {
        lemma_respec_refused_only_on_overflow(d, lo, so, b);
    }
}

/// A run uses the baselines it is given, in the order given, exactly as a
/// respec of the located record with those baselines would; a run given none
/// uses the defaults 25, 20, 25, 10 (strength, dexterity, vitality, magic).
pub proof fn lemma_run_uses_given_baselines(d: Seq<u8>, version: Option<GameVersion>, a: [i32; 4])
    requires
        located(d, version) is Ok,
    ensures
        ({
            let sv = located(d, version)->Ok_0;
            let lo = sv.level_offset;
            let so = sv.stats_offset;
            &&& chosen_baselines(Some(a)).len() == STAT_COUNT
            &&& forall|j: int| 0 <= j < STAT_COUNT ==> #[trigger] chosen_baselines(Some(a))[j] == a[j]
            &&& respec_spec(d, lo, so, chosen_baselines(Some(a))) == respec_spec(d, lo, so, a@)
            &&& respec_bytes(d, lo, so, chosen_baselines(Some(a))) == respec_bytes(d, lo, so, a@)
            &&& respec_spec(d, lo, so, chosen_baselines(None)) == respec_spec(d, lo, so, seq![25i32, 20i32, 25i32, 10i32])
            &&& respec_bytes(d, lo, so, chosen_baselines(None)) == respec_bytes(d, lo, so, seq![25i32, 20i32, 25i32, 10i32])
        }),
{
    assert(layout::default_baselines() =~= seq![25i32, 20i32, 25i32, 10i32]);
}

/// Which refund line a summary of a respec shows.
#[derive(Debug, Clone, Copy, PartialEq, Eq, Structural)]
pub enum RefundSummary {
    /// Both skill and stat points were refunded.
    SkillsAndStats,
    /// Only skill points were refunded.
    SkillsOnly,
    /// Only stat points were refunded.
    StatsOnly,
    /// Nothing was allocated, so nothing was refunded.
    Nothing,
}

/// The refund line for a respec: skill points count as refunded when their
/// total is positive, and so do stat points.
pub fn refund_summary(r: &RespecResult) -> (k: RefundSummary)
    ensures
        k == (if r.refunded_skills > 0 && r.refunded_stats > 0 {
            RefundSummary::SkillsAndStats
        } else if r.refunded_skills > 0 {
            RefundSummary::SkillsOnly
        } else if r.refunded_stats > 0 {
            RefundSummary::StatsOnly
        } else {
            RefundSummary::Nothing
        }),
{
    if r.refunded_skills > 0 && r.refunded_stats > 0 {
        RefundSummary::SkillsAndStats
    } else if r.refunded_skills > 0 {
        RefundSummary::SkillsOnly
    } else if r.refunded_stats > 0 {
        RefundSummary::StatsOnly
    } else {
        RefundSummary::Nothing
    }
}

/// What a summary row shows a field going to: a respec lowers a field only
/// when it stands above the value it is reset to (0 for a skill, the baseline
/// for a stat), so only such a row shows the new value.
pub fn row_change(value: i32, reset_to: i32) -> (c: Option<i32>)
    ensures
        c == (if value > reset_to { Some(reset_to) } else { None::<i32> }),
{
    if value > reset_to {
        Some(reset_to)
    } else {
        None
    }
}

/// Why a respec run failed.
#[derive(Debug, Clone, Copy, PartialEq, Eq, Structural)]
pub enum RunError {
    /// The save does not parse as the requested game version.
    Parse(SaveError),
    /// The save parses as no known game version.
    Undetected(AutoDetectError),
    /// The respec was refused.
    Respec(RespecError),
}

/// A successful respec run: the character, what was refunded, and the
/// baselines the stats were reset to.
pub struct Outcome {
    pub save: ParsedSave,
    pub respec: RespecResult,
    pub baselines: [i32; 4],
}

/// The character record of `d`, found by parsing as `version`, or by trying
/// each known version when `version` is `None`.
pub open spec fn located(d: Seq<u8>, version: Option<GameVersion>) -> Result<save::SaveView, RunError> {
    match version {
        Some(v) => match save::parse_spec(d, v) {
            Ok(s) => Ok(s),
            Err(e) => Err(RunError::Parse(e)),
        },
        None => match save::parse_auto_spec(d) {
            Ok(s) => Ok(s),
            Err(e) => Err(RunError::Undetected(e)),
        },
    }
}

/// The baselines a run uses: the given ones, or the defaults.
pub open spec fn chosen_baselines(b: Option<[i32; 4]>) -> Seq<i32> {
    match b {
        Some(a) => a@,
        None => layout::default_baselines(),
    }
}

/// Locates the character record of the save in `data` (as `version`, or by
/// detection) and respecs it in place with the given baselines (or the
/// defaults). On failure `data` is left unchanged.
pub fn respec_save(data: &mut [u8], version: Option<GameVersion>, stat_baseline: Option<[i32; 4]>) -> (res: Result<Outcome, RunError>)
    requires
        old(data)@.len() <= isize::MAX,
    ensures
        match located(old(data)@, version) {
            Err(e) => res matches Err(x) && x == e && final(data)@ == old(data)@,
            Ok(sv) => match respec_spec(old(data)@, sv.level_offset, sv.stats_offset, chosen_baselines(stat_baseline)) {
                Err(e) => res matches Err(x) && x == RunError::Respec(e) && final(data)@ == old(data)@,
                Ok(r) => res matches Ok(o) && o.save@ == sv && o.respec.totals() == r
                    && o.respec.lists_values_of(old(data)@, sv.level_offset, sv.stats_offset)
                    && o.baselines@ == chosen_baselines(stat_baseline)
                    && final(data)@ == respec_bytes(old(data)@, sv.level_offset, sv.stats_offset, chosen_baselines(stat_baseline)),
            },
        },
{
    let ghost d0 = data@;
    let save = match version {
        Some(v) => match save::parse(data, v) {
            Ok(s) => s,
            Err(e) => return Err(RunError::Parse(e)),
        },
        None => match save::parse_auto(data) {
            Ok(s) => s,
            Err(e) => return Err(RunError::Undetected(e)),
        },
    };
    proof {
        save::lemma_parsed_record(d0, save.version);
    }
    let baselines = match stat_baseline {
        Some(b) => b,
        None => layout::baseline_stats(),
    };
    match respec(data, &save, baselines) {
        Ok(respec) => Ok(Outcome { save, respec, baselines }),
        Err(e) => Err(RunError::Respec(e)),
    }
}

} // verus!
