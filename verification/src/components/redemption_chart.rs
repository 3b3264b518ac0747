//! The data behind the redemption charts: redemptions per time bucket and
//! per hour of the day.

use vstd::prelude::*;
use crate::models::note::{Note, spec_redemption_time};
use crate::models::note_set::NoteSet;
use crate::text::{decimal_string, spec_decimal};
use crate::utils::time::{spec_two, spec_utc_fields, spec_year, two_digits, utc_fields, year_text};

verus! {

/// Redemptions in one time bucket.
#[derive(Debug)]
pub struct ChartPoint {
    /// Start of the bucket, in seconds since the Unix epoch.
    pub timestamp: i64,
    pub amount_sats: u64,
    pub count: u32,
}

/// Redemptions in one hour of the day (UTC).
#[derive(Debug)]
pub struct HourPoint {
    pub hour: u32,
    pub count: u32,
}

/// `ts` rounded down to a multiple of `width` (for `width > 0`, `/` is
/// floor division here).
pub open spec fn floor_bucket(ts: int, width: int) -> int {
    ts / width * width
}

/// The bucket of a note in the chart: that of its redemption time, if it is
/// spent with a known time.
pub open spec fn note_bucket(n: Note, width: int) -> Option<int> {
    match spec_redemption_time(n) {
        Some(t) => Some(floor_bucket(t as int, width)),
        None => None,
    }
}

/// Satoshis (whole, per note) redeemed in bucket `b`.
pub open spec fn bucket_sats(notes: Seq<Note>, width: int, b: int) -> nat
    decreases notes.len(),
{
    if notes.len() == 0 {
        0
    } else {
        bucket_sats(notes.drop_last(), width, b) + if note_bucket(notes.last(), width) == Some(b) {
            (notes.last().amount_msat / 1000) as nat
        } else {
            0nat
        }
    }
}

/// Notes redeemed in bucket `b`.
pub open spec fn bucket_count(notes: Seq<Note>, width: int, b: int) -> nat
    decreases notes.len(),
{
    if notes.len() == 0 {
        0
    } else {
        bucket_count(notes.drop_last(), width, b) + if note_bucket(notes.last(), width) == Some(b) {
            1nat
        } else {
            0nat
        }
    }
}

/// `points` has one point per bucket holding redemptions, in increasing
/// order of time, with the satoshis and the number of notes redeemed there.
pub open spec fn is_redemption_series(notes: Seq<Note>, width: int, points: Seq<ChartPoint>) -> bool {
    &&& forall|i: int, j: int| 0 <= i < j < points.len() ==> points[i].timestamp < points[j].timestamp
    &&& forall|i: int|
        0 <= i < points.len() ==> {
            &&& (#[trigger] points[i]).amount_sats == bucket_sats(notes, width, points[i].timestamp as int)
            &&& points[i].count == bucket_count(notes, width, points[i].timestamp as int)
            &&& points[i].count > 0
        }
    &&& forall|k: int|
        0 <= k < notes.len() && (#[trigger] note_bucket(notes[k], width)) is Some ==> exists|i: int|
            0 <= i < points.len() && Some(points[i].timestamp as int) == note_bucket(notes[k], width)
}

/// A prefix holds at most the redemptions of a bucket of the whole.
proof fn lemma_bucket_prefix(notes: Seq<Note>, width: int, b: int, k: int)
    requires
        0 <= k <= notes.len(),
    ensures
        bucket_sats(notes.take(k), width, b) <= bucket_sats(notes, width, b),
        bucket_count(notes.take(k), width, b) <= bucket_count(notes, width, b),
    decreases notes.len(),
{
    if k < notes.len() {
        assert(notes.drop_last().take(k) =~= notes.take(k));
        lemma_bucket_prefix(notes.drop_last(), width, b, k);
    } else {
        assert(notes.take(k) =~= notes);
    }
}

proof fn lemma_bucket_absent(notes: Seq<Note>, width: int, b: int)
    requires
        forall|k: int| 0 <= k < notes.len() ==> note_bucket(#[trigger] notes[k], width) != Some(b),
    ensures
        bucket_sats(notes, width, b) == 0,
        bucket_count(notes, width, b) == 0,
    decreases notes.len(),
{
    if notes.len() > 0 {
        lemma_bucket_absent(notes.drop_last(), width, b);
    }
}

/// The bucket of a timestamp.
fn bucket_of(ts: i64, width: i64) -> (b: i64)
    requires
        width > 0,
        ts >= i64::MIN + width,
    ensures
        b == floor_bucket(ts as int, width as int),
{
    let w = width as u64;
    if ts >= 0 {
        let m = ts as u64;
        let q = m / w;
        assert(q * w <= m) by (nonlinear_arith)
            requires
                q == m / w,
                w > 0,
        ;
        (q * w) as i64
    } else {
        let m: u64 = (-(ts as i128)) as u64;
        let q = m / w;
        let r = m % w;
        let ghost t = ts as int;
        let ghost wi = w as int;
        if r == 0 {
            proof {
                vstd::arithmetic::div_mod::lemma_fundamental_div_mod(m as int, wi);
                assert(t == (-(q as int)) * wi + 0) by (nonlinear_arith)
                    requires
                        m as int == wi * (q as int) + 0,
                        t == -(m as int),
                ;
                vstd::arithmetic::div_mod::lemma_fundamental_div_mod_converse(t, wi, -(q as int), 0);
                assert(q * w == m) by (nonlinear_arith)
                    requires
                        m as int == wi * (q as int),
                        wi == w,
                ;
                assert(t / wi * wi == -(m as int)) by (nonlinear_arith)
                    requires
                        t / wi == -(q as int),
                        m as int == wi * (q as int),
                ;
            }
            let p: u64 = q * w;
            (-(p as i128)) as i64
        } else {
            proof {
                vstd::arithmetic::div_mod::lemma_fundamental_div_mod(m as int, wi);
                assert(t == (-(q as int) - 1) * wi + (wi - r)) by (nonlinear_arith)
                    requires
                        m as int == wi * (q as int) + r,
                        t == -(m as int),
                ;
                vstd::arithmetic::div_mod::lemma_fundamental_div_mod_converse(t, wi, -(q as int) - 1, wi - r);
                assert((q + 1) * w <= m + w) by (nonlinear_arith)
                    requires
                        m as int == wi * (q as int) + r,
                        r < wi,
                        wi == w,
                ;
                assert(t / wi * wi == -(((q + 1) * w) as int)) by (nonlinear_arith)
                    requires
                        t / wi == -(q as int) - 1,
                        wi == w,
                ;
            }
            let p: u64 = (q + 1) * w;
            (-(p as i128)) as i64
        }
    }
}

/// The width in seconds of buckets of `hours` hours, of either sign (a
/// negative number of hours gives buckets of its magnitude).
pub open spec fn bucket_width(hours: int) -> int {
    if hours >= 0 {
        hours * 3600
    } else {
        -(hours * 3600)
    }
}

/// Aggregates redemptions into buckets of `bucket_hours` hours.
pub fn aggregate_redemptions(note_set: &NoteSet, bucket_hours: i64) -> (res: Vec<ChartPoint>)
    requires
        bucket_hours != 0,
        i64::MIN <= bucket_hours * 3600 <= i64::MAX,
        forall|b: int|
            #[trigger] bucket_sats(note_set.notes@, bucket_width(bucket_hours as int), b) <= u64::MAX
                && bucket_count(note_set.notes@, bucket_width(bucket_hours as int), b) <= u32::MAX,
        forall|k: int|
            0 <= k < note_set.notes@.len() ==> (spec_redemption_time(#[trigger] note_set.notes@[k]) matches Some(
                t,
            ) ==> t >= i64::MIN + bucket_width(bucket_hours as int)),
    ensures
        is_redemption_series(note_set.notes@, bucket_width(bucket_hours as int), res@),
{
    let hours_width: i64 = bucket_hours * 3600;
    let width: i64 = if hours_width > 0 { hours_width } else { -hours_width };
    let notes = &note_set.notes;
    let mut res: Vec<ChartPoint> = Vec::new();
    let mut k: usize = 0;
    while k < notes.len()
        invariant
            k <= notes@.len(),
            width == bucket_width(bucket_hours as int),
            width > 0,
            forall|m: int|
                0 <= m < notes@.len() ==> (spec_redemption_time(#[trigger] notes@[m]) matches Some(t) ==> t
                    >= i64::MIN + width),
            forall|b: int|
                #[trigger] bucket_sats(notes@, width as int, b) <= u64::MAX && bucket_count(notes@, width as int, b)
                    <= u32::MAX,
            is_redemption_series(notes@.take(k as int), width as int, res@),
        decreases notes@.len() - k,
    {
        let ghost pre = notes@.take(k as int);
        let ghost post = notes@.take(k + 1);
        let ghost old_res = res@;
        assert(post.drop_last() =~= pre);
        assert(post.last() == notes@[k as int]);
        let t = notes[k].redemption_time();
        match t {
            None => {
                assert forall|i: int| 0 <= i < res@.len() implies {
                    &&& (#[trigger] res@[i]).amount_sats == bucket_sats(post, width as int, res@[i].timestamp as int)
                    &&& res@[i].count == bucket_count(post, width as int, res@[i].timestamp as int)
                    &&& res@[i].count > 0
                } by {}
                assert forall|m: int|
                    0 <= m < post.len() && (#[trigger] note_bucket(post[m], width as int)) is Some implies exists|i: int|
                    0 <= i < res@.len() && Some(res@[i].timestamp as int) == note_bucket(post[m], width as int) by {
                    assert(pre[m] == post[m]);
                }
            },
            Some(ts) => {
                assert(spec_redemption_time(notes@[k as int]) == Some(ts));
                let b = bucket_of(ts, width);
                let sats = notes[k].amount_msat / 1000;
                proof {
                    lemma_bucket_prefix(notes@, width as int, b as int, k + 1);
                    assert(bucket_sats(notes@, width as int, b as int) <= u64::MAX);
                }
                let mut j: usize = 0;
                while j < res.len() && res[j].timestamp < b
                    invariant
                        j <= res@.len(),
                        forall|i: int| 0 <= i < j ==> (#[trigger] res@[i]).timestamp < b,
                    decreases res@.len() - j,
                {
                    j = j + 1;
                }
                if j < res.len() && res[j].timestamp == b {
                    let old_point = &res[j];
                    let point = ChartPoint {
                        timestamp: b,
                        amount_sats: old_point.amount_sats + sats,
                        count: old_point.count + 1,
                    };
                    res.set(j, point);
                    proof {
                        assert forall|i: int| 0 <= i < res@.len() implies {
                            &&& (#[trigger] res@[i]).amount_sats == bucket_sats(post, width as int, res@[i].timestamp as int)
                            &&& res@[i].count == bucket_count(post, width as int, res@[i].timestamp as int)
                            &&& res@[i].count > 0
                        } by {
                            if i != j {
                                assert(res@[i] == old_res[i]);
                                assert(old_res[i].timestamp != b) by {
                                    if i > j {
                                        assert(old_res[j as int].timestamp < old_res[i].timestamp);
                                    }
                                }
                            }
                        }
                        assert forall|i: int, i2: int| 0 <= i < i2 < res@.len() implies res@[i].timestamp
                            < res@[i2].timestamp by {
                            assert(res@[i].timestamp == old_res[i].timestamp);
                            assert(res@[i2].timestamp == old_res[i2].timestamp);
                        }
                        assert forall|m: int|
                            0 <= m < post.len() && (#[trigger] note_bucket(post[m], width as int)) is Some implies exists|i: int|
                            0 <= i < res@.len() && Some(res@[i].timestamp as int) == note_bucket(post[m], width as int) by {
                            if m < pre.len() {
                                assert(pre[m] == post[m]);
                                let i = choose|i: int|
                                    0 <= i < old_res.len() && Some(old_res[i].timestamp as int) == note_bucket(pre[m], width as int);
                                assert(res@[i].timestamp == old_res[i].timestamp);
                            } else {
                                assert(res@[j as int].timestamp == b);
                            }
                        }
                    }
                } else {
                    let point = ChartPoint { timestamp: b, amount_sats: sats, count: 1 };
                    res.insert(j, point);
                    proof {
                        assert forall|i: int| 0 <= i < pre.len() implies note_bucket(#[trigger] pre[i], width as int)
                            != Some(b as int) by {
                            if note_bucket(pre[i], width as int) == Some(b as int) {
                                let w = choose|w: int|
                                    0 <= w < old_res.len() && Some(old_res[w].timestamp as int) == note_bucket(pre[i], width as int);
                                if w > j {
                                    assert(old_res[j as int].timestamp < old_res[w].timestamp);
                                }
                            }
                        }
                        lemma_bucket_absent(pre, width as int, b as int);
                        assert forall|i: int, i2: int| 0 <= i < i2 < res@.len() implies res@[i].timestamp
                            < res@[i2].timestamp by {
                            if i2 < j {
                                assert(res@[i] == old_res[i]);
                                assert(res@[i2] == old_res[i2]);
                            } else if i2 == j {
                                assert(res@[i] == old_res[i]);
                            } else if i == j {
                                assert(res@[i2] == old_res[i2 - 1]);
                                if i2 - 1 > j {
                                    assert(old_res[j as int].timestamp < old_res[i2 - 1].timestamp);
                                }
                            } else if i < j {
                                assert(res@[i] == old_res[i]);
                                assert(res@[i2] == old_res[i2 - 1]);
                            } else {
                                assert(res@[i] == old_res[i - 1]);
                                assert(res@[i2] == old_res[i2 - 1]);
                            }
                        }
                        assert forall|i: int| 0 <= i < res@.len() implies {
                            &&& (#[trigger] res@[i]).amount_sats == bucket_sats(post, width as int, res@[i].timestamp as int)
                            &&& res@[i].count == bucket_count(post, width as int, res@[i].timestamp as int)
                            &&& res@[i].count > 0
                        } by {
                            if i < j {
                                assert(res@[i] == old_res[i]);
                            } else if i > j {
                                assert(res@[i] == old_res[i - 1]);
                                assert(old_res[j as int].timestamp >= b);
                                assert(old_res[j as int].timestamp != b);
                                if i - 1 > j {
                                    assert(old_res[j as int].timestamp < old_res[i - 1].timestamp);
                                }
                            }
                        }
                        assert forall|m: int|
                            0 <= m < post.len() && (#[trigger] note_bucket(post[m], width as int)) is Some implies exists|i: int|
                            0 <= i < res@.len() && Some(res@[i].timestamp as int) == note_bucket(post[m], width as int) by {
                            if m < pre.len() {
                                assert(pre[m] == post[m]);
                                let i = choose|i: int|
                                    0 <= i < old_res.len() && Some(old_res[i].timestamp as int) == note_bucket(pre[m], width as int);
                                if i < j {
                                    assert(res@[i] == old_res[i]);
                                } else {
                                    assert(res@[i + 1] == old_res[i]);
                                }
                            } else {
                                assert(res@[j as int].timestamp == b);
                            }
                        }
                    }
                }
            },
        }
        k = k + 1;
    }
    assert(notes@.take(notes@.len() as int) =~= notes@);
    res
}

/// The hour of the day (UTC) of a Unix timestamp.
pub open spec fn spec_hour_of_day(ts: int) -> int {
    (ts % 86400) / 3600
}

/// Notes redeemed in hour `h` of the day.
pub open spec fn hour_count(notes: Seq<Note>, h: int) -> nat
    decreases notes.len(),
{
    if notes.len() == 0 {
        0
    } else {
        hour_count(notes.drop_last(), h) + match spec_redemption_time(notes.last()) {
            Some(t) => if spec_hour_of_day(t as int) == h {
                1nat
            } else {
                0nat
            },
            None => 0nat,
        }
    }
}

proof fn lemma_hour_prefix_count(notes: Seq<Note>, h: int, k: int)
    requires
        0 <= k <= notes.len(),
    ensures
        hour_count(notes.take(k), h) <= hour_count(notes, h),
    decreases notes.len(),
{
    if k < notes.len() {
        assert(notes.drop_last().take(k) =~= notes.take(k));
        lemma_hour_prefix_count(notes.drop_last(), h, k);
    } else {
        assert(notes.take(k) =~= notes);
    }
}

/// The hour of the day of a timestamp.
fn hour_of_day(ts: i64) -> (h: usize)
    ensures
        h == spec_hour_of_day(ts as int),
        h < 24,
{
    if ts >= 0 {
        let r = (ts as u64) % 86400;
        (r / 3600) as usize
    } else {
        let m: u64 = ((-(ts as i128)) as u64) % 86400;
        let r: u64 = if m == 0 { 0 } else { 86400 - m };
        proof {
            let t = ts as int;
            let mag = -t;
            assert(m == mag % 86400);
            assert(r == t % 86400) by (nonlinear_arith)
                requires
                    mag == -t,
                    mag > 0,
                    m == mag % 86400,
                    r == (if m == 0 { 0 } else { 86400 - m }),
            ;
        }
        (r / 3600) as usize
    }
}

/// Counts redemptions per hour of the day (UTC): 24 points, one per hour.
pub fn aggregate_by_hour(note_set: &NoteSet) -> (res: Vec<HourPoint>)
    requires
        forall|h: int| 0 <= h < 24 ==> #[trigger] hour_count(note_set.notes@, h) <= u32::MAX,
    ensures
        res@.len() == 24,
        forall|h: int|
            0 <= h < 24 ==> (#[trigger] res@[h]).hour == h && res@[h].count == hour_count(note_set.notes@, h),
{
    let notes = &note_set.notes;
    let mut hours: Vec<u32> = Vec::new();
    let mut h: usize = 0;
    while h < 24
        invariant
            h <= 24,
            hours@.len() == h,
            forall|g: int| 0 <= g < h ==> hours@[g] == 0,
        decreases 24 - h,
    {
        hours.push(0);
        h = h + 1;
    }
    let mut k: usize = 0;
    while k < notes.len()
        invariant
            k <= notes@.len(),
            forall|h: int| 0 <= h < 24 ==> #[trigger] hour_count(notes@, h) <= u32::MAX,
            hours@.len() == 24,
            forall|g: int| 0 <= g < 24 ==> hours@[g] == hour_count(notes@.take(k as int), g),
        decreases notes@.len() - k,
    {
        let ghost pre = notes@.take(k as int);
        let ghost post = notes@.take(k + 1);
        assert(post.drop_last() =~= pre);
        assert(post.last() == notes@[k as int]);
        match notes[k].redemption_time() {
            Some(ts) => {
                let hour = hour_of_day(ts);
                proof {
                    lemma_hour_prefix_count(notes@, hour as int, k + 1);
                    assert(hour_count(notes@, hour as int) <= u32::MAX);
                }
                let c = hours[hour];
                hours.set(hour, c + 1);
            },
            None => {},
        }
        k = k + 1;
    }
    assert(notes@.take(notes@.len() as int) =~= notes@);
    let mut res: Vec<HourPoint> = Vec::new();
    let mut g: usize = 0;
    while g < 24
        invariant
            g <= 24,
            hours@.len() == 24,
            res@.len() == g,
            forall|x: int| 0 <= x < 24 ==> hours@[x] == hour_count(notes@, x),
            forall|x: int| 0 <= x < g ==> (#[trigger] res@[x]).hour == x && res@[x].count == hours@[x],
        decreases 24 - g,
    {
        res.push(HourPoint { hour: g as u32, count: hours[g] });
        g = g + 1;
    }
    res
}

/// An hour of the day on the 12-hour clock, as in `"2pm"`.
pub open spec fn spec_format_hour(hour: nat) -> Seq<char> {
    if hour == 0 {
        "12am"@
    } else if hour <= 11 {
        spec_decimal(hour) + "am"@
    } else if hour == 12 {
        "12pm"@
    } else if hour <= 23 {
        spec_decimal((hour - 12) as nat) + "pm"@
    } else {
        spec_decimal(hour)
    }
}

/// Formats an hour of the day for display.
pub fn format_hour(hour: u32) -> (res: String)
    ensures
        res@ == spec_format_hour(hour as nat),
{
    if hour == 0 {
        String::from_str("12am")
    } else if hour <= 11 {
        let mut s = decimal_string(hour as u64);
        s.append("am");
        s
    } else if hour == 12 {
        String::from_str("12pm")
    } else if hour <= 23 {
        let mut s = decimal_string((hour - 12) as u64);
        s.append("pm");
        s
    } else {
        decimal_string(hour as u64)
    }
}

/// The number of notes with a redemption time.
pub open spec fn spec_timed_count(notes: Seq<Note>) -> nat
    decreases notes.len(),
{
    if notes.len() == 0 {
        0
    } else {
        spec_timed_count(notes.drop_last()) + if spec_redemption_time(notes.last()) is Some {
            1nat
        } else {
            0nat
        }
    }
}

/// The whole satoshis (per note) of the notes with a redemption time.
pub open spec fn spec_timed_sats(notes: Seq<Note>) -> nat
    decreases notes.len(),
{
    if notes.len() == 0 {
        0
    } else {
        spec_timed_sats(notes.drop_last()) + if spec_redemption_time(notes.last()) is Some {
            (notes.last().amount_msat / 1000) as nat
        } else {
            0nat
        }
    }
}

/// The counts of a sequence of hour points added up.
pub open spec fn spec_hour_points_total(points: Seq<HourPoint>) -> nat
    decreases points.len(),
{
    if points.len() == 0 {
        0
    } else {
        spec_hour_points_total(points.drop_last()) + points.last().count as nat
    }
}

/// The counts of a sequence of chart points added up.
pub open spec fn spec_points_count(points: Seq<ChartPoint>) -> nat
    decreases points.len(),
{
    if points.len() == 0 {
        0
    } else {
        spec_points_count(points.drop_last()) + points.last().count as nat
    }
}

/// The satoshis of a sequence of chart points added up.
pub open spec fn spec_points_sats(points: Seq<ChartPoint>) -> nat
    decreases points.len(),
{
    if points.len() == 0 {
        0
    } else {
        spec_points_sats(points.drop_last()) + points.last().amount_sats as nat
    }
}

/// Notes redeemed in an hour of the day below `n`.
pub open spec fn timed_below(notes: Seq<Note>, n: int) -> nat
    decreases notes.len(),
{
    if notes.len() == 0 {
        0
    } else {
        timed_below(notes.drop_last(), n) + match spec_redemption_time(notes.last()) {
            Some(t) => if spec_hour_of_day(t as int) < n {
                1nat
            } else {
                0nat
            },
            None => 0nat,
        }
    }
}

proof fn lemma_timed_below_step(notes: Seq<Note>, n: int)
    ensures
        timed_below(notes, n + 1) == timed_below(notes, n) + hour_count(notes, n),
    decreases notes.len(),
{
    if notes.len() > 0 {
        lemma_timed_below_step(notes.drop_last(), n);
    }
}

proof fn lemma_timed_below_all(notes: Seq<Note>)
    ensures
        timed_below(notes, 24) == spec_timed_count(notes),
        timed_below(notes, 0) == 0,
    decreases notes.len(),
{
    if notes.len() > 0 {
        lemma_timed_below_all(notes.drop_last());
        if let Some(t) = spec_redemption_time(notes.last()) {
            assert(0 <= spec_hour_of_day(t as int) < 24);
        }
    }
}

/// The hour-of-day chart accounts for every redemption with a known time
/// exactly once: its 24 counts add up to the number of such notes.
pub proof fn lemma_hour_points_cover_redemptions(notes: Seq<Note>, points: Seq<HourPoint>)
    requires
        points.len() == 24,
        forall|h: int| 0 <= h < 24 ==> (#[trigger] points[h]).count == hour_count(notes, h),
    ensures
        spec_hour_points_total(points) == spec_timed_count(notes),
{
    assert forall|n: int| 0 <= n <= 24 implies #[trigger] spec_hour_points_total(points.take(n)) == timed_below(
        notes,
        n,
    ) by {
        lemma_hour_prefix(notes, points, n);
    }
    assert(points.take(24) =~= points);
    lemma_timed_below_all(notes);
}

proof fn lemma_hour_prefix(notes: Seq<Note>, points: Seq<HourPoint>, n: int)
    requires
        points.len() == 24,
        forall|h: int| 0 <= h < 24 ==> (#[trigger] points[h]).count == hour_count(notes, h),
        0 <= n <= 24,
    ensures
        spec_hour_points_total(points.take(n)) == timed_below(notes, n),
    decreases n,
{
    if n == 0 {
        lemma_timed_below_all(notes);
    } else {
        lemma_hour_prefix(notes, points, n - 1);
        assert(points.take(n).drop_last() =~= points.take(n - 1));
        lemma_timed_below_step(notes, n - 1);
    }
}

/// The notes outside bucket `b`, in their order.
pub open spec fn notes_outside_bucket(notes: Seq<Note>, width: int, b: int) -> Seq<Note>
    decreases notes.len(),
{
    if notes.len() == 0 {
        Seq::empty()
    } else {
        let prev = notes_outside_bucket(notes.drop_last(), width, b);
        if note_bucket(notes.last(), width) != Some(b) {
            prev.push(notes.last())
        } else {
            prev
        }
    }
}

proof fn lemma_split_by_bucket(notes: Seq<Note>, width: int, b: int)
    ensures
        spec_timed_count(notes) == bucket_count(notes, width, b) + spec_timed_count(
            notes_outside_bucket(notes, width, b),
        ),
        spec_timed_sats(notes) == bucket_sats(notes, width, b) + spec_timed_sats(
            notes_outside_bucket(notes, width, b),
        ),
    decreases notes.len(),
{
    if notes.len() > 0 {
        lemma_split_by_bucket(notes.drop_last(), width, b);
        let rest = notes_outside_bucket(notes, width, b);
        if note_bucket(notes.last(), width) != Some(b) {
            assert(rest.drop_last() =~= notes_outside_bucket(notes.drop_last(), width, b));
        }
    }
}

proof fn lemma_outside_keeps_others(notes: Seq<Note>, width: int, b: int, other: int)
    requires
        other != b,
    ensures
        bucket_count(notes_outside_bucket(notes, width, b), width, other) == bucket_count(notes, width, other),
        bucket_sats(notes_outside_bucket(notes, width, b), width, other) == bucket_sats(notes, width, other),
    decreases notes.len(),
{
    if notes.len() > 0 {
        lemma_outside_keeps_others(notes.drop_last(), width, b, other);
        let rest = notes_outside_bucket(notes, width, b);
        if note_bucket(notes.last(), width) != Some(b) {
            assert(rest.drop_last() =~= notes_outside_bucket(notes.drop_last(), width, b));
        }
    }
}

proof fn lemma_outside_members(notes: Seq<Note>, width: int, b: int)
    ensures
        forall|k: int|
            0 <= k < notes_outside_bucket(notes, width, b).len() ==> {
                &&& note_bucket(#[trigger] notes_outside_bucket(notes, width, b)[k], width) != Some(b)
                &&& exists|j: int| 0 <= j < notes.len() && notes[j] == notes_outside_bucket(notes, width, b)[k]
            },
    decreases notes.len(),
{
    if notes.len() > 0 {
        let prev = notes.drop_last();
        lemma_outside_members(prev, width, b);
        let rest = notes_outside_bucket(notes, width, b);
        let prev_rest = notes_outside_bucket(prev, width, b);
        assert forall|k: int| 0 <= k < rest.len() implies {
            &&& note_bucket(#[trigger] rest[k], width) != Some(b)
            &&& exists|j: int| 0 <= j < notes.len() && notes[j] == rest[k]
        } by {
            if k < prev_rest.len() {
                assert(rest[k] == prev_rest[k]);
                let j = choose|j: int| 0 <= j < prev.len() && prev[j] == prev_rest[k];
                assert(notes[j] == prev[j]);
            } else {
                assert(rest[k] == notes.last());
                assert(notes[notes.len() - 1] == rest[k]);
            }
        }
    }
}

proof fn lemma_untimed_notes(notes: Seq<Note>, width: int)
    requires
        forall|k: int| 0 <= k < notes.len() ==> note_bucket(#[trigger] notes[k], width) is None,
    ensures
        spec_timed_count(notes) == 0,
        spec_timed_sats(notes) == 0,
    decreases notes.len(),
{
    if notes.len() > 0 {
        assert(note_bucket(notes[notes.len() - 1], width) is None);
        lemma_untimed_notes(notes.drop_last(), width);
    }
}

/// The redemption chart accounts for every redemption with a known time
/// exactly once: its counts add up to the number of such notes, and its
/// satoshis to theirs.
pub proof fn lemma_series_covers_redemptions(notes: Seq<Note>, width: int, points: Seq<ChartPoint>)
    requires
        is_redemption_series(notes, width, points),
    ensures
        spec_points_count(points) == spec_timed_count(notes),
        spec_points_sats(points) == spec_timed_sats(notes),
    decreases points.len(),
{
    if points.len() == 0 {
        assert forall|k: int| 0 <= k < notes.len() implies note_bucket(#[trigger] notes[k], width) is None by {
            if note_bucket(notes[k], width) is Some {
                let i = choose|i: int| 0 <= i < points.len() && Some(points[i].timestamp as int) == note_bucket(notes[k], width);
            }
        }
        lemma_untimed_notes(notes, width);
    } else {
        let last = points.last();
        let b = last.timestamp as int;
        let rest = notes_outside_bucket(notes, width, b);
        let earlier = points.drop_last();
        lemma_outside_members(notes, width, b);
        assert forall|i: int| 0 <= i < earlier.len() implies {
            &&& (#[trigger] earlier[i]).amount_sats == bucket_sats(rest, width, earlier[i].timestamp as int)
            &&& earlier[i].count == bucket_count(rest, width, earlier[i].timestamp as int)
            &&& earlier[i].count > 0
        } by {
            assert(earlier[i] == points[i]);
            assert(points[i].timestamp < last.timestamp);
            lemma_outside_keeps_others(notes, width, b, points[i].timestamp as int);
        }
        assert forall|k: int| 0 <= k < rest.len() && (#[trigger] note_bucket(rest[k], width)) is Some implies exists|i: int|
            0 <= i < earlier.len() && Some(earlier[i].timestamp as int) == note_bucket(rest[k], width) by {
            let j = choose|j: int| 0 <= j < notes.len() && notes[j] == rest[k];
            assert(note_bucket(notes[j], width) is Some);
            let i = choose|i: int| 0 <= i < points.len() && Some(points[i].timestamp as int) == note_bucket(notes[j], width);
            assert(i != points.len() - 1);
            assert(earlier[i] == points[i]);
        }
        assert forall|i: int, j: int| 0 <= i < j < earlier.len() implies earlier[i].timestamp < earlier[j].timestamp by {
            assert(earlier[i] == points[i]);
            assert(earlier[j] == points[j]);
        }
        lemma_series_covers_redemptions(rest, width, earlier);
        lemma_split_by_bucket(notes, width, b);
        assert(points[points.len() - 1] == last);
    }
}

/// A bucket with redemptions holds some note's redemption.
proof fn lemma_bucket_count_positive(notes: Seq<Note>, width: int, b: int)
    requires
        bucket_count(notes, width, b) > 0,
    ensures
        exists|k: int| 0 <= k < notes.len() && note_bucket(notes[k], width) == Some(b),
    decreases notes.len(),
{
    if note_bucket(notes.last(), width) == Some(b) {
        assert(notes[notes.len() - 1] == notes.last());
    } else {
        lemma_bucket_count_positive(notes.drop_last(), width, b);
        let k = choose|k: int| 0 <= k < notes.len() - 1 && note_bucket(notes.drop_last()[k], width) == Some(b);
        assert(notes[k] == notes.drop_last()[k]);
    }
}

/// The bucket times of a series, as integers.
pub open spec fn series_keys(points: Seq<ChartPoint>) -> Seq<int> {
    points.map_values(|p: ChartPoint| p.timestamp as int)
}

/// The redemption chart of notes is unique: two series of the same notes
/// and bucket width have the same points.
pub proof fn lemma_series_unique(notes: Seq<Note>, width: int, a: Seq<ChartPoint>, b: Seq<ChartPoint>)
    requires
        is_redemption_series(notes, width, a),
        is_redemption_series(notes, width, b),
    ensures
        a.len() == b.len(),
        forall|i: int|
            0 <= i < a.len() ==> (#[trigger] a[i]).timestamp == b[i].timestamp && a[i].amount_sats
                == b[i].amount_sats && a[i].count == b[i].count,
{
    let ka = series_keys(a);
    let kb = series_keys(b);
    assert forall|x: int| ka.contains(x) implies kb.contains(x) by {
        let i = choose|i: int| 0 <= i < ka.len() && ka[i] == x;
        assert(a[i].count > 0);
        lemma_bucket_count_positive(notes, width, x);
        let k = choose|k: int| 0 <= k < notes.len() && note_bucket(notes[k], width) == Some(x);
        let j = choose|j: int| 0 <= j < b.len() && Some(b[j].timestamp as int) == note_bucket(notes[k], width);
        assert(kb[j] == x);
    }
    assert forall|x: int| kb.contains(x) implies ka.contains(x) by {
        let i = choose|i: int| 0 <= i < kb.len() && kb[i] == x;
        assert(b[i].count > 0);
        lemma_bucket_count_positive(notes, width, x);
        let k = choose|k: int| 0 <= k < notes.len() && note_bucket(notes[k], width) == Some(x);
        let j = choose|j: int| 0 <= j < a.len() && Some(a[j].timestamp as int) == note_bucket(notes[k], width);
        assert(ka[j] == x);
    }
    assert forall|i: int, j: int| 0 <= i < j < ka.len() implies ka[i] < ka[j] by {
        assert(a[i].timestamp < a[j].timestamp);
    }
    assert forall|i: int, j: int| 0 <= i < j < kb.len() implies kb[i] < kb[j] by {
        assert(b[i].timestamp < b[j].timestamp);
    }
    crate::models::paper_note::lemma_increasing_same_elements(ka, kb);
    assert forall|i: int| 0 <= i < a.len() implies (#[trigger] a[i]).timestamp == b[i].timestamp
        && a[i].amount_sats == b[i].amount_sats && a[i].count == b[i].count by {
        assert(ka[i] == kb[i]);
    }
}

/// The satoshis and the number of notes redeemed over a whole series, as
/// shown above the chart.
pub fn series_totals(points: &Vec<ChartPoint>) -> (res: (u64, u32))
    requires
        spec_points_sats(points@) <= u64::MAX,
        spec_points_count(points@) <= u32::MAX,
    ensures
        res.0 == spec_points_sats(points@),
        res.1 == spec_points_count(points@),
{
    let mut sats: u64 = 0;
    let mut count: u32 = 0;
    let mut i: usize = 0;
    while i < points.len()
        invariant
            i <= points@.len(),
            spec_points_sats(points@) <= u64::MAX,
            spec_points_count(points@) <= u32::MAX,
            sats == spec_points_sats(points@.take(i as int)),
            count == spec_points_count(points@.take(i as int)),
        decreases points@.len() - i,
    {
        assert(points@.take(i + 1).drop_last() =~= points@.take(i as int));
        proof {
            lemma_points_prefix(points@, i + 1);
        }
        sats = sats + points[i].amount_sats;
        count = count + points[i].count;
        i = i + 1;
    }
    assert(points@.take(points@.len() as int) =~= points@);
    (sats, count)
}

/// A prefix of a series holds at most the series' satoshis and notes.
proof fn lemma_points_prefix(points: Seq<ChartPoint>, k: int)
    requires
        0 <= k <= points.len(),
    ensures
        spec_points_sats(points.take(k)) <= spec_points_sats(points),
        spec_points_count(points.take(k)) <= spec_points_count(points),
    decreases points.len(),
{
    if k < points.len() {
        assert(points.drop_last().take(k) =~= points.take(k));
        lemma_points_prefix(points.drop_last(), k);
    } else {
        assert(points.take(k) =~= points);
    }
}

/// Whether the hour-of-day chart has anything to show.
pub fn hours_have_data(points: &Vec<HourPoint>) -> (res: bool)
    ensures
        res == exists|i: int| 0 <= i < points@.len() && points@[i].count > 0,
{
    let mut i: usize = 0;
    while i < points.len()
        invariant
            i <= points@.len(),
            forall|j: int| 0 <= j < i ==> points@[j].count == 0,
        decreases points@.len() - i,
    {
        if points[i].count > 0 {
            return true;
        }
        i = i + 1;
    }
    false
}

/// The English abbreviation of a month (1 is January), as `%b` writes it.
pub open spec fn spec_month_abbrev(month: u32) -> Seq<char> {
    if month == 1 {
        "Jan"@
    } else if month == 2 {
        "Feb"@
    } else if month == 3 {
        "Mar"@
    } else if month == 4 {
        "Apr"@
    } else if month == 5 {
        "May"@
    } else if month == 6 {
        "Jun"@
    } else if month == 7 {
        "Jul"@
    } else if month == 8 {
        "Aug"@
    } else if month == 9 {
        "Sep"@
    } else if month == 10 {
        "Oct"@
    } else if month == 11 {
        "Nov"@
    } else {
        "Dec"@
    }
}

fn month_abbrev(month: u32) -> (res: &'static str)
    requires
        1 <= month <= 12,
    ensures
        res@ == spec_month_abbrev(month),
{
    if month == 1 {
        "Jan"
    } else if month == 2 {
        "Feb"
    } else if month == 3 {
        "Mar"
    } else if month == 4 {
        "Apr"
    } else if month == 5 {
        "May"
    } else if month == 6 {
        "Jun"
    } else if month == 7 {
        "Jul"
    } else if month == 8 {
        "Aug"
    } else if month == 9 {
        "Sep"
    } else if month == 10 {
        "Oct"
    } else if month == 11 {
        "Nov"
    } else {
        "Dec"
    }
}

/// `Mon DD` (as in `"Mar 05"`) for the given calendar fields.
pub open spec fn spec_short_date(f: (i32, u32, u32, u32, u32, u32)) -> Seq<char> {
    spec_month_abbrev(f.1) + " "@ + spec_two(f.2)
}

/// `Mon DD, YYYY` (as in `"Mar 05, 2024"`) for the given calendar fields.
pub open spec fn spec_full_date(f: (i32, u32, u32, u32, u32, u32)) -> Seq<char> {
    spec_short_date(f) + ", "@ + spec_year(f.0)
}

/// Formats the UTC date of a Unix timestamp as a short chart label, as in
/// `"Mar 05"`; nothing outside the range of dates chrono represents.
pub fn format_date(secs: i64) -> (res: Option<String>)
    ensures
        match spec_utc_fields(secs) {
            Some(f) => res matches Some(s) && s@ == spec_short_date(f),
            None => res is None,
        },
{
    match utc_fields(secs) {
        None => None,
        Some((_year, month, day, _hour, _minute, _second)) => {
            let mut s = String::from_str(month_abbrev(month));
            s.append(" ");
            s.append(two_digits(day).as_str());
            Some(s)
        },
    }
}

/// Formats the UTC date of a Unix timestamp with its year, as in
/// `"Mar 05, 2024"`; nothing outside the range of dates chrono represents.
pub fn format_date_full(secs: i64) -> (res: Option<String>)
    ensures
        match spec_utc_fields(secs) {
            Some(f) => res matches Some(s) && s@ == spec_full_date(f),
            None => res is None,
        },
{
    match utc_fields(secs) {
        None => None,
        Some((year, month, day, _hour, _minute, _second)) => {
            let mut s = String::from_str(month_abbrev(month));
            s.append(" ");
            s.append(two_digits(day).as_str());
            s.append(", ");
            s.append(year_text(year).as_str());
            Some(s)
        },
    }
}

/// The highest of some bar counts; 0 when there are none.
pub open spec fn spec_max_count(counts: Seq<u32>) -> u32
    decreases counts.len(),
{
    if counts.len() == 0 {
        0
    } else {
        let rest = spec_max_count(counts.drop_last());
        if counts.last() > rest {
            counts.last()
        } else {
            rest
        }
    }
}

proof fn lemma_max_count_bounds(counts: Seq<u32>)
    ensures
        forall|i: int| 0 <= i < counts.len() ==> counts[i] <= spec_max_count(counts),
        counts.len() > 0 ==> exists|i: int| 0 <= i < counts.len() && counts[i] == spec_max_count(counts),
    decreases counts.len(),
{
    if counts.len() > 0 {
        let rest = counts.drop_last();
        lemma_max_count_bounds(rest);
        assert forall|i: int| 0 <= i < counts.len() implies counts[i] <= spec_max_count(counts) by {
            if i < rest.len() {
                assert(counts[i] == rest[i]);
            }
        }
        if counts.last() > spec_max_count(rest) || rest.len() == 0 {
            assert(counts[counts.len() - 1] == counts.last());
        } else {
            let j = choose|j: int| 0 <= j < rest.len() && rest[j] == spec_max_count(rest);
            assert(counts[j] == rest[j]);
        }
    }
}

/// The highest bar count of a chart (0 for no bars): every count is at most
/// it, and some count equals it.
pub fn max_count(counts: &[u32]) -> (m: u32)
    ensures
        m == spec_max_count(counts@),
        forall|i: int| 0 <= i < counts@.len() ==> counts@[i] <= m,
        counts@.len() > 0 ==> exists|i: int| 0 <= i < counts@.len() && counts@[i] == m,
        counts@.len() == 0 ==> m == 0,
{
    let mut m: u32 = 0;
    let mut k: usize = 0;
    while k < counts.len()
        invariant
            k <= counts@.len(),
            m == spec_max_count(counts@.take(k as int)),
        decreases counts@.len() - k,
    {
        assert(counts@.take(k as int + 1).drop_last() =~= counts@.take(k as int));
        if counts[k] > m {
            m = counts[k];
        }
        k = k + 1;
    }
    assert(counts@.take(counts@.len() as int) =~= counts@);
    proof {
        lemma_max_count_bounds(counts@);
    }
    m
}

/// The count labels of a chart's vertical axis, top to bottom: the highest
/// count, its half (rounded down) and zero; none when nothing was redeemed.
pub fn axis_count_labels(counts: &[u32]) -> (res: Vec<String>)
    ensures
        spec_max_count(counts@) == 0 ==> res@.len() == 0,
        spec_max_count(counts@) > 0 ==> {
            &&& res@.len() == 3
            &&& res@[0]@ == spec_decimal(spec_max_count(counts@) as nat)
            &&& res@[1]@ == spec_decimal((spec_max_count(counts@) / 2) as nat)
            &&& res@[2]@ == "0"@
        },
{
    let m = max_count(counts);
    let mut res: Vec<String> = Vec::new();
    if m == 0 {
        return res;
    }
    res.push(decimal_string(m as u64));
    res.push(decimal_string((m / 2) as u64));
    res.push(String::from_str("0"));
    res
}

} // verus!
