//! The brightness analysis: reduces one captured RGBA frame to integer
//! luminance statistics, and turns one capture pass over all displays into
//! brightness events, skipping displays whose capture failed.
//!
//! Each pixel's 8-bit gray value is `round(0.299 R + 0.587 G + 0.114 B)`;
//! because the three weights sum to 1000 thousandths, the value is computed
//! exactly as `(299 R + 587 G + 114 B + 500) / 1000`. The frame's mean,
//! median and population standard deviation are fully determined by the
//! integer statistics collected in a `BrightnessSample`.

use vstd::prelude::*;
use crate::event::BrightnessSample;
use crate::event::Event;

verus! {

broadcast use vstd::seq_lib::group_seq_properties;

/// Frames with more pixels than this are rejected, so that the gray sums
/// fit a `u64` with room to spare.
pub const MAX_PIXELS: u64 = 0x1000000000000;

/// One captured frame: interleaved RGBA bytes, four per pixel.
pub struct PixelGrid {
    pub rgba: Vec<u8>,
}

impl PixelGrid {
    /// Well-formed: whole pixels only.
    pub open spec fn wf(&self) -> bool {
        self.rgba@.len() % 4 == 0
    }

    /// The number of pixels in the frame.
    pub open spec fn pixel_count(&self) -> int {
        (self.rgba@.len() as int) / 4
    }
}

/// The 8-bit gray value of one pixel: the luma formula rounded to the
/// nearest integer, alpha ignored.
pub open spec fn gray_of(r: u8, g: u8, b: u8) -> u8 {
    (((299 * (r as int) + 587 * (g as int) + 114 * (b as int) + 500) / 1000) as u8)
}

/// The gray values of an interleaved RGBA byte sequence, one per pixel.
pub open spec fn grays_of(data: Seq<u8>) -> Seq<u8> {
    Seq::new(data.len() / 4, |i: int| gray_of(data[4 * i], data[4 * i + 1], data[4 * i + 2]))
}

/// The sum of all gray values.
pub open spec fn sum_of(s: Seq<u8>) -> int
    decreases s.len(),
{
    if s.len() == 0 {
        0
    } else {
        sum_of(s.drop_last()) + s.last()
    }
}

/// The sum of the squares of all gray values.
pub open spec fn sum_sq_of(s: Seq<u8>) -> int
    decreases s.len(),
{
    if s.len() == 0 {
        0
    } else {
        sum_sq_of(s.drop_last()) + (s.last() as int) * (s.last() as int)
    }
}

/// How many entries of `s` hold the value `v`.
pub open spec fn count_of(s: Seq<u8>, v: u8) -> nat
    decreases s.len(),
{
    if s.len() == 0 {
        0
    } else {
        count_of(s.drop_last(), v) + (if s.last() == v {
            1nat
        } else {
            0nat
        })
    }
}

/// `n` copies of the value `v`.
pub open spec fn repeated(v: u8, n: nat) -> Seq<u8> {
    Seq::new(n, |i: int| v)
}

/// The values of `s` below `bound`, in ascending order with multiplicity.
pub open spec fn sorted_of_below(s: Seq<u8>, bound: int) -> Seq<u8>
    decreases bound,
{
    if bound <= 0 {
        Seq::empty()
    } else {
        sorted_of_below(s, bound - 1) + repeated((bound - 1) as u8, count_of(s, (bound - 1) as u8))
    }
}

/// The gray values sorted ascending.
pub open spec fn sorted_of(s: Seq<u8>) -> Seq<u8> {
    sorted_of_below(s, 256)
}

/// Ascending order.
pub open spec fn sorted(s: Seq<u8>) -> bool {
    forall|i: int, j: int| 0 <= i <= j < s.len() ==> s[i] <= s[j]
}

/// Twice the median of a sorted nonempty sequence: the sum of the two
/// central values when the length is even, twice the central value when
/// odd.
pub open spec fn median_doubled_of(s: Seq<u8>) -> int
    recommends
        s.len() > 0,
{
    if s.len() % 2 == 0 {
        s[(s.len() as int) / 2 - 1] + s[(s.len() as int) / 2]
    } else {
        2 * s[(s.len() as int) / 2]
    }
}

/// The integer brightness statistics of a nonempty gray sequence.
pub open spec fn sample_of(grays: Seq<u8>) -> BrightnessSample
    recommends
        0 < grays.len() <= MAX_PIXELS,
{
    BrightnessSample {
        count: grays.len() as u64,
        sum: sum_of(grays) as u64,
        sum_sq: sum_sq_of(grays) as u64,
        median_doubled: (median_doubled_of(sorted_of(grays)) as u16),
    }
}

proof fn lemma_sums_push(t: Seq<u8>, x: u8)
    ensures
        sum_of(t.push(x)) == sum_of(t) + x,
        sum_sq_of(t.push(x)) == sum_sq_of(t) + (x as int) * (x as int),
        forall|c: u8|
            count_of(t.push(x), c) == count_of(t, c) + (if x == c {
                1nat
            } else {
                0nat
            }),
{
    assert(t.push(x).drop_last() =~= t);
    assert(t.push(x).last() == x);
}

proof fn lemma_sum_bounds(s: Seq<u8>)
    ensures
        0 <= sum_of(s) <= 255 * s.len(),
        0 <= sum_sq_of(s) <= 65025 * s.len(),
    decreases s.len(),
{
    if s.len() == 0 {
    } else {
        lemma_sum_bounds(s.drop_last());
        let x = s.last() as int;
        assert(x * x <= 65025) by (nonlinear_arith)
            requires
                0 <= x <= 255,
        ;
    }
}

proof fn lemma_count_le_len(s: Seq<u8>, v: u8)
    ensures
        count_of(s, v) <= s.len(),
    decreases s.len(),
{
    if s.len() == 0 {
    } else {
        lemma_count_le_len(s.drop_last(), v);
    }
}

proof fn lemma_sorted_below_empty_len(k: int)
    ensures
        sorted_of_below(Seq::empty(), k).len() == 0,
    decreases k,
{
    if k <= 0 {
    } else {
        lemma_sorted_below_empty_len(k - 1);
    }
}

proof fn lemma_sorted_below_len_push(t: Seq<u8>, x: u8, k: int)
    requires
        k <= 256,
    ensures
        sorted_of_below(t.push(x), k).len() == sorted_of_below(t, k).len() + (if (x as int) < k {
            1int
        } else {
            0int
        }),
    decreases k,
{
    if k <= 0 {
    } else {
        lemma_sorted_below_len_push(t, x, k - 1);
        lemma_sums_push(t, x);
    }
}

proof fn lemma_sorted_of_len(s: Seq<u8>)
    ensures
        sorted_of(s).len() == s.len(),
    decreases s.len(),
{
    if s.len() == 0 {
        assert(s =~= Seq::empty());
        lemma_sorted_below_empty_len(256);
    } else {
        let t = s.drop_last();
        assert(s =~= t.push(s.last()));
        lemma_sorted_of_len(t);
        lemma_sorted_below_len_push(t, s.last(), 256);
    }
}

/// The exact gray value of one pixel.
pub fn gray_value(r: u8, g: u8, b: u8) -> (v: u8)
    ensures
        v == gray_of(r, g, b),
{
    let weighted: u32 = 299 * (r as u32) + 587 * (g as u32) + 114 * (b as u32) + 500;
    (weighted / 1000) as u8
}

/// Converts a whole frame to gray values, pixel by pixel.
pub fn grays_of_rgba(data: &Vec<u8>) -> (r: Vec<u8>)
    requires
        data@.len() % 4 == 0,
    ensures
        r@ == grays_of(data@),
{
    let len = data.len();
    let count = len / 4;
    let mut r: Vec<u8> = Vec::new();
    let mut i: usize = 0;
    while i < count
        invariant
            i <= count,
            count == data@.len() / 4,
            data@.len() % 4 == 0,
            4 * (count as int) <= usize::MAX,
            r@.len() == i,
            forall|k: int| 0 <= k < i ==> r@[k] == grays_of(data@)[k],
        decreases count - i,
    {
        proof {
            assert(4 * (count as int) <= data@.len());
        }
        let base = 4 * i;
        let v = gray_value(data[base], data[base + 1], data[base + 2]);
        r.push(v);
        i += 1;
    }
    proof {
        assert(r@ =~= grays_of(data@));
    }
    r
}

/// Sums the gray values and their squares in one pass.
pub fn gray_sums(grays: &Vec<u8>) -> (r: (u64, u64))
    requires
        grays@.len() <= MAX_PIXELS,
    ensures
        r.0 == sum_of(grays@),
        r.1 == sum_sq_of(grays@),
{
    let n = grays.len();
    let mut sum: u64 = 0;
    let mut sum_sq: u64 = 0;
    let mut i: usize = 0;
    while i < n
        invariant
            i <= n,
            n == grays@.len(),
            n <= MAX_PIXELS,
            sum == sum_of(grays@.take(i as int)),
            sum_sq == sum_sq_of(grays@.take(i as int)),
        decreases n - i,
    {
        let g = grays[i];
        proof {
            lemma_sum_bounds(grays@.take(i as int));
            assert(grays@.take(i + 1) =~= grays@.take(i as int).push(grays@[i as int]));
            lemma_sums_push(grays@.take(i as int), grays@[i as int]);
            assert((g as int) * (g as int) <= 65025) by (nonlinear_arith)
                requires
                    0 <= g as int <= 255,
            ;
        }
        sum = sum + (g as u64);
        sum_sq = sum_sq + (g as u64) * (g as u64);
        i += 1;
    }
    proof {
        assert(grays@.take(n as int) =~= grays@);
    }
    (sum, sum_sq)
}

/// Sorts the gray values ascending by counting each of the 256 values.
#[verifier::loop_isolation(false)]
pub fn sort_grays(v: &Vec<u8>) -> (r: Vec<u8>)
    ensures
        r@ == sorted_of(v@),
        r@.len() == v@.len(),
        sorted(r@),
        forall|c: u8| count_of(r@, c) == count_of(v@, c),
{
    let mut counts: Vec<usize> = Vec::new();
    let mut z: usize = 0;
    while z < 256
        invariant
            z <= 256,
            counts@.len() == z,
            forall|k: int| 0 <= k < z ==> counts@[k] == 0,
        decreases 256 - z,
    {
        counts.push(0);
        z += 1;
    }
    proof {
        assert forall|c: u8| counts@[c as int] == count_of(v@.take(0), c) by {
            assert(v@.take(0) =~= Seq::empty());
        }
    }

    let n = v.len();
    let mut i: usize = 0;
    while i < n
        invariant
            i <= n,
            counts@.len() == 256,
            forall|c: u8| counts@[c as int] == count_of(v@.take(i as int), c),
        decreases n - i,
    {
        let g = v[i];
        let idx = g as usize;
        proof {
            lemma_count_le_len(v@.take(i as int), g);
        }
        let cur = counts[idx];
        counts[idx] = cur + 1;
        proof {
            assert(v@.take(i + 1) =~= v@.take(i as int).push(v@[i as int]));
            lemma_sums_push(v@.take(i as int), v@[i as int]);
        }
        i += 1;
    }
    proof {
        assert(v@.take(n as int) =~= v@);
    }

    let mut r: Vec<u8> = Vec::new();
    let mut k: usize = 0;
    while k < 256
        invariant
            k <= 256,
            r@ == sorted_of_below(v@, k as int),
            sorted(r@),
            forall|idx: int| 0 <= idx < r@.len() ==> (r@[idx] as int) < k as int,
            forall|c: u8| (c as int) < k as int ==> count_of(r@, c) == count_of(v@, c),
            forall|c: u8| (c as int) >= k as int ==> count_of(r@, c) == 0,
        decreases 256 - k,
    {
        let cnt = counts[k];
        let ghost r_before: Seq<u8> = r@;
        let mut j: usize = 0;
        while j < cnt
            invariant
                j <= cnt,
                cnt == count_of(v@, k as u8),
                r@ == r_before + repeated(k as u8, j as nat),
                sorted(r@),
                forall|idx: int| 0 <= idx < r@.len() ==> (r@[idx] as int) <= k as int,
                forall|c: u8| (c as int) < k as int ==> count_of(r@, c) == count_of(v@, c),
                forall|c: u8| (c as int) > k as int ==> count_of(r@, c) == 0,
                count_of(r@, k as u8) == j,
            decreases cnt - j,
        {
            r.push(k as u8);
            proof {
                lemma_sums_push(r_before + repeated(k as u8, j as nat), k as u8);
                assert(r@ =~= r_before + repeated(k as u8, (j + 1) as nat));
            }
            j += 1;
        }
        proof {
            assert(r@ =~= sorted_of_below(v@, k as int + 1));
        }
        k += 1;
    }
    proof {
        lemma_sorted_of_len(v@);
    }
    r
}

/// Twice the median of a sorted nonempty gray sequence.
pub fn median_doubled(sorted_grays: &Vec<u8>) -> (r: u16)
    requires
        sorted_grays@.len() > 0,
    ensures
        r as int == median_doubled_of(sorted_grays@),
{
    let n = sorted_grays.len();
    if n % 2 == 0 {
        (sorted_grays[n / 2 - 1] as u16) + (sorted_grays[n / 2] as u16)
    } else {
        2 * (sorted_grays[n / 2] as u16)
    }
}

/// Reduces one captured frame to its integer brightness statistics.
pub fn analyze_brightness(grid: &PixelGrid) -> (sample: BrightnessSample)
    requires
        grid.wf(),
        0 < grid.pixel_count() <= MAX_PIXELS,
    ensures
        sample == sample_of(grays_of(grid.rgba@)),
{
    let grays = grays_of_rgba(&grid.rgba);
    let sums = gray_sums(&grays);
    let sorted_grays = sort_grays(&grays);
    let med2 = median_doubled(&sorted_grays);
    proof {
        lemma_sum_bounds(grays@);
    }
    BrightnessSample {
        count: grays.len() as u64,
        sum: sums.0,
        sum_sq: sums.1,
        median_doubled: med2,
    }
}

/// Whether one display's capture outcome yields a brightness event: the
/// capture succeeded and the frame is well-formed, nonempty and within
/// bounds.
pub open spec fn frame_ok(f: Option<PixelGrid>) -> bool {
    match f {
        Option::Some(g) => g.wf() && 0 < g.pixel_count() <= MAX_PIXELS,
        Option::None => false,
    }
}

/// The brightness events of one capture pass: one event per display whose
/// capture succeeded, in enumeration order; failed displays are skipped
/// and do not block the others.
pub open spec fn events_of_frames(frames: Seq<Option<PixelGrid>>) -> Seq<Event>
    decreases frames.len(),
{
    if frames.len() == 0 {
        Seq::empty()
    } else {
        events_of_frames(frames.drop_last()) + (match frames.last() {
            Option::Some(g) => if g.wf() && 0 < g.pixel_count() <= MAX_PIXELS {
                seq![Event::ScreenBrightness { sample: sample_of(grays_of(g.rgba@)) }]
            } else {
                Seq::empty()
            },
            Option::None => Seq::empty(),
        })
    }
}

/// One brightness pass over all displays: analyzes every successfully
/// captured frame and emits its event; a failed display is skipped while
/// the others still emit.
pub fn process_frames(frames: &Vec<Option<PixelGrid>>) -> (events: Vec<Event>)
    ensures
        events@ == events_of_frames(frames@),
{
    let mut events: Vec<Event> = Vec::new();
    let n = frames.len();
    let mut i: usize = 0;
    while i < n
        invariant
            i <= n,
            n == frames@.len(),
            events@ == events_of_frames(frames@.take(i as int)),
        decreases n - i,
    {
        let frame = &frames[i];
        match frame {
            Option::Some(g) => {
                let len = g.rgba.len();
                if len % 4 == 0 && len > 0 && (len / 4) as u64 <= MAX_PIXELS {
                    let sample = analyze_brightness(g);
                    events.push(Event::ScreenBrightness { sample });
                }
            },
            Option::None => {},
        }
        proof {
            let t = frames@.take(i + 1);
            assert(t.drop_last() =~= frames@.take(i as int));
            assert(t.last() == frames@[i as int]);
            assert(events@ =~= events_of_frames(t));
        }
        i += 1;
    }
    proof {
        assert(frames@.take(n as int) =~= frames@);
    }
    events
}

} // verus!
