//! The computations behind the dashboard's panels: text formatting, graph
//! resampling and bar layout.
use vstd::prelude::*;

use crate::text::{
    decimal, digit_char, digit_to_char, push_char, push_decimal, push_two_digits, two_digits,
};

verus! {

/// `total` seconds as `HH:MM:SS`, each field at least two digits wide.
pub open spec fn clock_text(total: nat) -> Seq<char> {
    two_digits(total / 3600) + seq![':'] + two_digits((total % 3600) / 60) + seq![':'] + two_digits(
        total % 60,
    )
}

/// Seconds in one day.
pub open spec fn seconds_per_day() -> nat {
    86400
}

/// Formats a duration in seconds as `HH:MM:SS` (hours may exceed two digits).
pub fn format_duration(total_secs: u64) -> (s: String)
    ensures
        s@ == clock_text(total_secs as nat),
{
    let mut s = String::new();
    push_two_digits(&mut s, total_secs / 3600);
    push_char(&mut s, ':');
    push_two_digits(&mut s, (total_secs % 3600) / 60);
    push_char(&mut s, ':');
    push_two_digits(&mut s, total_secs % 60);
    assert(s@ =~= clock_text(total_secs as nat));
    s
}

/// Formats a Unix timestamp as its UTC time of day, `HH:MM:SS UTC`.
pub fn format_unix_secs(unix_secs: u64) -> (s: String)
    ensures
        s@ == clock_text((unix_secs % 86400) as nat) + " UTC"@,
{
    let secs_of_day = unix_secs % 86400;
    let mut s = format_duration(secs_of_day);
    s.append(" UTC");
    s
}

/// The fields of `clock_text` put the duration back together: minutes and
/// seconds stay below 60 and `h * 3600 + m * 60 + s` is the total.
pub proof fn lemma_clock_fields(total: nat)
    ensures
        (total % 3600) / 60 < 60,
        total % 60 < 60,
        (total / 3600) * 3600 + ((total % 3600) / 60) * 60 + total % 60 == total,
{
}

/// A timestamp and the same timestamp one day later show the same time of day.
pub proof fn lemma_time_of_day_repeats_daily(unix_secs: nat)
    ensures
        clock_text((unix_secs + seconds_per_day()) % seconds_per_day()) == clock_text(
            unix_secs % seconds_per_day(),
        ),
{
    assert((unix_secs + 86400) % 86400 == unix_secs % 86400);
}

/// `num / den` rounded to the nearest whole number, ties to the even one:
/// how `{:.N}` rounds a value that it holds exactly.
pub open spec fn round_half_even(num: nat, den: nat) -> nat
    recommends
        den > 0,
{
    let q = num / den;
    let r = num % den;
    if 2 * r > den || (2 * r == den && q % 2 == 1) {
        q + 1
    } else {
        q
    }
}

/// A count of tenths written with one decimal place, such as `12.5`.
pub open spec fn one_decimal(tenths: nat) -> Seq<char> {
    decimal(tenths / 10) + seq!['.', digit_char((tenths % 10) as int)]
}

/// `mb` MB in GB (1024 MB each), with one decimal place.
pub open spec fn gb_one_decimal(mb: nat) -> Seq<char> {
    one_decimal(round_half_even(mb * 10, 1024))
}

/// Distance in MB from `mb` to the nearest whole GB.
pub open spec fn mb_from_whole_gb(mb: nat) -> nat {
    let r = mb % 1024;
    if r <= 1024 - r {
        r
    } else {
        (1024 - r) as nat
    }
}

/// `mb` MB in whole GB, halves rounded up.
pub open spec fn rounded_gb(mb: nat) -> nat {
    if 2 * (mb % 1024) >= 1024 {
        mb / 1024 + 1
    } else {
        mb / 1024
    }
}

/// How `format_mb_as_gb` writes `mb`: whole GB when within 0.05 GB of a whole
/// number, else GB with one decimal place.
pub open spec fn mb_as_gb_text(mb: nat) -> Seq<char> {
    if 20 * mb_from_whole_gb(mb) < 1024 {
        decimal(rounded_gb(mb)) + " GB"@
    } else {
        gb_one_decimal(mb) + " GB"@
    }
}

proof fn lemma_tenths_split(mb: nat, q: nat, r: nat)
    requires
        q == mb / 1024,
        r == mb % 1024,
    ensures
        (mb * 10) / 1024 == q * 10 + (r * 10) / 1024,
        (mb * 10) % 1024 == (r * 10) % 1024,
{
    assert(mb == q * 1024 + r);
    assert(mb * 10 == (q * 10) * 1024 + r * 10) by (nonlinear_arith)
        requires
            mb == q * 1024 + r,
    ;
    vstd::arithmetic::div_mod::lemma_fundamental_div_mod_converse(
        (mb * 10) as int,
        1024,
        (q * 10 + (r * 10) / 1024) as int,
        ((r * 10) % 1024) as int,
    );
}

/// Appends `mb` MB as GB with one decimal place.
pub(crate) fn push_gb_one_decimal(out: &mut String, mb: u64)
    ensures
        final(out)@ == old(out)@ + gb_one_decimal(mb as nat),
{
    let ghost start = out@;
    let q = mb / 1024;
    let r = mb % 1024;
    let t = r * 10 / 1024;
    let rem = r * 10 % 1024;
    proof {
        lemma_tenths_split(mb as nat, q as nat, r as nat);
        assert((q * 10 + t) % 2 == t % 2);
    }
    let up: u64 = if rem > 512 || (rem == 512 && t % 2 == 1) {
        1
    } else {
        0
    };
    let tenths = q * 10 + t + up;
    assert(tenths == round_half_even(mb as nat * 10, 1024));
    push_decimal(out, tenths / 10);
    push_char(out, '.');
    let d = digit_to_char(tenths % 10);
    push_char(out, d);
    assert(out@ =~= start + gb_one_decimal(mb as nat));
}

/// Formats a size in MB as GB, rounding to a whole number when within 0.05 GB
/// of one (such as `32 GB`) and otherwise showing one decimal place.
pub fn format_mb_as_gb(total_mb: u64) -> (s: String)
    ensures
        s@ == mb_as_gb_text(total_mb as nat),
{
    let r = total_mb % 1024;
    let dist = if r <= 1024 - r {
        r
    } else {
        1024 - r
    };
    let mut s = String::new();
    if 20 * dist < 1024 {
        let whole = if 2 * r >= 1024 {
            total_mb / 1024 + 1
        } else {
            total_mb / 1024
        };
        push_decimal(&mut s, whole);
    } else {
        push_gb_one_decimal(&mut s, total_mb);
    }
    s.append(" GB");
    assert(s@ =~= mb_as_gb_text(total_mb as nat));
    s
}

/// How many of `width` columns `n` samples fill when each of the `capacity`
/// possible ticks owns the same `width / capacity` slice.
pub open spec fn filled_columns(n: nat, width: nat, capacity: nat) -> nat
    recommends
        capacity > 0,
{
    if n * width / capacity <= width {
        n * width / capacity
    } else {
        width
    }
}

/// `data` mapped onto exactly `width` columns: the samples are right-aligned
/// in the last `filled_columns` columns, each column taking the nearest
/// sample to its left, and the unfilled columns on the left are zero.
pub open spec fn resampled(data: Seq<u64>, width: nat, capacity: nat) -> Seq<u64> {
    if width == 0 || capacity == 0 {
        Seq::empty()
    } else {
        let fw = filled_columns(data.len(), width, capacity);
        let ew = width - fw;
        Seq::new(
            width,
            |j: int|
                if j < ew {
                    0u64
                } else {
                    data[(j - ew) * (data.len() as int) / (fw as int)]
                },
        )
    }
}

proof fn lemma_sample_index(x: int, n: int, fw: int)
    requires
        0 <= x < fw,
        0 < n,
    ensures
        0 <= x * n / fw < n,
        x * n <= fw * n,
{
    assert(0 <= x * n) by (nonlinear_arith)
        requires
            0 <= x,
            0 < n,
    ;
    assert(x * n < fw * n) by (nonlinear_arith)
        requires
            x < fw,
            0 < n,
    ;
    vstd::arithmetic::div_mod::lemma_div_pos_is_pos(x * n, fw);
    vstd::arithmetic::div_mod::lemma_fundamental_div_mod(x * n, fw);
    let d = x * n / fw;
    let m = (x * n) % fw;
    assert(0 <= m);
    assert(d < n) by (nonlinear_arith)
        requires
            x * n == fw * d + m,
            0 <= m,
            x * n < fw * n,
            0 < fw,
    ;
}

/// Maps `data` onto exactly `width` columns, where each of the `capacity`
/// possible ticks always occupies the same `width / capacity` slice, so the
/// graph grows at a steady rate while the history is still filling. Samples
/// are right-aligned (the most recent next to the right edge) and
/// nearest-neighbour resampled; unfilled columns are zero-height bars.
pub fn resample_to_width(data: &[u64], width: usize, capacity: usize) -> (r: Vec<u64>)
    requires
        data@.len() * width <= usize::MAX,
    ensures
        r@ == resampled(data@, width as nat, capacity as nat),
        width > 0 && capacity > 0 ==> r@.len() == width,
{
    if width == 0 || capacity == 0 {
        let r: Vec<u64> = Vec::new();
        assert(r@ =~= resampled(data@, width as nat, capacity as nat));
        return r;
    }
    let n = data.len();
    let q = n * width / capacity;
    let filled_width = if q <= width {
        q
    } else {
        width
    };
    let empty_width = width - filled_width;
    let ghost expect = resampled(data@, width as nat, capacity as nat);
    let mut result: Vec<u64> = Vec::new();
    let mut j: usize = 0;
    while j < empty_width
        invariant
            j <= empty_width,
            empty_width <= width,
            expect.len() == width,
            empty_width == width - filled_columns(n as nat, width as nat, capacity as nat),
            n == data@.len(),
            capacity > 0,
            expect == resampled(data@, width as nat, capacity as nat),
            result@.len() == j,
            forall|k: int| 0 <= k < j ==> result@[k] == expect[k],
        decreases empty_width - j,
    {
        result.push(0);
        j = j + 1;
    }
    if n == 0 {
        assert(n * width == 0) by (nonlinear_arith)
            requires
                n == 0,
        ;
    }
    if n > 0 && filled_width > 0 {
        let mut x: usize = 0;
        while x < filled_width
            invariant
                x <= filled_width,
                filled_width <= width,
                0 < filled_width,
                0 < n,
                n == data@.len(),
                n * width <= usize::MAX,
                capacity > 0,
                filled_width == filled_columns(n as nat, width as nat, capacity as nat),
                empty_width == width - filled_width,
                expect == resampled(data@, width as nat, capacity as nat),
                expect.len() == width,
                result@.len() == empty_width + x,
                forall|k: int| 0 <= k < empty_width + x ==> result@[k] == expect[k],
            decreases filled_width - x,
        {
            proof {
                lemma_sample_index(x as int, n as int, filled_width as int);
                assert((filled_width as int) * (n as int) <= (width as int) * (n as int)) by (nonlinear_arith)
                    requires
                        filled_width <= width,
                        0 < n,
                ;
            }
            let idx = x * n / filled_width;
            result.push(data[idx]);
            proof {
                let k = (empty_width + x) as int;
                assert(k - empty_width == x);
                assert(expect[k] == data@[(x as int) * (n as int) / (filled_width as int)]);
            }
            x = x + 1;
        }
    }
    assert(result@.len() == width);
    assert(result@ =~= expect);
    result
}

/// `a / b` rounded up, as `u64::div_ceil` computes it.
pub open spec fn ceil_div(a: nat, b: nat) -> nat
    recommends
        b > 0,
{
    if a % b == 0 {
        a / b
    } else {
        a / b + 1
    }
}

/// The smallest value that a sparkline of `height` rows against `max` draws
/// with at least one of its `height * 8` levels, or 0 when there are no rows.
pub open spec fn min_visible_value(max: nat, height: nat) -> nat {
    if height * 8 == 0 {
        0
    } else if ceil_div(max, height * 8) >= 1 {
        ceil_div(max, height * 8)
    } else {
        1
    }
}

/// A sample as the sparkline draws it: nonzero samples are raised to the
/// smallest visible value, zero stays zero.
pub open spec fn lifted_sample(v: u64, max: nat, height: nat) -> u64 {
    if v > 0 && (v as nat) < min_visible_value(max, height) {
        min_visible_value(max, height) as u64
    } else {
        v
    }
}

/// Raises every nonzero sample to the smallest value that a sparkline of
/// `height` rows against `max` still draws with at least one level (it
/// floors `value * height * 8 / max`), so low but real readings show as a
/// sliver instead of vanishing; zero samples stay blank.
pub fn lift_visible(values: Vec<u64>, max: u64, height: u16) -> (r: Vec<u64>)
    ensures
        r@.len() == values@.len(),
        forall|i: int|
            0 <= i < values@.len() ==> r@[i] == lifted_sample(values@[i], max as nat, height as nat),
{
    let levels: u64 = height as u64 * 8;
    let min_visible: u64 = if levels == 0 {
        0
    } else {
        assert(max / levels <= max / 8) by {
            vstd::arithmetic::div_mod::lemma_div_is_ordered_by_denominator(max as int, 8, levels as int);
        }
        let c = if max % levels == 0 {
            max / levels
        } else {
            max / levels + 1
        };
        if c >= 1 {
            c
        } else {
            1
        }
    };
    let mut r: Vec<u64> = Vec::new();
    let mut i: usize = 0;
    while i < values.len()
        invariant
            i <= values@.len(),
            r@.len() == i,
            min_visible as nat == min_visible_value(max as nat, height as nat),
            forall|k: int| 0 <= k < i ==> r@[k] == lifted_sample(values@[k], max as nat, height as nat),
        decreases values@.len() - i,
    {
        let v = values[i];
        let w = if v > 0 && v < min_visible {
            min_visible
        } else {
            v
        };
        r.push(w);
        i = i + 1;
    }
    r
}

/// A nonzero sample, once lifted, reaches at least one of the sparkline's
/// `height * 8` levels: `lifted * height * 8 >= max`.
pub proof fn lemma_lifted_sample_is_visible(v: u64, max: nat, height: nat)
    requires
        v > 0,
        height > 0,
        max <= u64::MAX,
    ensures
        (lifted_sample(v, max, height) as nat) * (height * 8) >= max,
{
    let levels = height * 8;
    let c = ceil_div(max, levels);
    assert(c * levels >= max) by {
        vstd::arithmetic::div_mod::lemma_fundamental_div_mod(max as int, levels as int);
        assert(max == levels * (max / levels) + max % levels);
        if max % levels == 0 {
            assert(c * levels == levels * (max / levels)) by (nonlinear_arith)
                requires
                    c == max / levels,
            ;
        } else {
            assert(c * levels == levels * (max / levels) + levels) by (nonlinear_arith)
                requires
                    c == max / levels + 1,
            ;
        }
    }
    assert(c <= max) by {
        vstd::arithmetic::div_mod::lemma_div_is_ordered_by_denominator(max as int, 1, levels as int);
        if max % levels != 0 {
            assert(max / levels < max) by {
                assert(max > 0) by {
                    if max == 0 {
                        vstd::arithmetic::div_mod::lemma_mod_self_0(levels as int);
                        vstd::arithmetic::div_mod::lemma_small_mod(0, levels);
                    }
                }
                vstd::arithmetic::div_mod::lemma_div_is_ordered_by_denominator(max as int, 2, levels as int);
            }
        }
    }
    let l = lifted_sample(v, max, height) as nat;
    assert(l >= c) by {
        if c >= 1 {
            assert(min_visible_value(max, height) == c);
        }
    }
    assert(l * levels >= c * levels) by (nonlinear_arith)
        requires
            l >= c,
    ;
}

/// The filled and track cells of the `[start, end)` columns of a bar whose
/// first `filled` columns are filled.
pub open spec fn segment_cells(start: nat, end: nat, filled: nat) -> (nat, nat) {
    if start >= end {
        (0, 0)
    } else {
        let split = if filled < start {
            start
        } else if filled > end {
            end
        } else {
            filled
        };
        ((split - start) as nat, (end - split) as nat)
    }
}

/// Splits the `[start, end)` columns of a bar at the `filled` boundary: how
/// many of them are drawn filled and how many as track, so that a label can
/// sit on either side without losing the fill/track distinction.
pub fn bar_segment(start: usize, end: usize, filled: usize) -> (r: (usize, usize))
    ensures
        (r.0 as nat, r.1 as nat) == segment_cells(start as nat, end as nat, filled as nat),
{
    if start >= end {
        return (0, 0);
    }
    let split = if filled < start {
        start
    } else if filled > end {
        end
    } else {
        filled
    };
    (split - start, end - split)
}

/// Where a label of `label_chars` characters sits, centred, on a bar of
/// `width` columns: its first column and one past its last.
pub open spec fn label_span(width: nat, label_chars: nat) -> (nat, nat) {
    let len = if label_chars <= width {
        label_chars
    } else {
        width
    };
    let start = ((width - len) as nat) / 2;
    (start, start + len)
}

/// Where a label of `label_chars` characters sits, centred, on a bar of
/// `width` columns: its first column and one past its last.
pub fn label_bounds(width: usize, label_chars: usize) -> (r: (usize, usize))
    ensures
        (r.0 as nat, r.1 as nat) == label_span(width as nat, label_chars as nat),
{
    let len = if label_chars <= width {
        label_chars
    } else {
        width
    };
    let start = (width - len) / 2;
    (start, start + len)
}

/// A labelled bar is exactly as wide as the bar: the cells left of the
/// label, the label and the cells right of it add up to `width`, whatever
/// the fill.
pub proof fn lemma_labelled_bar_width(width: nat, label_chars: nat, filled: nat)
    ensures
        ({
            let (start, end) = label_span(width, label_chars);
            let (f0, t0) = segment_cells(0, start, filled);
            let (f1, t1) = segment_cells(end, width, filled);
            f0 + t0 + (end - start) + f1 + t1 == width
        }),
{
}

/// An unlabelled bar has `min(filled, width)` filled cells and the rest
/// track.
pub proof fn lemma_plain_bar_cells(width: nat, filled: nat)
    requires
        width > 0,
    ensures
        segment_cells(0, width, filled).0 == (if filled <= width {
            filled
        } else {
            width
        }),
        segment_cells(0, width, filled).0 + segment_cells(0, width, filled).1 == width,
{
}

/// How the process status is shown.
#[derive(Clone, Copy, Debug, PartialEq, Eq, Structural)]
pub enum StatusTone {
    /// The monitor is paused.
    Paused,
    /// The status is the process's own.
    Live,
}

/// The text and tone of the status badge: `PAUSED` in place of the process
/// status while the monitor is paused, since the status stops being
/// refreshed then.
pub fn status_display(paused: bool, status: &String) -> (r: (String, StatusTone))
    ensures
        paused ==> r.0@ == "PAUSED"@ && r.1 == StatusTone::Paused,
        !paused ==> r.0@ == status@ && r.1 == StatusTone::Live,
{
    if paused {
        (String::from_str("PAUSED"), StatusTone::Paused)
    } else {
        (status.clone(), StatusTone::Live)
    }
}

/// The elapsed-minutes suffix of the memory-trend badge: shown, at least 1,
/// while less than an hour of samples covers the trend.
pub fn trend_minutes(elapsed_secs: u64) -> (r: Option<u64>)
    ensures
        elapsed_secs >= 3600 ==> r is None,
        elapsed_secs < 3600 ==> r == Some(if elapsed_secs / 60 >= 1 {
            elapsed_secs / 60
        } else {
            1
        }),
{
    if elapsed_secs < 3600 {
        let m = elapsed_secs / 60;
        Some(if m >= 1 {
            m
        } else {
            1
        })
    } else {
        None
    }
}

/// Whether `c` separates the components of a path (`\` or `/`).
pub open spec fn is_path_separator(c: char) -> bool {
    c == '\\' || c == '/'
}

/// The completed components of `s` and the component still being read.
pub open spec fn path_parts_acc(s: Seq<char>) -> (Seq<Seq<char>>, Seq<char>)
    decreases s.len(),
{
    if s.len() == 0 {
        (Seq::empty(), Seq::empty())
    } else {
        let (done, cur) = path_parts_acc(s.drop_last());
        let c = s.last();
        if is_path_separator(c) {
            if cur.len() > 0 {
                (done.push(cur), Seq::empty())
            } else {
                (done, Seq::empty())
            }
        } else {
            (done, cur.push(c))
        }
    }
}

/// The non-empty components of path `s`, split at `\` and `/`.
pub open spec fn path_parts(s: Seq<char>) -> Seq<Seq<char>> {
    let (done, cur) = path_parts_acc(s);
    if cur.len() > 0 {
        done.push(cur)
    } else {
        done
    }
}

/// How `truncate_exe_path` shortens `s`: a path of more than three components
/// becomes `...\` and its last three components joined with `\`.
pub open spec fn truncated_path(s: Seq<char>) -> Seq<char> {
    let p = path_parts(s);
    let n = p.len();
    if n <= 3 {
        s
    } else {
        "...\\"@ + p[n - 3] + seq!['\\'] + p[n - 2] + seq!['\\'] + p[n - 1]
    }
}

/// `s` holds no path separator.
pub open spec fn no_separator(s: Seq<char>) -> bool {
    forall|i: int| 0 <= i < s.len() ==> !is_path_separator(#[trigger] s[i])
}

/// Components are non-empty and hold no separator.
proof fn lemma_parts_acc_shape(s: Seq<char>)
    ensures
        no_separator(path_parts_acc(s).1),
        forall|k: int|
            0 <= k < path_parts_acc(s).0.len() ==> (#[trigger] path_parts_acc(s).0[k]).len() > 0
                && no_separator(path_parts_acc(s).0[k]),
    decreases s.len(),
{
    if s.len() > 0 {
        lemma_parts_acc_shape(s.drop_last());
        let (done, cur) = path_parts_acc(s.drop_last());
        let c = s.last();
        if !is_path_separator(c) {
            assert(no_separator(cur.push(c))) by {
                assert forall|i: int| 0 <= i < cur.push(c).len() implies !is_path_separator(
                    #[trigger] cur.push(c)[i],
                ) by {
                    if i < cur.len() {
                        assert(cur.push(c)[i] == cur[i]);
                    }
                }
            }
        } else if cur.len() > 0 {
            assert forall|k: int| 0 <= k < done.push(cur).len() implies (#[trigger] done.push(
                cur,
            )[k]).len() > 0 && no_separator(done.push(cur)[k]) by {
                if k < done.len() {
                    assert(done.push(cur)[k] == done[k]);
                }
            }
        }
    }
}

/// The components of a path are non-empty and hold no separator.
proof fn lemma_parts_shape(s: Seq<char>)
    ensures
        forall|k: int|
            0 <= k < path_parts(s).len() ==> (#[trigger] path_parts(s)[k]).len() > 0 && no_separator(
                path_parts(s)[k],
            ),
{
    lemma_parts_acc_shape(s);
    let (done, cur) = path_parts_acc(s);
    if cur.len() > 0 {
        assert forall|k: int| 0 <= k < done.push(cur).len() implies (#[trigger] done.push(cur)[k]).len()
            > 0 && no_separator(done.push(cur)[k]) by {
            if k < done.len() {
                assert(done.push(cur)[k] == done[k]);
            }
        }
    }
}

/// Reading characters without a separator extends the current component.
proof fn lemma_parts_acc_append(a: Seq<char>, c: Seq<char>)
    requires
        no_separator(c),
    ensures
        path_parts_acc(a + c) == (path_parts_acc(a).0, path_parts_acc(a).1 + c),
    decreases c.len(),
{
    if c.len() == 0 {
        assert(a + c =~= a);
        assert(path_parts_acc(a).1 + c =~= path_parts_acc(a).1);
    } else {
        let c0 = c.drop_last();
        assert(no_separator(c0)) by {
            assert forall|i: int| 0 <= i < c0.len() implies !is_path_separator(#[trigger] c0[i]) by {
                assert(c0[i] == c[i]);
            }
        }
        lemma_parts_acc_append(a, c0);
        assert((a + c).drop_last() =~= a + c0);
        assert((a + c).last() == c.last());
        assert(!is_path_separator(c[c.len() - 1]));
        assert((path_parts_acc(a).1 + c0).push(c.last()) =~= path_parts_acc(a).1 + c);
    }
}

/// Reading a separator closes the current component, if any.
proof fn lemma_parts_acc_separator(a: Seq<char>)
    ensures
        path_parts_acc(a.push('\\')) == (if path_parts_acc(a).1.len() > 0 {
            (path_parts_acc(a).0.push(path_parts_acc(a).1), Seq::<char>::empty())
        } else {
            (path_parts_acc(a).0, Seq::<char>::empty())
        }),
{
    assert(a.push('\\').drop_last() =~= a);
}

/// Truncating a path twice gives the same as truncating it once: a
/// truncated path keeps exactly its last three components behind `...`.
pub proof fn lemma_truncate_idempotent(s: Seq<char>)
    ensures
        truncated_path(truncated_path(s)) == truncated_path(s),
{
    let p = path_parts(s);
    let n = p.len();
    if n > 3 {
        reveal_strlit("...\\");
        lemma_parts_shape(s);
        let p1 = p[n - 3];
        let p2 = p[n - 2];
        let p3 = p[n - 1];
        assert(p1.len() > 0 && no_separator(p1));
        assert(p2.len() > 0 && no_separator(p2));
        assert(p3.len() > 0 && no_separator(p3));
        let dots = seq!['.', '.', '.'];
        let empty = Seq::<char>::empty();
        assert(no_separator(dots));
        assert(path_parts_acc(empty) == (Seq::<Seq<char>>::empty(), empty));
        lemma_parts_acc_append(empty, dots);
        assert(empty + dots =~= dots);
        let a1 = dots.push('\\');
        lemma_parts_acc_separator(dots);
        lemma_parts_acc_append(a1, p1);
        let a2 = (a1 + p1).push('\\');
        lemma_parts_acc_separator(a1 + p1);
        lemma_parts_acc_append(a2, p2);
        let a3 = (a2 + p2).push('\\');
        lemma_parts_acc_separator(a2 + p2);
        lemma_parts_acc_append(a3, p3);
        let t = truncated_path(s);
        assert(t =~= a3 + p3);
        assert(empty + p1 =~= p1);
        assert(empty + p2 =~= p2);
        assert(empty + p3 =~= p3);
        let q = path_parts(t);
        assert(q =~= seq![dots, p1, p2, p3]);
        assert(truncated_path(t) =~= t);
    }
}

/// Shortens an executable path to its last two directories and its file name
/// (such as `...\Ascension\bin\worldserver.exe`), since full install paths
/// are often too long for a fixed-width panel.
pub fn truncate_exe_path(path: &str) -> (r: String)
    ensures
        r@ == truncated_path(path@),
{
    let n = path.unicode_len();
    let mut done: Vec<String> = Vec::new();
    let mut cur = String::new();
    let mut i: usize = 0;
    while i < n
        invariant
            n == path@.len(),
            i <= n,
            done@.map_values(|x: String| x@) == path_parts_acc(path@.subrange(0, i as int)).0,
            cur@ == path_parts_acc(path@.subrange(0, i as int)).1,
        decreases n - i,
    {
        let c = path.get_char(i);
        let ghost prefix = path@.subrange(0, i as int);
        let ghost next = path@.subrange(0, i as int + 1);
        assert(next.drop_last() =~= prefix);
        assert(next.last() == c);
        if c == '\\' || c == '/' {
            if cur.unicode_len() > 0 {
                let finished = cur;
                cur = String::new();
                let ghost old_done = done@;
                done.push(finished);
                assert(done@.map_values(|x: String| x@) =~= old_done.map_values(|x: String| x@).push(
                    finished@,
                ));
            } else {
                cur = String::new();
            }
            assert(cur@ =~= Seq::<char>::empty());
        } else {
            push_char(&mut cur, c);
        }
        i = i + 1;
    }
    assert(path@.subrange(0, n as int) =~= path@);
    let ghost parts = path_parts(path@);
    if cur.unicode_len() > 0 {
        let ghost old_done = done@;
        done.push(cur);
        assert(done@.map_values(|x: String| x@) =~= old_done.map_values(|x: String| x@).push(
            path_parts_acc(path@).1,
        ));
    }
    assert(done@.map_values(|x: String| x@) == parts);
    let k = done.len();
    if k <= 3 {
        return path.to_owned();
    }
    let mut r = String::new();
    r.append("...\\");
    r.append(done[k - 3].as_str());
    push_char(&mut r, '\\');
    r.append(done[k - 2].as_str());
    push_char(&mut r, '\\');
    r.append(done[k - 1].as_str());
    proof {
        let m = done@.map_values(|x: String| x@);
        assert(m[k - 3] == done@[k - 3]@);
        assert(m[k - 2] == done@[k - 2]@);
        assert(m[k - 1] == done@[k - 1]@);
    }
    assert(r@ =~= truncated_path(path@));
    r
}

/// The number `format_mb_as_gb` shows for `mb`, in tenths of a GB.
pub open spec fn shown_gb_tenths(mb: nat) -> nat {
    if 20 * mb_from_whole_gb(mb) < 1024 {
        rounded_gb(mb) * 10
    } else {
        round_half_even(mb * 10, 1024)
    }
}

/// The GB figure that `format_mb_as_gb` shows is within 0.05 GB of the true
/// value `mb / 1024`; it is a whole number exactly when the value is within
/// 0.05 GB of a whole number, and otherwise it has one decimal digit, which
/// is never 0.
pub proof fn lemma_gb_text_is_close(mb: nat)
    ensures
        shown_gb_tenths(mb) * 1024 <= mb * 10 + 512,
        mb * 10 <= shown_gb_tenths(mb) * 1024 + 512,
        20 * mb_from_whole_gb(mb) < 1024 ==> mb_as_gb_text(mb) == decimal(shown_gb_tenths(mb) / 10)
            + " GB"@,
        !(20 * mb_from_whole_gb(mb) < 1024) ==> {
            &&& mb_as_gb_text(mb) == one_decimal(shown_gb_tenths(mb)) + " GB"@
            &&& shown_gb_tenths(mb) % 10 != 0
        },
{
    let q = mb / 1024;
    let r = mb % 1024;
    assert(mb == q * 1024 + r);
    if 20 * mb_from_whole_gb(mb) < 1024 {
        assert(rounded_gb(mb) * 10 / 10 == rounded_gb(mb));
    } else {
        let t = round_half_even(mb * 10, 1024);
        let q2 = (mb * 10) / 1024;
        let r2 = (mb * 10) % 1024;
        assert(mb * 10 == q2 * 1024 + r2);
        assert(t * 1024 <= mb * 10 + 512 && mb * 10 <= t * 1024 + 512) by {
            if t == q2 {
                assert(t * 1024 == q2 * 1024);
            } else {
                assert((q2 + 1) * 1024 == q2 * 1024 + 1024) by (nonlinear_arith);
            }
        }
        if t % 10 == 0 {
            // a whole number g of GB within 0.05 GB of the value: then the
            // value is near a whole number, which this branch excludes
            let g = t / 10;
            assert(t == g * 10);
            assert(g * 10240 <= mb * 10 + 512 && mb * 10 <= g * 10240 + 512) by (nonlinear_arith)
                requires
                    t == g * 10,
                    t * 1024 <= mb * 10 + 512,
                    mb * 10 <= t * 1024 + 512,
            ;
            assert(g * 1024 <= mb + 51 && mb <= g * 1024 + 51);
            if mb >= g * 1024 {
                let e = mb - g * 1024;
                vstd::arithmetic::div_mod::lemma_fundamental_div_mod_converse(
                    mb as int,
                    1024,
                    g as int,
                    e as int,
                );
                assert(r == e);
            } else {
                let e = g * 1024 - mb;
                assert(g >= 1);
                vstd::arithmetic::div_mod::lemma_fundamental_div_mod_converse(
                    mb as int,
                    1024,
                    (g - 1) as int,
                    (1024 - e) as int,
                );
                assert(r == 1024 - e);
            }
            assert(false);
        }
    }
}

/// A whole number of GB is written as that number: `g * 1024` MB gives
/// `g GB`.
pub proof fn lemma_whole_gb_text(g: nat)
    ensures
        mb_as_gb_text(g * 1024) == decimal(g) + " GB"@,
{
    assert((g * 1024) % 1024 == 0) by {
        vstd::arithmetic::div_mod::lemma_mod_multiples_basic(g as int, 1024);
    }
    assert((g * 1024) / 1024 == g) by {
        vstd::arithmetic::div_mod::lemma_div_multiples_vanish(g as int, 1024);
    }
}

} // verus!
