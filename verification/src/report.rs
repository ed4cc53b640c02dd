//! Formats a [`Summary`] for the shell.
//!
//! Plain text rather than the ANSI the test screen uses, so the output
//! survives being piped into a pager or a file. Figures are rounded exactly
//! from the summary's totals: half a unit rounds away from zero.
use vstd::prelude::*;

use crate::number::{lemma_rounded_up_half, round_ratio, rounded, rounded_up_half};
use crate::datetime::{parse_date, parse_date_spec, Date};
use crate::render::spaces;
use crate::summary::{humanize_ms, humanize_spec, Slip, Summary, TroubleKey, ConfigSummary};
use crate::text::{
    char_count, decimal, decimal_u64, decimal_i64, join, joined, owned, push_char, push_str,
    signed_decimal, string_views,
};

verus! {

/// The width labels are padded to.
pub const LABEL_WIDTH: usize = 16;

/// The column a note starts at, counted from the value.
pub const VALUE_WIDTH: usize = 10;

/// The least space allowed between a value and the note beside it.
pub const MIN_GAP: usize = 2;

/// `text` padded with spaces on the right to `width` characters.
pub open spec fn pad_right_spec(text: Seq<char>, width: int) -> Seq<char> {
    text + spaces(width - text.len())
}

/// `text` padded with spaces on the left to `width` characters.
pub open spec fn pad_left_spec(text: Seq<char>, width: int) -> Seq<char> {
    spaces(width - text.len()) + text
}

fn space_run(n: usize) -> (s: String)
    ensures
        s@ == spaces(n as int),
{
    let mut out = String::new();
    let mut i: usize = 0;
    while i < n
        invariant
            i <= n,
            out@ == spaces(i as int),
        decreases n - i,
    {
        push_char(&mut out, ' ');
        i = i + 1;
        assert(out@ =~= spaces(i as int));
    }
    out
}

fn pad_right(text: &str, width: usize) -> (s: String)
    ensures
        s@ == pad_right_spec(text@, width as int),
{
    let n = char_count(text);
    let mut out = owned(text);
    if n < width {
        push_str(&mut out, space_run(width - n).as_str());
    } else {
        assert(spaces(width - n) =~= Seq::<char>::empty());
        assert(out@ =~= pad_right_spec(text@, width as int));
    }
    out
}

fn pad_left(text: &str, width: usize) -> (s: String)
    ensures
        s@ == pad_left_spec(text@, width as int),
{
    let n = char_count(text);
    let mut out = if n < width {
        space_run(width - n)
    } else {
        assert(spaces(width - n) =~= Seq::<char>::empty());
        String::new()
    };
    push_str(&mut out, text);
    out
}

/// A labelled row. A note usually starts at a fixed column, but a value
/// wider than that column is followed by a gap all the same.
pub open spec fn row_spec(label: Seq<char>, value: Seq<char>, note: Option<Seq<char>>) -> Seq<char> {
    let start = "  "@ + pad_right_spec(label, LABEL_WIDTH as int) + value;
    match note {
        None => start,
        Some(n) => {
            let gap = if VALUE_WIDTH - value.len() > MIN_GAP {
                VALUE_WIDTH - value.len()
            } else {
                MIN_GAP as int
            };
            start + spaces(gap) + n
        },
    }
}

pub fn row(label: &str, value: &str, note: Option<&str>) -> (s: String)
    ensures
        s@ == row_spec(
            label@,
            value@,
            match note {
                Some(n) => Some(n@),
                None => None,
            },
        ),
{
    let mut out = owned("  ");
    push_str(&mut out, pad_right(label, LABEL_WIDTH).as_str());
    push_str(&mut out, value);
    match note {
        None => {},
        Some(n) => {
            let width = char_count(value);
            let room = if width < VALUE_WIDTH {
                VALUE_WIDTH - width
            } else {
                0
            };
            let gap = if room > MIN_GAP {
                room
            } else {
                MIN_GAP
            };
            push_str(&mut out, space_run(gap).as_str());
            push_str(&mut out, n);
        },
    }
    out
}

/// A number with a comma before each group of three digits from the right.
pub open spec fn commify_spec(n: nat) -> Seq<char>
    decreases n,
{
    if n < 1000 {
        decimal(n)
    } else {
        commify_spec(n / 1000) + seq![','] + pad_zero3(n % 1000)
    }
}

/// Three digits, zero-padded.
pub open spec fn pad_zero3(n: nat) -> Seq<char> {
    Seq::new((3 - decimal(n).len()) as nat, |i: int| '0') + decimal(n)
}

proof fn lemma_decimal_len(n: nat)
    ensures
        1 <= decimal(n).len(),
        n < 10 ==> decimal(n).len() == 1,
        10 <= n < 100 ==> decimal(n).len() == 2,
        100 <= n < 1000 ==> decimal(n).len() == 3,
    decreases n,
{
    if n >= 10 {
        lemma_decimal_len(n / 10);
    }
}

fn three_digits(n: u64) -> (s: String)
    requires
        n < 1000,
    ensures
        s@ == pad_zero3(n as nat),
{
    proof {
        lemma_decimal_len(n as nat);
    }
    let digits = decimal_u64(n);
    let mut out = String::new();
    if n < 100 {
        push_char(&mut out, '0');
    }
    if n < 10 {
        push_char(&mut out, '0');
    }
    push_str(&mut out, digits.as_str());
    assert(out@ =~= pad_zero3(n as nat));
    out
}

/// Groups thousands so long numbers can be read at a glance.
pub fn commify(number: u64) -> (s: String)
    ensures
        s@ == commify_spec(number as nat),
    decreases number,
{
    if number < 1000 {
        decimal_u64(number)
    } else {
        let mut out = commify(number / 1000);
        push_char(&mut out, ',');
        push_str(&mut out, three_digits(number % 1000).as_str());
        out
    }
}

/// A count and a noun, the noun in the plural unless the count is one.
pub open spec fn pluralize_spec(count: nat, noun: Seq<char>) -> Seq<char> {
    if count == 1 {
        "1 "@ + noun
    } else {
        commify_spec(count) + " "@ + noun + "s"@
    }
}

pub fn pluralize(count: u64, noun: &str) -> (s: String)
    ensures
        s@ == pluralize_spec(count as nat, noun@),
{
    if count == 1 {
        let mut out = owned("1 ");
        push_str(&mut out, noun);
        out
    } else {
        let mut out = commify(count);
        push_str(&mut out, " ");
        push_str(&mut out, noun);
        push_str(&mut out, "s");
        out
    }
}

/// Space and punctuation need naming, or the column silently swallows them.
pub open spec fn display_key_spec(key: char) -> Seq<char> {
    if key == ' ' {
        "space"@
    } else {
        seq![key]
    }
}

pub fn display_key(key: char) -> (s: String)
    ensures
        s@ == display_key_spec(key),
{
    if key == ' ' {
        owned("space")
    } else {
        let mut out = String::new();
        push_char(&mut out, key);
        assert(out@ =~= seq![key]);
        out
    }
}

/// The note on the days practised: nothing for no streak.
pub open spec fn streak_note_spec(days: u32) -> Option<Seq<char>> {
    if days == 0 {
        None
    } else if days == 1 {
        Some("typed today"@)
    } else {
        Some(decimal(days as nat) + " day streak"@)
    }
}

pub fn streak_note(days: u32) -> (s: Option<String>)
    ensures
        match s {
            Some(t) => streak_note_spec(days) == Some(t@),
            None => streak_note_spec(days) is None,
        },
{
    if days == 0 {
        None
    } else if days == 1 {
        Some(owned("typed today"))
    } else {
        let mut out = decimal_u64(days as u64);
        push_str(&mut out, " day streak");
        Some(out)
    }
}

/// How long ago a timestamp was, as a person would say it; a timestamp that
/// cannot be read is shown as it is.
pub open spec fn ago_spec(at: Seq<char>, today: Date) -> Seq<char> {
    match parse_date_spec(at) {
        None => at,
        Some(date) => {
            let days = today.days_spec() - date.days_spec();
            if days == 0 {
                "today"@
            } else if days == 1 {
                "yesterday"@
            } else if days < 30 {
                signed_decimal(days) + " days ago"@
            } else {
                decimal((days / 30) as nat) + " months ago"@
            }
        },
    }
}

pub fn ago(at: &str, today: Date) -> (s: String)
    ensures
        s@ == ago_spec(at@, today),
{
    match parse_date(at) {
        None => owned(at),
        Some(date) => {
            let days = today.diff(date);
            if days == 0 {
                owned("today")
            } else if days == 1 {
                owned("yesterday")
            } else if days < 30 {
                let mut out = decimal_i64(days);
                push_str(&mut out, " days ago");
                out
            } else {
                let mut out = decimal_u64((days / 30) as u64);
                push_str(&mut out, " months ago");
                out
            }
        },
    }
}

/// A signed integer in decimal, as an exec string.
fn signed_text(n: i128) -> (s: String)
    requires
        -0x8000_0000_0000_0000 <= n <= 0x7FFF_FFFF_FFFF_FFFF,
    ensures
        s@ == signed_decimal(n as int),
{
    decimal_i64(n as i64)
}

/// A speed in whole words a minute from a total of hundredths over `count`
/// tests, or `--` when there are none.
pub open spec fn speed_spec(total: int, count: int) -> Seq<char> {
    if count == 0 {
        "--"@
    } else {
        signed_decimal(rounded(total, count * 100)) + " wpm"@
    }
}

/// Whether a total of hundredths over a count can be rounded in range.
pub open spec fn total_fits(total: int, count: int) -> bool {
    0 <= count < 0x4000_0000_0000_0000 && -0x8000_0000_0000_0000 * count <= total
        <= 0x7FFF_FFFF_FFFF_FFFF * count
}

proof fn lemma_rounded_bound(total: int, d: int, count: int)
    requires
        total_fits(total, count),
        count > 0,
        d >= count,
    ensures
        -0x8000_0000_0000_0000 <= rounded(total, d) <= 0x7FFF_FFFF_FFFF_FFFF,
{
    assert(0x7FFF_FFFF_FFFF_FFFF * count <= 0x7FFF_FFFF_FFFF_FFFF * d) by (nonlinear_arith)
        requires
            0 < count <= d,
    ;
    assert(0x8000_0000_0000_0000 * count <= 0x8000_0000_0000_0000 * d) by (nonlinear_arith)
        requires
            0 < count <= d,
    ;
    if total >= 0 {
        lemma_rounded_up_half(total, d, 0x7FFF_FFFF_FFFF_FFFF);
    } else {
        lemma_rounded_up_half(-total, d, 0x8000_0000_0000_0000);
    }
}

fn speed_text(total: i128, count: usize) -> (s: String)
    requires
        total_fits(total as int, count as int),
    ensures
        s@ == speed_spec(total as int, count as int),
{
    if count == 0 {
        return owned("--");
    }
    proof {
        lemma_rounded_bound(total as int, count as int * 100, count as int);
    }
    let mut out = signed_text(round_ratio(total, count as i128 * 100));
    push_str(&mut out, " wpm");
    out
}

/// Tenths in decimal with one digit after the point.
pub open spec fn tenths_text(t: int) -> Seq<char> {
    let magnitude = if t < 0 {
        -t
    } else {
        t
    };
    (if t < 0 {
        "-"@
    } else {
        Seq::empty()
    }) + decimal((magnitude / 10) as nat) + "."@ + decimal((magnitude % 10) as nat)
}

fn tenths(t: i128) -> (s: String)
    requires
        -0x8000_0000_0000_0000 <= t <= 0x7FFF_FFFF_FFFF_FFFF,
    ensures
        s@ == tenths_text(t as int),
{
    let magnitude: u64 = if t < 0 {
        (-t) as u64
    } else {
        t as u64
    };
    let mut out = if t < 0 {
        owned("-")
    } else {
        String::new()
    };
    push_str(&mut out, decimal_u64(magnitude / 10).as_str());
    push_str(&mut out, ".");
    push_str(&mut out, decimal_u64(magnitude % 10).as_str());
    out
}

/// A percentage to one decimal from a total of hundredths of a percent over
/// `count` tests, or `--` when there are none.
pub open spec fn percent_spec(total: int, count: int) -> Seq<char> {
    if count == 0 {
        "--"@
    } else {
        tenths_text(rounded(total, count * 10)) + "%"@
    }
}

fn percent_text(total: i128, count: usize) -> (s: String)
    requires
        total_fits(total as int, count as int),
    ensures
        s@ == percent_spec(total as int, count as int),
{
    if count == 0 {
        return owned("--");
    }
    proof {
        lemma_rounded_bound(total as int, count as int * 10, count as int);
    }
    let mut out = tenths(round_ratio(total, count as i128 * 10));
    push_str(&mut out, "%");
    out
}

/// A letter's accuracy, `(attempts - errors) / attempts`, as a percentage to
/// one decimal.
pub open spec fn accuracy_spec(key: TroubleKey) -> Seq<char> {
    tenths_text(rounded((key.attempts - key.errors) * 1000, key.attempts as int)) + "%"@
}

fn accuracy_text(key: &TroubleKey) -> (s: String)
    requires
        0 < key.errors <= key.attempts,
    ensures
        s@ == accuracy_spec(*key),
{
    let n: i128 = (key.attempts - key.errors) as i128 * 1000;
    let r = round_ratio(n, key.attempts as i128);
    proof {
        lemma_rounded_up_half(n as int, key.attempts as int, 1000);
    }
    let mut out = tenths(r);
    push_str(&mut out, "%");
    out
}

/// The change over the ten tests before, in whole words a minute, from the
/// difference of two ten-test totals of hundredths.
pub open spec fn improvement_spec(delta: Option<i128>) -> Option<Seq<char>> {
    match delta {
        None => None,
        Some(d) => {
            let r = rounded(d as int, 1000);
            Some(
                (if r >= 0 {
                    "+"@
                } else {
                    Seq::empty()
                }) + signed_decimal(r) + " on the 10 before"@,
            )
        },
    }
}

/// The improvement note gives the change in the average speed, in whole
/// words a minute: for a difference `d` of two ten-test totals of
/// hundredths, the averages differ by `d / 1000` words a minute, and the
/// note shows the whole number nearest it, with a `+` when it is not
/// negative.
pub proof fn lemma_improvement_is_the_change_of_average(d: i128)
    ensures
        exists|n: int|
            -500 <= d - 1000 * n <= 500 && improvement_spec(Some(d)) == Some(
                (if n >= 0 {
                    "+"@
                } else {
                    Seq::empty()
                }) + signed_decimal(n) + " on the 10 before"@,
            ),
{
    let r = rounded(d as int, 1000);
    if d >= 0 {
        vstd::arithmetic::div_mod::lemma_fundamental_div_mod(d as int, 1000);
    } else {
        vstd::arithmetic::div_mod::lemma_fundamental_div_mod(-(d as int), 1000);
    }
    assert(-500 <= d - 1000 * r <= 500 && improvement_spec(Some(d)) == Some(
        (if r >= 0 {
            "+"@
        } else {
            Seq::empty()
        }) + signed_decimal(r) + " on the 10 before"@,
    ));
}

fn improvement_text(delta: Option<i128>) -> (s: Option<String>)
    requires
        delta matches Some(d) ==> -0x10_0000_0000_0000_0000 <= d <= 0x10_0000_0000_0000_0000,
    ensures
        match s {
            Some(t) => improvement_spec(delta) == Some(t@),
            None => improvement_spec(delta) is None,
        },
{
    match delta {
        None => None,
        Some(d) => {
            let r = round_ratio(d, 1000);
            proof {
                let bound = 0x10_0000_0000_0000_0000int / 1000 + 1;
                if d >= 0 {
                    lemma_rounded_up_half(d as int, 1000, bound);
                    assert(r == rounded_up_half(d as int, 1000));
                } else {
                    lemma_rounded_up_half(-(d as int), 1000, bound);
                    assert(r == -rounded_up_half(-(d as int), 1000));
                }
                assert(-0x8000_0000_0000_0000 <= r <= 0x7FFF_FFFF_FFFF_FFFF);
            }
            let mut out = if r >= 0 {
                owned("+")
            } else {
                String::new()
            };
            push_str(&mut out, signed_text(r).as_str());
            push_str(&mut out, " on the 10 before");
            Some(out)
        },
    }
}

/// The marks of a sparkline, lowest first.
pub open spec fn sparks() -> Seq<char> {
    seq!['▁', '▂', '▃', '▄', '▅', '▆', '▇', '█']
}

pub open spec fn min_of(values: Seq<i64>) -> int
    decreases values.len(),
{
    if values.len() == 0 {
        0
    } else if values.len() == 1 {
        values[0] as int
    } else {
        let m = min_of(values.drop_last());
        if values.last() < m {
            values.last() as int
        } else {
            m
        }
    }
}

pub open spec fn max_of(values: Seq<i64>) -> int
    decreases values.len(),
{
    if values.len() == 0 {
        0
    } else if values.len() == 1 {
        values[0] as int
    } else {
        let m = max_of(values.drop_last());
        if values.last() > m {
            values.last() as int
        } else {
            m
        }
    }
}

proof fn lemma_extremes(values: Seq<i64>)
    requires
        values.len() > 0,
    ensures
        forall|i: int| 0 <= i < values.len() ==> min_of(values) <= #[trigger] values[i] <= max_of(values),
        i64::MIN <= min_of(values) <= max_of(values) <= i64::MAX,
    decreases values.len(),
{
    if values.len() > 1 {
        lemma_extremes(values.drop_last());
        assert forall|i: int| 0 <= i < values.len() implies min_of(values) <= #[trigger] values[i]
            <= max_of(values) by {
            if i < values.len() - 1 {
                assert(values.drop_last()[i] == values[i]);
            }
        }
    }
}

/// The mark for one value: its place between the lowest and the highest, in
/// eighths; a flat run sits in the middle.
pub open spec fn spark_of(v: int, low: int, high: int) -> char {
    if high == low {
        sparks()[4]
    } else {
        let step = (v - low) * 8 / (high - low);
        sparks()[if step < 7 {
            step
        } else {
            7
        }]
    }
}

/// Draws values as a one-line sparkline. The scale spans the values
/// themselves rather than starting at zero, so small differences between
/// good scores stay visible.
pub open spec fn sparkline_spec(values: Seq<i64>) -> Seq<char> {
    Seq::new(values.len(), |i: int| spark_of(values[i] as int, min_of(values), max_of(values)))
}

fn extremes(values: &[i64]) -> (r: (i64, i64))
    requires
        values@.len() > 0,
    ensures
        r.0 == min_of(values@),
        r.1 == max_of(values@),
{
    let mut low = values[0];
    let mut high = values[0];
    let mut i: usize = 1;
    while i < values.len()
        invariant
            1 <= i <= values@.len(),
            low == min_of(values@.take(i as int)),
            high == max_of(values@.take(i as int)),
        decreases values@.len() - i,
    {
        let ghost next = values@.take(i + 1);
        assert(next.drop_last() =~= values@.take(i as int));
        if values[i] < low {
            low = values[i];
        }
        if values[i] > high {
            high = values[i];
        }
        i = i + 1;
    }
    assert(values@.take(i as int) =~= values@);
    (low, high)
}

pub fn sparkline(values: &[i64]) -> (s: String)
    ensures
        s@ == sparkline_spec(values@),
{
    if values.len() == 0 {
        assert(sparkline_spec(values@) =~= Seq::<char>::empty());
        return String::new();
    }
    let (low, high) = extremes(values);
    proof {
        lemma_extremes(values@);
    }
    let marks: [char; 8] = ['▁', '▂', '▃', '▄', '▅', '▆', '▇', '█'];
    assert(marks@ =~= sparks());
    let mut out = String::new();
    let mut i: usize = 0;
    while i < values.len()
        invariant
            i <= values@.len(),
            marks@ == sparks(),
            low == min_of(values@),
            high == max_of(values@),
            forall|j: int| 0 <= j < values@.len() ==> low <= #[trigger] values@[j] <= high,
            out@ == sparkline_spec(values@).take(i as int),
        decreases values@.len() - i,
    {
        let mark = if high == low {
            marks[4]
        } else {
            let offset = (values[i] as i128 - low as i128) * 8;
            let span = high as i128 - low as i128;
            let step = offset / span;
            assert(0 <= step <= 8) by (nonlinear_arith)
                requires
                    step == offset / span,
                    0 <= offset <= span * 8,
                    span > 0,
            ;
            marks[if step < 7 {
                step as usize
            } else {
                7
            }]
        };
        push_char(&mut out, mark);
        i = i + 1;
        assert(out@ =~= sparkline_spec(values@).take(i as int));
    }
    assert(sparkline_spec(values@).take(values@.len() as int) =~= sparkline_spec(values@));
    out
}

/// The first line: how many tests, how long, how many words.
pub open spec fn headline_spec(summary: Summary) -> Seq<char> {
    "typr — "@ + pluralize_spec(summary.tests as nat, "test"@) + " · "@ + humanize_spec(
        summary.typing_ms as int,
    ) + " typing · "@ + commify_spec(summary.words_typed as nat) + " words"@
}

/// Whether a summary's totals can be shown: each is in range for the count
/// it is over, the improvement is a difference of two ten-test totals, and
/// every trouble key has at least one error and no more errors than
/// attempts.
pub open spec fn showable(summary: Summary) -> bool {
    &&& total_fits(summary.wpm_total as int, summary.tests as int)
    &&& total_fits(summary.accuracy_total as int, summary.tests as int)
    &&& total_fits(summary.consistency_total as int, summary.consistency_count as int)
    &&& total_fits(summary.recent_total as int, summary.recent_count as int)
    &&& summary.improvement matches Some(d) ==> -0x10_0000_0000_0000_0000 <= d
        <= 0x10_0000_0000_0000_0000
    &&& forall|i: int|
        0 <= i < summary.by_config@.len() ==> (#[trigger] summary.by_config@[i]).tests > 0
            && total_fits(summary.by_config@[i].total as int, summary.by_config@[i].tests as int)
    &&& forall|i: int|
        0 <= i < summary.trouble_keys@.len() ==> 0 < (#[trigger] summary.trouble_keys@[i]).errors
            <= summary.trouble_keys@[i].attempts
}

/// A speed in hundredths, rounded to whole words a minute.
pub open spec fn whole_speed(hundredths: int) -> Seq<char> {
    signed_decimal(rounded(hundredths, 100))
}

fn whole_speed_text(hundredths: i64) -> (s: String)
    ensures
        s@ == whole_speed(hundredths as int),
{
    proof {
        if hundredths >= 0 {
            lemma_rounded_up_half(hundredths as int, 100, 0x7FFF_FFFF_FFFF_FFFF);
        } else {
            lemma_rounded_up_half(-(hundredths as int), 100, 0x8000_0000_0000_0000);
        }
    }
    signed_text(round_ratio(hundredths as i128, 100))
}

/// The overview rows: best, averages, accuracy, consistency, days
/// practised and the last test.
pub open spec fn overview_spec(summary: Summary, today: Date) -> Seq<Seq<char>> {
    (match summary.best {
        Some(b) => seq![
            row_spec(
                "best"@,
                whole_speed(b.wpm as int) + " wpm"@,
                Some(b.config@ + ", "@ + ago_spec(b.at@, today)),
            ),
        ],
        None => Seq::empty(),
    }) + seq![
        row_spec("average"@, speed_spec(summary.wpm_total as int, summary.tests as int), None),
        row_spec(
            "last 10"@,
            speed_spec(summary.recent_total as int, summary.recent_count as int),
            improvement_spec(summary.improvement),
        ),
        row_spec("accuracy"@, percent_spec(summary.accuracy_total as int, summary.tests as int), None),
        row_spec(
            "consistency"@,
            percent_spec(summary.consistency_total as int, summary.consistency_count as int),
            None,
        ),
        row_spec(
            "practised"@,
            pluralize_spec(summary.days_practiced as nat, "day"@),
            streak_note_spec(summary.streak),
        ),
        row_spec(
            "last test"@,
            match summary.last_at {
                Some(a) => ago_spec(a@, today),
                None => "never"@,
            },
            None,
        ),
    ]
}

fn overview(summary: &Summary, today: Date) -> (lines: Vec<String>)
    requires
        showable(*summary),
    ensures
        string_views(lines@) == overview_spec(*summary, today),
{
    let mut lines: Vec<String> = Vec::new();
    match &summary.best {
        Some(b) => {
            let mut value = whole_speed_text(b.wpm);
            push_str(&mut value, " wpm");
            let mut note = owned(b.config.as_str());
            push_str(&mut note, ", ");
            push_str(&mut note, ago(b.at.as_str(), today).as_str());
            lines.push(row("best", value.as_str(), Some(note.as_str())));
        },
        None => {},
    }
    let ghost head = string_views(lines@);
    lines.push(row("average", speed_text(summary.wpm_total, summary.tests).as_str(), None));
    let improvement = improvement_text(summary.improvement);
    let note = match &improvement {
        Some(t) => Some(t.as_str()),
        None => None,
    };
    lines.push(
        row("last 10", speed_text(summary.recent_total, summary.recent_count).as_str(), note),
    );
    lines.push(row("accuracy", percent_text(summary.accuracy_total, summary.tests).as_str(), None));
    lines.push(
        row(
            "consistency",
            percent_text(summary.consistency_total, summary.consistency_count).as_str(),
            None,
        ),
    );
    let streak = streak_note(summary.streak);
    let note = match &streak {
        Some(t) => Some(t.as_str()),
        None => None,
    };
    lines.push(row("practised", pluralize(summary.days_practiced as u64, "day").as_str(), note));
    let last = match &summary.last_at {
        Some(a) => ago(a.as_str(), today),
        None => owned("never"),
    };
    lines.push(row("last test", last.as_str(), None));
    assert(string_views(lines@) =~= overview_spec(*summary, today));
    lines
}

/// The sparkline of recent speeds, with their range, when there are at
/// least two.
pub open spec fn trend_spec(summary: Summary) -> Seq<Seq<char>> {
    if summary.trend@.len() < 2 {
        Seq::empty()
    } else {
        seq![
            Seq::empty(),
            row_spec(
                "recent"@,
                sparkline_spec(summary.trend@),
                Some(
                    whole_speed(min_of(summary.trend@)) + "–"@ + whole_speed(max_of(summary.trend@))
                        + " wpm"@,
                ),
            ),
        ]
    }
}

fn trend(summary: &Summary) -> (lines: Vec<String>)
    ensures
        string_views(lines@) == trend_spec(*summary),
{
    let mut lines: Vec<String> = Vec::new();
    if summary.trend.len() < 2 {
        assert(string_views(lines@) =~= trend_spec(*summary));
        return lines;
    }
    let (low, high) = extremes(summary.trend.as_slice());
    let mut note = whole_speed_text(low);
    push_str(&mut note, "–");
    push_str(&mut note, whole_speed_text(high).as_str());
    push_str(&mut note, " wpm");
    lines.push(String::new());
    lines.push(row("recent", sparkline(summary.trend.as_slice()).as_str(), Some(note.as_str())));
    assert(string_views(lines@) =~= trend_spec(*summary));
    lines
}

/// The widest configuration name.
pub open spec fn name_width(groups: Seq<ConfigSummary>) -> int
    decreases groups.len(),
{
    if groups.len() == 0 {
        0
    } else {
        let w = name_width(groups.drop_last());
        if groups.last().config@.len() > w {
            groups.last().config@.len() as int
        } else {
            w
        }
    }
}

/// One configuration's line: name, tests, best and average.
pub open spec fn config_line(g: ConfigSummary, width: int) -> Seq<char> {
    "  "@ + pad_right_spec(g.config@, width) + "  "@ + pad_left_spec(decimal(g.tests as nat), 4)
        + " "@ + (if g.tests == 1 {
        "test "@
    } else {
        "tests"@
    }) + "   best "@ + pad_left_spec(whole_speed(g.best as int), 3) + "   avg "@ + pad_left_spec(
        signed_decimal(rounded(g.total as int, g.tests * 100)),
        3,
    )
}

pub open spec fn by_config_spec(summary: Summary) -> Seq<Seq<char>> {
    let groups = summary.by_config@;
    let width = name_width(groups);
    seq![Seq::empty(), "by test"@] + groups.map_values(|g: ConfigSummary| config_line(g, width))
}

fn by_config(summary: &Summary) -> (lines: Vec<String>)
    requires
        showable(*summary),
    ensures
        string_views(lines@) == by_config_spec(*summary),
{
    let groups = &summary.by_config;
    let mut width: usize = 0;
    let mut i: usize = 0;
    while i < groups.len()
        invariant
            i <= groups@.len(),
            width == name_width(groups@.take(i as int)),
        decreases groups@.len() - i,
    {
        let ghost next = groups@.take(i + 1);
        assert(next.drop_last() =~= groups@.take(i as int));
        let n = char_count(groups[i].config.as_str());
        if n > width {
            width = n;
        }
        i = i + 1;
    }
    assert(groups@.take(i as int) =~= groups@);
    let mut lines: Vec<String> = Vec::new();
    lines.push(String::new());
    lines.push(owned("by test"));
    let ghost head = string_views(lines@);
    let mut k: usize = 0;
    while k < groups.len()
        invariant
            showable(*summary),
            groups == &summary.by_config,
            width == name_width(groups@),
            k <= groups@.len(),
            head == seq![Seq::<char>::empty(), "by test"@],
            string_views(lines@) == head + groups@.take(k as int).map_values(
                |g: ConfigSummary| config_line(g, width as int),
            ),
        decreases groups@.len() - k,
    {
        let g = &groups[k];
        assert(g.tests > 0 && total_fits(g.total as int, g.tests as int));
        proof {
            lemma_rounded_bound(g.total as int, g.tests as int * 100, g.tests as int);
        }
        let mut line = owned("  ");
        push_str(&mut line, pad_right(g.config.as_str(), width).as_str());
        push_str(&mut line, "  ");
        push_str(&mut line, pad_left(decimal_u64(g.tests as u64).as_str(), 4).as_str());
        push_str(&mut line, " ");
        push_str(
            &mut line,
            if g.tests == 1 {
                "test "
            } else {
                "tests"
            },
        );
        push_str(&mut line, "   best ");
        push_str(&mut line, pad_left(whole_speed_text(g.best).as_str(), 3).as_str());
        push_str(&mut line, "   avg ");
        let average = signed_text(round_ratio(g.total, g.tests as i128 * 100));
        push_str(&mut line, pad_left(average.as_str(), 3).as_str());
        assert(line@ =~= config_line(*g, width as int));
        let ghost before = string_views(lines@);
        let ghost text = line@;
        lines.push(line);
        assert(string_views(lines@) =~= before.push(text));
        assert(groups@.take(k + 1).map_values(|g: ConfigSummary| config_line(g, width as int))
            =~= groups@.take(k as int).map_values(|g: ConfigSummary| config_line(g, width as int)).push(text));
        k = k + 1;
        assert(string_views(lines@) =~= head + groups@.take(k as int).map_values(
            |g: ConfigSummary| config_line(g, width as int),
        ));
    }
    assert(groups@.take(groups@.len() as int) =~= groups@);
    assert(string_views(lines@) =~= by_config_spec(*summary));
    lines
}

/// One trouble key's line.
pub open spec fn trouble_line(key: TroubleKey) -> Seq<char> {
    "  "@ + display_key_spec(key.key) + "   "@ + pad_left_spec(accuracy_spec(key), 6) + "   "@
        + commify_spec(key.errors as nat) + " missed of "@ + commify_spec(key.attempts as nat)
}

pub open spec fn trouble_spec(summary: Summary) -> Seq<Seq<char>> {
    if summary.trouble_keys@.len() == 0 {
        Seq::empty()
    } else {
        seq![Seq::empty(), "trouble keys"@] + summary.trouble_keys@.map_values(
            |k: TroubleKey| trouble_line(k),
        )
    }
}

fn trouble(summary: &Summary) -> (lines: Vec<String>)
    requires
        showable(*summary),
    ensures
        string_views(lines@) == trouble_spec(*summary),
{
    let keys = &summary.trouble_keys;
    let mut lines: Vec<String> = Vec::new();
    if keys.len() == 0 {
        assert(string_views(lines@) =~= trouble_spec(*summary));
        return lines;
    }
    lines.push(String::new());
    lines.push(owned("trouble keys"));
    let ghost head = string_views(lines@);
    let mut k: usize = 0;
    while k < keys.len()
        invariant
            showable(*summary),
            keys == &summary.trouble_keys,
            k <= keys@.len(),
            head == seq![Seq::<char>::empty(), "trouble keys"@],
            string_views(lines@) == head + keys@.take(k as int).map_values(|t: TroubleKey| trouble_line(t)),
        decreases keys@.len() - k,
    {
        let key = &keys[k];
        assert(0 < key.errors <= key.attempts);
        let mut line = owned("  ");
        push_str(&mut line, display_key(key.key).as_str());
        push_str(&mut line, "   ");
        push_str(&mut line, pad_left(accuracy_text(key).as_str(), 6).as_str());
        push_str(&mut line, "   ");
        push_str(&mut line, commify(key.errors as u64).as_str());
        push_str(&mut line, " missed of ");
        push_str(&mut line, commify(key.attempts as u64).as_str());
        assert(line@ =~= trouble_line(*key));
        let ghost before = string_views(lines@);
        let ghost text = line@;
        lines.push(line);
        assert(string_views(lines@) =~= before.push(text));
        assert(keys@.take(k + 1).map_values(|t: TroubleKey| trouble_line(t)) =~= keys@.take(k as int).map_values(
            |t: TroubleKey| trouble_line(t),
        ).push(text));
        k = k + 1;
        assert(string_views(lines@) =~= head + keys@.take(k as int).map_values(
            |t: TroubleKey| trouble_line(t),
        ));
    }
    assert(keys@.take(keys@.len() as int) =~= keys@);
    assert(string_views(lines@) =~= trouble_spec(*summary));
    lines
}

/// One confusion's line.
pub open spec fn slip_line(slip: Slip) -> Seq<char> {
    "  "@ + display_key_spec(slip.expected) + " → "@ + display_key_spec(slip.actual) + "   "@
        + commify_spec(slip.count as nat)
}

pub open spec fn slips_spec(summary: Summary) -> Seq<Seq<char>> {
    if summary.slips@.len() == 0 {
        Seq::empty()
    } else {
        seq![Seq::empty(), "most often typed instead"@] + summary.slips@.map_values(
            |s: Slip| slip_line(s),
        )
    }
}

fn slips(summary: &Summary) -> (lines: Vec<String>)
    ensures
        string_views(lines@) == slips_spec(*summary),
{
    let all = &summary.slips;
    let mut lines: Vec<String> = Vec::new();
    if all.len() == 0 {
        assert(string_views(lines@) =~= slips_spec(*summary));
        return lines;
    }
    lines.push(String::new());
    lines.push(owned("most often typed instead"));
    let ghost head = string_views(lines@);
    let mut k: usize = 0;
    while k < all.len()
        invariant
            all == &summary.slips,
            k <= all@.len(),
            head == seq![Seq::<char>::empty(), "most often typed instead"@],
            string_views(lines@) == head + all@.take(k as int).map_values(|s: Slip| slip_line(s)),
        decreases all@.len() - k,
    {
        let slip = &all[k];
        let mut line = owned("  ");
        push_str(&mut line, display_key(slip.expected).as_str());
        push_str(&mut line, " → ");
        push_str(&mut line, display_key(slip.actual).as_str());
        push_str(&mut line, "   ");
        push_str(&mut line, commify(slip.count as u64).as_str());
        assert(line@ =~= slip_line(*slip));
        let ghost before = string_views(lines@);
        let ghost text = line@;
        lines.push(line);
        assert(string_views(lines@) =~= before.push(text));
        assert(all@.take(k + 1).map_values(|s: Slip| slip_line(s)) =~= all@.take(k as int).map_values(
            |s: Slip| slip_line(s),
        ).push(text));
        k = k + 1;
        assert(string_views(lines@) =~= head + all@.take(k as int).map_values(|s: Slip| slip_line(s)));
    }
    assert(all@.take(all@.len() as int) =~= all@);
    assert(string_views(lines@) =~= slips_spec(*summary));
    lines
}

/// What `typr --stats` prints: a line saying there is nothing yet, or the
/// headline, a blank line and each section, one line each.
pub open spec fn render_spec(summary: Summary, today: Date) -> Seq<char> {
    if summary.tests == 0 {
        "no results yet — run typr a few times and come back\n"@
    } else {
        joined(
            seq![headline_spec(summary), Seq::empty()] + overview_spec(summary, today) + trend_spec(
                summary,
            ) + by_config_spec(summary) + trouble_spec(summary) + slips_spec(summary),
            '\n',
        ) + "\n"@
    }
}

fn append_lines(lines: &mut Vec<String>, more: Vec<String>)
    ensures
        string_views(final(lines)@) == string_views(old(lines)@) + string_views(more@),
{
    let ghost start = string_views(lines@);
    let mut i: usize = 0;
    while i < more.len()
        invariant
            i <= more@.len(),
            string_views(lines@) == start + string_views(more@).take(i as int),
        decreases more@.len() - i,
    {
        let ghost before = string_views(lines@);
        lines.push(owned(more[i].as_str()));
        assert(string_views(lines@) =~= before.push(more@[i as int]@));
        assert(string_views(more@).take(i + 1) =~= string_views(more@).take(i as int).push(more@[i as int]@));
        i = i + 1;
        assert(string_views(lines@) =~= start + string_views(more@).take(i as int));
    }
    assert(string_views(more@).take(more@.len() as int) =~= string_views(more@));
}

/// Renders a summary as the text printed by `typr --stats`, as of `today`.
pub fn render(summary: &Summary, today: Date) -> (s: String)
    requires
        showable(*summary),
    ensures
        s@ == render_spec(*summary, today),
{
    if summary.tests == 0 {
        return owned("no results yet — run typr a few times and come back\n");
    }
    let mut lines: Vec<String> = Vec::new();
    let mut headline = owned("typr — ");
    push_str(&mut headline, pluralize(summary.tests as u64, "test").as_str());
    push_str(&mut headline, " · ");
    push_str(&mut headline, humanize_ms(summary.typing_ms).as_str());
    push_str(&mut headline, " typing · ");
    push_str(&mut headline, commify(summary.words_typed).as_str());
    push_str(&mut headline, " words");
    lines.push(headline);
    lines.push(String::new());
    assert(string_views(lines@) =~= seq![headline_spec(*summary), Seq::<char>::empty()]);
    append_lines(&mut lines, overview(summary, today));
    append_lines(&mut lines, trend(summary));
    append_lines(&mut lines, by_config(summary));
    append_lines(&mut lines, trouble(summary));
    append_lines(&mut lines, slips(summary));
    let mut out = join(&lines, '\n');
    push_str(&mut out, "\n");
    out
}

} // verus!
