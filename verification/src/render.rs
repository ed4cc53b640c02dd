//! Draws frames.
//!
//! Every function here is pure: given a state it returns the frame and the
//! screen position the terminal's own cursor should sit at. Text is
//! assembled as [`Segment`]s and only turned into escape sequences at the
//! last moment, so widths can be measured without counting invisible bytes.
use vstd::prelude::*;

use crate::engine::{Engine, EngineView, Mode, Status, Word};
use crate::summary::TroubleKey;
use crate::text::{
    char_count, chars_of, decimal, decimal_i64, decimal_u64, owned, push_char, push_str, same_text,
    signed_decimal,
};
use crate::theme::{attrs_spec, role_index, Attrs, Role, Theme, RESET};

verus! {

/// The sequence that moves the cursor to a 1-indexed row and column.
pub open spec fn cursor_to(row: nat, column: nat) -> Seq<char> {
    seq!['\x1b', '['] + decimal(row) + seq![';'] + decimal(column) + seq!['H']
}

/// Moves the cursor to a 1-indexed row and column.
pub fn move_to(row: usize, column: usize) -> (s: String)
    ensures
        s@ == cursor_to(row as nat, column as nat),
{
    let mut out = String::new();
    push_char(&mut out, '\x1b');
    push_char(&mut out, '[');
    push_str(&mut out, decimal_u64(row as u64).as_str());
    push_char(&mut out, ';');
    push_str(&mut out, decimal_u64(column as u64).as_str());
    push_char(&mut out, 'H');
    proof {
        assert(out@ =~= cursor_to(row as nat, column as nat));
    }
    out
}

/// A run of text that shares one colour and set of attributes.
#[derive(Clone, Debug, PartialEq, Eq)]
pub struct Segment {
    pub text: String,
    pub role: Role,
    pub attrs: Attrs,
}

impl Segment {
    pub fn new(text: String, role: Role, attrs: Attrs) -> (s: Segment)
        ensures
            s.text@ == text@,
            s.role == role,
            s.attrs == attrs,
    {
        Segment { text, role, attrs }
    }

    pub fn plain(text: String, role: Role) -> (s: Segment)
        ensures
            s.text@ == text@,
            s.role == role,
            !s.attrs.bold && !s.attrs.underline,
    {
        Segment::new(text, role, Attrs::none())
    }
}

/// A word with the column it starts at, once a line has been laid out.
#[derive(Clone, Copy, Debug, PartialEq, Eq)]
pub struct Placed<'a> {
    pub word: Word<'a>,
    pub column: usize,
}

/// A word's footprint: the longer of its target and what was typed for it.
pub open spec fn width_of(word: Word) -> int {
    if word.target@.len() >= word.typed@.len() {
        word.target@.len() as int
    } else {
        word.typed@.len() as int
    }
}

pub fn word_width(word: &Word) -> (n: usize)
    ensures
        n == width_of(*word),
{
    let target = char_count(word.target);
    let typed = char_count(word.typed);
    if target >= typed {
        target
    } else {
        typed
    }
}

/// What packing the words one by one leaves: the finished lines, the line
/// being filled, and the column it has reached.
pub open spec fn layout_state<'a>(words: Seq<Word<'a>>, width: int) -> (
    Seq<Seq<Placed<'a>>>,
    Seq<Placed<'a>>,
    int,
)
    decreases words.len(),
{
    if words.len() == 0 {
        (Seq::empty(), Seq::empty(), 0)
    } else {
        let (lines, line, column) = layout_state(words.drop_last(), width);
        let word = words.last();
        let size = width_of(word);
        let needed = if line.len() == 0 {
            size
        } else {
            size + 1
        };
        if column + needed > width && line.len() > 0 {
            (lines.push(line), seq![Placed { word, column: 0 }], size)
        } else {
            let start = if line.len() == 0 {
                column
            } else {
                column + 1
            };
            (lines, line.push(Placed { word, column: start as usize }), start + size)
        }
    }
}

/// Words packed into lines that fit `width`, each word one space after the
/// one before; a word that does not fit starts the next line, and a word
/// wider than the width gets a line to itself.
pub open spec fn layout_spec<'a>(words: Seq<Word<'a>>, width: int) -> Seq<Seq<Placed<'a>>> {
    let (lines, line, column) = layout_state(words, width);
    if line.len() > 0 {
        lines.push(line)
    } else {
        lines
    }
}

/// The lines, each as its sequence of placed words.
pub open spec fn lines_view<'a>(v: Seq<Vec<Placed<'a>>>) -> Seq<Seq<Placed<'a>>> {
    v.map_values(|line: Vec<Placed<'a>>| line@)
}

/// Widths that cannot overflow a column count.
pub open spec fn fits_columns(words: Seq<Word>, width: int) -> bool {
    &&& width <= usize::MAX / 4
    &&& forall|i: int| 0 <= i < words.len() ==> width_of(#[trigger] words[i]) <= usize::MAX / 4
}

/// Packs words into lines that fit `width`.
///
/// A word's footprint is the longer of its target and what was typed for it,
/// so a word that has grown past its length pushes its neighbours along
/// instead of overflowing the column.
pub fn layout<'a>(words: &[Word<'a>], width: usize) -> (lines: Vec<Vec<Placed<'a>>>)
    requires
        fits_columns(words@, width as int),
    ensures
        lines_view(lines@) == layout_spec(words@, width as int),
{
    let mut lines: Vec<Vec<Placed<'a>>> = Vec::new();
    let mut line: Vec<Placed<'a>> = Vec::new();
    let mut column: usize = 0;
    let mut i: usize = 0;
    while i < words.len()
        invariant
            fits_columns(words@, width as int),
            i <= words@.len(),
            (lines_view(lines@), line@, column as int) == layout_state(words@.take(i as int), width as int),
            line@.len() == 0 ==> column == 0,
            column <= usize::MAX / 4,
        decreases words@.len() - i,
    {
        let ghost prefix = words@.take(i + 1);
        proof {
            assert(prefix.drop_last() =~= words@.take(i as int));
            assert(prefix.last() == words@[i as int]);
        }
        let word = words[i];
        let size = word_width(&word);
        let needed = if line.len() == 0 {
            size
        } else {
            size + 1
        };
        if column + needed > width && line.len() > 0 {
            let ghost before = lines_view(lines@);
            lines.push(line);
            line = Vec::new();
            line.push(Placed { word, column: 0 });
            column = size;
            proof {
                assert(lines_view(lines@) =~= before.push(layout_state(words@.take(i as int), width as int).1));
                assert(line@ =~= seq![Placed { word, column: 0 }]);
            }
        } else {
            let start = if line.len() == 0 {
                column
            } else {
                column + 1
            };
            line.push(Placed { word, column: start });
            column = start + size;
        }
        i = i + 1;
    }
    if line.len() > 0 {
        lines.push(line);
    }
    proof {
        assert(words@.take(words@.len() as int) =~= words@);
    }
    assert(lines_view(lines@) =~= layout_spec(words@, width as int));
    lines
}

/// Whether a line holds the word at `index`.
pub open spec fn holds(line: Seq<Placed>, index: int) -> bool {
    exists|k: int| 0 <= k < line.len() && line[k].word.index == index
}

/// The first line from the `j`-th on that holds the word at `index`, or 0.
pub open spec fn first_line_from(lines: Seq<Seq<Placed>>, index: int, j: int) -> int
    decreases lines.len() - j,
{
    if j < 0 || j >= lines.len() {
        0
    } else if holds(lines[j], index) {
        j
    } else {
        first_line_from(lines, index, j + 1)
    }
}

proof fn lemma_first_line_from(lines: Seq<Seq<Placed>>, index: int, j: int)
    ensures
        0 <= first_line_from(lines, index, j),
        lines.len() > 0 ==> first_line_from(lines, index, j) < lines.len(),
    decreases lines.len() - j,
{
    if 0 <= j < lines.len() {
        lemma_first_line_from(lines, index, j + 1);
    }
}

/// The line holding the word at `index`, or the first line when none does.
pub open spec fn line_of_spec(lines: Seq<Seq<Placed>>, index: int) -> int {
    first_line_from(lines, index, 0)
}

fn line_holds(line: &Vec<Placed>, index: usize) -> (b: bool)
    ensures
        b == holds(line@, index as int),
{
    let mut k: usize = 0;
    while k < line.len()
        invariant
            k <= line@.len(),
            forall|x: int| 0 <= x < k ==> line@[x].word.index != index,
        decreases line@.len() - k,
    {
        if line[k].word.index == index {
            return true;
        }
        k = k + 1;
    }
    false
}

/// The line holding the word at `index`, or the first line when none does.
pub fn line_of(lines: &Vec<Vec<Placed>>, index: usize) -> (n: usize)
    ensures
        n == line_of_spec(lines_view(lines@), index as int),
        lines@.len() > 0 ==> n < lines@.len(),
{
    proof {
        lemma_first_line_from(lines_view(lines@), index as int, 0);
    }
    let ghost view = lines_view(lines@);
    let mut j: usize = 0;
    while j < lines.len()
        invariant
            view == lines_view(lines@),
            j <= lines@.len(),
            first_line_from(view, index as int, 0) == first_line_from(view, index as int, j as int),
        decreases lines@.len() - j,
    {
        assert(view[j as int] == lines@[j as int]@);
        if line_holds(&lines[j], index) {
            return j;
        }
        j = j + 1;
    }
    0
}

/// A segment as plain values: its text, role and attributes.
pub open spec fn seg_view(s: Segment) -> (Seq<char>, Role, Attrs) {
    (s.text@, s.role, s.attrs)
}

pub open spec fn segs_view(v: Seq<Segment>) -> Seq<(Seq<char>, Role, Attrs)> {
    v.map_values(|s: Segment| seg_view(s))
}

/// How a typed character is shown against the one expected.
pub open spec fn role_at(target: Seq<char>, typed: Seq<char>, i: int) -> Role {
    if i >= typed.len() {
        Role::Untyped
    } else if typed[i] == target[i] {
        Role::Correct
    } else {
        Role::Incorrect
    }
}

/// A finished word that was not typed exactly is underlined.
pub open spec fn word_attrs(word: Word) -> Attrs {
    if word.status == Status::Done && word.typed@ != word.target@ {
        Attrs { bold: false, underline: true }
    } else {
        Attrs { bold: false, underline: false }
    }
}

/// One segment per character of a word: each target character coloured by
/// what was typed in its place, then any characters typed past its end.
pub open spec fn word_segments_spec(word: Word) -> Seq<(Seq<char>, Role, Attrs)> {
    let t = word.target@;
    let y = word.typed@;
    let attrs = word_attrs(word);
    Seq::new(t.len(), |i: int| (seq![t[i]], role_at(t, y, i), attrs)) + Seq::new(
        if y.len() > t.len() {
            (y.len() - t.len()) as nat
        } else {
            0
        },
        |k: int| (seq![y[t.len() + k]], Role::Extra, attrs),
    )
}

fn word_segments(word: &Word) -> (r: Vec<Segment>)
    ensures
        segs_view(r@) == word_segments_spec(*word),
{
    let typed = chars_of(word.typed);
    let target = chars_of(word.target);
    let attrs = if word.status == Status::Done && !same_text(word.typed, word.target) {
        Attrs::underlined()
    } else {
        Attrs::none()
    };
    assert(attrs == word_attrs(*word));
    let mut out: Vec<Segment> = Vec::new();
    let mut i: usize = 0;
    while i < target.len()
        invariant
            typed@ == word.typed@,
            target@ == word.target@,
            attrs == word_attrs(*word),
            i <= target@.len(),
            segs_view(out@) == Seq::new(
                i as nat,
                |x: int| (seq![target@[x]], role_at(target@, typed@, x), attrs),
            ),
        decreases target@.len() - i,
    {
        let role = if i >= typed.len() {
            Role::Untyped
        } else if typed[i] == target[i] {
            Role::Correct
        } else {
            Role::Incorrect
        };
        let mut text = String::new();
        push_char(&mut text, target[i]);
        assert(text@ =~= seq![target@[i as int]]);
        assert(role == role_at(target@, typed@, i as int));
        let ghost before = segs_view(out@);
        let ghost piece = (text@, role, attrs);
        out.push(Segment::new(text, role, attrs));
        assert(segs_view(out@) =~= before.push(piece));
        i = i + 1;
        assert(segs_view(out@) =~~= Seq::new(
            i as nat,
            |x: int| (seq![target@[x]], role_at(target@, typed@, x), attrs),
        ));
    }
    let ghost head = segs_view(out@);
    let mut k: usize = target.len();
    while k < typed.len()
        invariant
            typed@ == word.typed@,
            target@ == word.target@,
            attrs == word_attrs(*word),
            target@.len() <= k,
            k <= typed@.len() || k == target@.len(),
            segs_view(out@) == head + Seq::new(
                (k - target@.len()) as nat,
                |x: int| (seq![typed@[target@.len() + x]], Role::Extra, attrs),
            ),
        decreases typed@.len() - k,
    {
        let mut text = String::new();
        push_char(&mut text, typed[k]);
        assert(text@ =~= seq![typed@[k as int]]);
        let ghost before = segs_view(out@);
        let ghost piece = (text@, Role::Extra, attrs);
        out.push(Segment::new(text, Role::Extra, attrs));
        assert(segs_view(out@) =~= before.push(piece));
        k = k + 1;
        assert(segs_view(out@) =~~= head + Seq::new(
            (k - target@.len()) as nat,
            |x: int| (seq![typed@[target@.len() + x]], Role::Extra, attrs),
        ));
    }
    assert(segs_view(out@) =~= word_segments_spec(*word));
    out
}

/// Runs of identically styled segments collapsed into one.
pub open spec fn merged(segs: Seq<(Seq<char>, Role, Attrs)>) -> Seq<(Seq<char>, Role, Attrs)>
    decreases segs.len(),
{
    if segs.len() == 0 {
        Seq::empty()
    } else {
        let m = merged(segs.drop_last());
        let s = segs.last();
        if m.len() > 0 && m.last().1 == s.1 && m.last().2 == s.2 {
            m.drop_last().push((m.last().0 + s.0, s.1, s.2))
        } else {
            m.push(s)
        }
    }
}

/// Collapses runs of identically styled characters into one segment.
fn merge_segments(segments: Vec<Segment>) -> (r: Vec<Segment>)
    ensures
        segs_view(r@) == merged(segs_view(segments@)),
{
    let mut out: Vec<Segment> = Vec::new();
    let mut i: usize = 0;
    while i < segments.len()
        invariant
            i <= segments@.len(),
            segs_view(out@) == merged(segs_view(segments@).take(i as int)),
        decreases segments@.len() - i,
    {
        let ghost prefix = segs_view(segments@).take(i + 1);
        proof {
            assert(prefix.drop_last() =~= segs_view(segments@).take(i as int));
            assert(prefix.last() == seg_view(segments@[i as int]));
        }
        let segment = &segments[i];
        let n = out.len();
        if n > 0 && out[n - 1].role == segment.role && out[n - 1].attrs == segment.attrs {
            let last = &out[n - 1];
            let mut text = owned(last.text.as_str());
            push_str(&mut text, segment.text.as_str());
            let joined = Segment::new(text, segment.role, segment.attrs);
            let ghost before = segs_view(out@);
            out.set(n - 1, joined);
            assert(segs_view(out@) =~= before.drop_last().push((before.last().0 + seg_view(*segment).0, segment.role, segment.attrs)));
        } else {
            let ghost before = segs_view(out@);
            out.push(Segment::new(owned(segment.text.as_str()), segment.role, segment.attrs));
            assert(segs_view(out@) =~= before.push(seg_view(*segment)));
        }
        i = i + 1;
    }
    assert(segs_view(segments@).take(segments@.len() as int) =~= segs_view(segments@));
    out
}

/// `n` spaces.
pub open spec fn spaces(n: int) -> Seq<char> {
    Seq::new(if n > 0 { n as nat } else { 0 }, |i: int| ' ')
}

fn space_run(n: usize) -> (s: String)
    ensures
        s@ == spaces(n as int),
{
    let mut out = String::new();
    let mut i: usize = 0;
    while i < n
        invariant
            i <= n,
            out@ == spaces(i as int),
        decreases n - i,
    {
        push_char(&mut out, ' ');
        i = i + 1;
        assert(out@ =~= spaces(i as int));
    }
    out
}

/// The segments of a laid-out line before merging, and the column reached:
/// each word is preceded by the spaces that take it to its column.
pub open spec fn raw_line(line: Seq<Placed>) -> (Seq<(Seq<char>, Role, Attrs)>, int)
    decreases line.len(),
{
    if line.len() == 0 {
        (Seq::empty(), 0)
    } else {
        let (segs, column) = raw_line(line.drop_last());
        let placed = line.last();
        let gap = if placed.column >= column {
            placed.column - column
        } else {
            0
        };
        (
            segs.push((spaces(gap), Role::Untyped, Attrs { bold: false, underline: false }))
                + word_segments_spec(placed.word),
            placed.column + width_of(placed.word),
        )
    }
}

/// A laid-out line as coloured segments, the gaps between words padded so a
/// single move sequence per line is enough.
pub open spec fn line_segments_spec(line: Seq<Placed>) -> Seq<(Seq<char>, Role, Attrs)> {
    merged(raw_line(line).0)
}

fn line_segments(line: &Vec<Placed>) -> (r: Vec<Segment>)
    requires
        forall|i: int| 0 <= i < line@.len() ==> (#[trigger] line@[i]).column + width_of(line@[i].word)
            <= usize::MAX,
    ensures
        segs_view(r@) == line_segments_spec(line@),
{
    let mut segments: Vec<Segment> = Vec::new();
    let mut column: usize = 0;
    let mut i: usize = 0;
    while i < line.len()
        invariant
            forall|i: int| 0 <= i < line@.len() ==> (#[trigger] line@[i]).column + width_of(
                line@[i].word,
            ) <= usize::MAX,
            i <= line@.len(),
            (segs_view(segments@), column as int) == raw_line(line@.take(i as int)),
        decreases line@.len() - i,
    {
        let ghost prefix = line@.take(i + 1);
        proof {
            assert(prefix.drop_last() =~= line@.take(i as int));
            assert(prefix.last() == line@[i as int]);
        }
        let placed = &line[i];
        let gap = if placed.column >= column {
            placed.column - column
        } else {
            0
        };
        let ghost before = segs_view(segments@);
        segments.push(Segment::plain(space_run(gap), Role::Untyped));
        let words = word_segments(&placed.word);
        let ghost middle = segs_view(segments@);
        assert(middle =~= before.push((spaces(gap as int), Role::Untyped, Attrs { bold: false, underline: false })));
        let mut k: usize = 0;
        while k < words.len()
            invariant
                k <= words@.len(),
                segs_view(segments@) == middle + segs_view(words@).take(k as int),
            decreases words@.len() - k,
        {
            let w = &words[k];
            let ghost before_k = segs_view(segments@);
            segments.push(Segment::new(owned(w.text.as_str()), w.role, w.attrs));
            assert(segs_view(segments@) =~= before_k.push(seg_view(*w)));
            k = k + 1;
            assert(segs_view(segments@) =~= middle + segs_view(words@).take(k as int));
        }
        assert(segs_view(words@).take(words@.len() as int) =~= segs_view(words@));
        column = placed.column + word_width(&placed.word);
        i = i + 1;
    }
    assert(line@.take(line@.len() as int) =~= line@);
    merge_segments(segments)
}

/// What painting segments with a theme writes: each segment's colour and
/// attributes, its text, and a reset.
pub open spec fn emitted(segs: Seq<(Seq<char>, Role, Attrs)>, colours: Seq<Seq<char>>) -> Seq<char>
    decreases segs.len(),
{
    if segs.len() == 0 {
        Seq::empty()
    } else {
        let s = segs.last();
        emitted(segs.drop_last(), colours) + colours[role_index(s.1)] + attrs_spec(s.2) + s.0 + RESET@
    }
}

/// Writes segments in their theme's colours, each followed by a reset.
pub fn emit(out: &mut String, segments: &Vec<Segment>, theme: &Theme)
    requires
        theme.wf(),
    ensures
        final(out)@ == old(out)@ + emitted(segs_view(segments@), theme.sequences()),
{
    let ghost start = out@;
    let mut i: usize = 0;
    while i < segments.len()
        invariant
            theme.wf(),
            i <= segments@.len(),
            out@ == start + emitted(segs_view(segments@).take(i as int), theme.sequences()),
        decreases segments@.len() - i,
    {
        let ghost prefix = segs_view(segments@).take(i + 1);
        proof {
            assert(prefix.drop_last() =~= segs_view(segments@).take(i as int));
        }
        let segment = &segments[i];
        theme.paint_into(out, segment.role, segment.text.as_str(), segment.attrs);
        i = i + 1;
        assert(out@ =~= start + emitted(prefix, theme.sequences()));
    }
    assert(segs_view(segments@).take(segments@.len() as int) =~= segs_view(segments@));
}

/// How many lines of words are on screen at once.
pub const VISIBLE_LINES: usize = 3;

/// Everything the renderer needs to know that is not the test itself.
/// `speed` is the live speed, already rounded to whole words a minute.
pub struct Scene<'a> {
    pub theme: &'a Theme,
    pub size: (usize, usize),
    pub width: usize,
    pub left: usize,
    pub now: i64,
    pub live_wpm: bool,
    pub speed: i64,
    pub label: String,
    pub best: Option<String>,
    pub comparison: Option<String>,
    pub trouble: Vec<TroubleKey>,
}

/// Where the cursor should sit, as a 1-indexed row and column.
pub type Caret = Option<(usize, usize)>;

/// The row the first line of words is drawn on: the words sit in the middle
/// of the screen, but never above the third row.
pub open spec fn words_row_spec(rows: int) -> int {
    let half = if rows >= 3 {
        (rows - 3) / 2
    } else {
        0
    };
    if half > 3 {
        half
    } else {
        3
    }
}

fn words_row(rows: usize) -> (r: usize)
    ensures
        r == words_row_spec(rows as int),
{
    let half = if rows >= 3 {
        (rows - 3) / 2
    } else {
        0
    };
    if half > 3 {
        half
    } else {
        3
    }
}

/// A segment with no extra styling, as plain values.
pub open spec fn plain_seg(text: Seq<char>, role: Role) -> (Seq<char>, Role, Attrs) {
    (text, role, Attrs { bold: false, underline: false })
}

/// What the top left corner shows: the seconds left in a timed test, or
/// words done out of words given.
pub open spec fn left_text_spec(e: EngineView, now: int) -> Seq<char> {
    if e.mode == Mode::Time {
        let left = e.limit * 1000 - e.elapsed(now);
        signed_decimal(
            if left <= 0 {
                0
            } else {
                (left + 999) / 1000
            },
        )
    } else {
        decimal(e.index as nat) + "/"@ + decimal(e.words.len())
    }
}

/// What the top right corner shows: the live speed once typing has begun
/// (when it is wanted), else the label.
pub open spec fn right_text_spec(e: EngineView, live_wpm: bool, speed: int, label: Seq<char>) -> Seq<char> {
    if live_wpm && e.started() {
        signed_decimal(speed) + " wpm"@
    } else {
        label
    }
}

/// The header line: the left text at the left edge of the column, the right
/// text ending at its right edge, two rows above the words.
pub open spec fn header_spec(
    e: EngineView,
    now: int,
    rows: int,
    left: int,
    width: int,
    live_wpm: bool,
    speed: int,
    label: Seq<char>,
    colours: Seq<Seq<char>>,
) -> Seq<char> {
    let row = words_row_spec(rows) - 2;
    let right = right_text_spec(e, live_wpm, speed, label);
    cursor_to(row as nat, left as nat) + emitted(seq![plain_seg(left_text_spec(e, now), Role::Accent)], colours)
        + cursor_to((row) as nat, (left + width - right.len()) as nat) + emitted(
        seq![plain_seg(right, Role::Dim)],
        colours,
    )
}

/// Whether a view and a test can be drawn: the theme is complete, the
/// clock reading is in range, and the header's right text fits the column.
pub open spec fn drawable(engine: &Engine, view: &Scene) -> bool {
    &&& engine.wf()
    &&& view.theme.wf()
    &&& engine@.clock_ok(view.now as int)
    &&& engine@.mode == Mode::Time ==> i64::MIN <= engine@.limit * 1000 - engine@.elapsed(view.now as int)
        <= i64::MAX
    &&& view.left + view.width <= usize::MAX / 4
    &&& right_text_spec(engine@, view.live_wpm, view.speed as int, view.label@).len() <= view.left
        + view.width
    &&& 1 <= view.size.0 <= usize::MAX / 4
}

fn header(engine: &Engine, view: &Scene) -> (out: String)
    requires
        drawable(engine, view),
    ensures
        out@ == header_spec(
            engine@,
            view.now as int,
            view.size.0 as int,
            view.left as int,
            view.width as int,
            view.live_wpm,
            view.speed as int,
            view.label@,
            view.theme.sequences(),
        ),
{
    let row = words_row(view.size.0) - 2;
    let left_text = match engine.mode {
        Mode::Time => {
            let seconds = match engine.remaining_seconds(view.now) {
                Some(s) => s,
                None => 0,
            };
            decimal_i64(seconds)
        },
        _ => {
            let (done, total) = engine.progress();
            let mut text = decimal_u64(done as u64);
            push_str(&mut text, "/");
            push_str(&mut text, decimal_u64(total as u64).as_str());
            text
        },
    };
    assert(left_text@ =~= left_text_spec(engine@, view.now as int));
    let right_text = if view.live_wpm && engine.started() {
        let mut text = decimal_i64(view.speed);
        push_str(&mut text, " wpm");
        text
    } else {
        owned(view.label.as_str())
    };
    assert(right_text@ =~= right_text_spec(engine@, view.live_wpm, view.speed as int, view.label@));
    let mut out = move_to(row, view.left);
    let mut first: Vec<Segment> = Vec::new();
    first.push(Segment::plain(left_text, Role::Accent));
    assert(segs_view(first@) =~= seq![plain_seg(left_text_spec(engine@, view.now as int), Role::Accent)]);
    emit(&mut out, &first, view.theme);
    let right_column = view.left + view.width - char_count(right_text.as_str());
    push_str(&mut out, move_to(row, right_column).as_str());
    let mut second: Vec<Segment> = Vec::new();
    second.push(Segment::plain(right_text, Role::Dim));
    assert(segs_view(second@) =~= seq![plain_seg(right_text_spec(engine@, view.live_wpm, view.speed as int, view.label@), Role::Dim)]);
    emit(&mut out, &second, view.theme);
    out
}

/// A footer line centred under the column, on the last row but one.
pub open spec fn footer_spec(rows: int, left: int, width: int, text: Seq<char>, colours: Seq<Seq<char>>) -> Seq<char> {
    let room = if width >= text.len() {
        width - text.len()
    } else {
        0
    };
    cursor_to((rows - 1) as nat, (left + room / 2) as nat) + emitted(seq![plain_seg(text, Role::Dim)], colours)
}

/// Writes a line of help centred under the column, on the last row but one.
pub fn footer(view: &Scene, text: &str) -> (out: String)
    requires
        view.theme.wf(),
        view.size.0 >= 1,
        view.left + view.width <= usize::MAX / 4,
    ensures
        out@ == footer_spec(view.size.0 as int, view.left as int, view.width as int, text@, view.theme.sequences()),
{
    let n = char_count(text);
    let room = if view.width >= n {
        view.width - n
    } else {
        0
    };
    let mut out = move_to(view.size.0 - 1, view.left + room / 2);
    let mut segs: Vec<Segment> = Vec::new();
    segs.push(Segment::plain(owned(text), Role::Dim));
    assert(segs_view(segs@) =~= seq![plain_seg(text@, Role::Dim)]);
    emit(&mut out, &segs, view.theme);
    out
}

/// The message shown when the window is too small to type in.
pub open spec fn too_small_spec(rows: int, columns: int, colours: Seq<Seq<char>>) -> Seq<char> {
    let message = "terminal too small ("@ + decimal(columns as nat) + "x"@ + decimal(rows as nat)
        + ") — needs at least 40x8"@;
    cursor_to((if rows / 2 > 1 { rows / 2 } else { 1 }) as nat, 1) + emitted(
        seq![plain_seg(message, Role::Incorrect)],
        colours,
    )
}

/// Draws the message shown when the window is too small to type in.
pub fn too_small_frame(view: &Scene) -> (r: (String, Caret))
    requires
        view.theme.wf(),
    ensures
        r.0@ == too_small_spec(view.size.0 as int, view.size.1 as int, view.theme.sequences()),
        r.1 is None,
{
    let (rows, columns) = view.size;
    let mut message = owned("terminal too small (");
    push_str(&mut message, decimal_u64(columns as u64).as_str());
    push_str(&mut message, "x");
    push_str(&mut message, decimal_u64(rows as u64).as_str());
    push_str(&mut message, ") — needs at least 40x8");
    let row = if rows / 2 > 1 {
        rows / 2
    } else {
        1
    };
    let mut frame = move_to(row, 1);
    let ghost text = message@;
    let mut segs: Vec<Segment> = Vec::new();
    segs.push(Segment::plain(message, Role::Incorrect));
    assert(segs_view(segs@) =~= seq![plain_seg(text, Role::Incorrect)]);
    emit(&mut frame, &segs, view.theme);
    (frame, None)
}

/// Whether `words` are what [`Engine::annotate`] gives for the test `e`.
pub open spec fn annotated_as(words: Seq<Word>, e: EngineView) -> bool {
    &&& words.len() == e.words.len()
    &&& forall|i: int|
        0 <= i < words.len() ==> {
            let w = #[trigger] words[i];
            &&& w.index == i
            &&& w.target@ == e.words[i]
            &&& i < e.index ==> w.status == Status::Done && w.typed@ == e.typed[i]
            &&& i == e.index ==> w.status == Status::Current && w.typed@ == e.buf
            &&& i > e.index ==> w.status == Status::Pending && w.typed@ == Seq::<char>::empty()
        }
}

/// Whether a test's text is short enough for column arithmetic.
pub open spec fn text_fits(e: EngineView) -> bool {
    &&& forall|i: int| 0 <= i < e.words.len() ==> (#[trigger] e.words[i]).len() <= usize::MAX / 4
    &&& forall|i: int| 0 <= i < e.typed.len() ==> (#[trigger] e.typed[i]).len() <= usize::MAX / 4
    &&& e.buf.len() <= usize::MAX / 4
}

/// What [`can_draw`] accepts: a clock reading every engine operation can
/// take, a column and a window height well within `usize`, a header whose
/// right text fits the column, and no word longer than a quarter of
/// `usize`.
pub open spec fn can_draw_spec(e: EngineView, view: Scene) -> bool {
    &&& e.clock_sane(view.now as int)
    &&& view.left + view.width <= usize::MAX / 4
    &&& 1 <= view.size.0 <= usize::MAX / 4
    &&& right_text_spec(e, view.live_wpm, view.speed as int, view.label@).len() <= view.left + view.width
    &&& text_fits(e)
}

/// Whether a test and a view can be drawn: the clock reading is one the
/// engine can take, the column fits, the header's right text fits the
/// column, and no word is absurdly long.
pub fn can_draw(engine: &Engine, view: &Scene) -> (b: bool)
    requires
        engine.wf(),
        view.theme.wf(),
    ensures
        b == can_draw_spec(engine@, *view),
        b ==> drawable(engine, view) && text_fits(engine@),
{
    if !engine.clock_sane(view.now) {
        return false;
    }
    proof {
        crate::engine::lemma_sane_clock(engine@, view.now as int);
    }
    let quarter = usize::MAX / 4;
    if view.left > quarter || view.width > quarter - view.left {
        return false;
    }
    if view.size.0 < 1 || view.size.0 > quarter {
        return false;
    }
    let right_len = if view.live_wpm && engine.started() {
        let n = char_count(decimal_i64(view.speed).as_str());
        if n > quarter {
            return false;
        }
        n + 4
    } else {
        char_count(view.label.as_str())
    };
    proof {
        reveal_strlit(" wpm");
    }
    if right_len > view.left + view.width {
        return false;
    }
    if char_count(engine.buf.as_str()) > quarter {
        return false;
    }
    let ghost ready = engine@.clock_sane(view.now as int) && view.left + view.width <= usize::MAX / 4
        && 1 <= view.size.0 <= usize::MAX / 4 && right_text_spec(
        engine@,
        view.live_wpm,
        view.speed as int,
        view.label@,
    ).len() <= view.left + view.width && engine@.buf.len() <= usize::MAX / 4;
    assert(ready);
    let mut i: usize = 0;
    while i < engine.words.len()
        invariant
            engine.wf(),
            ready,
            ready == (engine@.clock_sane(view.now as int) && view.left + view.width <= usize::MAX / 4
                && 1 <= view.size.0 <= usize::MAX / 4 && right_text_spec(
                engine@,
                view.live_wpm,
                view.speed as int,
                view.label@,
            ).len() <= view.left + view.width && engine@.buf.len() <= usize::MAX / 4),
            quarter == usize::MAX / 4,
            i <= engine.words@.len(),
            forall|k: int| 0 <= k < i ==> (#[trigger] engine@.words[k]).len() <= usize::MAX / 4,
        decreases engine.words@.len() - i,
    {
        assert(engine.words@[i as int]@ == engine@.words[i as int]);
        if char_count(engine.words[i].as_str()) > quarter {
            assert(!text_fits(engine@));
            return false;
        }
        i = i + 1;
    }
    let mut k: usize = 0;
    while k < engine.typed.len()
        invariant
            engine.wf(),
            ready,
            ready == (engine@.clock_sane(view.now as int) && view.left + view.width <= usize::MAX / 4
                && 1 <= view.size.0 <= usize::MAX / 4 && right_text_spec(
                engine@,
                view.live_wpm,
                view.speed as int,
                view.label@,
            ).len() <= view.left + view.width && engine@.buf.len() <= usize::MAX / 4),
            forall|m: int| 0 <= m < engine@.words.len() ==> (#[trigger] engine@.words[m]).len() <= usize::MAX / 4,
            quarter == usize::MAX / 4,
            k <= engine.typed@.len(),
            forall|m: int| 0 <= m < k ==> (#[trigger] engine@.typed[m]).len() <= usize::MAX / 4,
        decreases engine.typed@.len() - k,
    {
        assert(engine.typed@[k as int]@ == engine@.typed[k as int]);
        if char_count(engine.typed[k].as_str()) > quarter {
            assert(!text_fits(engine@));
            return false;
        }
        k = k + 1;
    }
    true
}

/// Every word laid out keeps column and width in range.
pub open spec fn placed_fit(lines: Seq<Seq<Placed>>) -> bool {
    forall|j: int, k: int|
        0 <= j < lines.len() && 0 <= k < lines[j].len() ==> (#[trigger] lines[j][k]).column
            <= usize::MAX / 4 && width_of(lines[j][k].word) <= usize::MAX / 4
}

proof fn lemma_layout_state_fits(words: Seq<Word>, width: int)
    requires
        fits_columns(words, width),
    ensures
        placed_fit(layout_state(words, width).0),
        forall|k: int|
            0 <= k < layout_state(words, width).1.len() ==> (#[trigger] layout_state(
                words,
                width,
            ).1[k]).column <= usize::MAX / 4 && width_of(layout_state(words, width).1[k].word)
                <= usize::MAX / 4,
        layout_state(words, width).1.len() == 0 ==> layout_state(words, width).2 == 0,
        0 <= layout_state(words, width).2 <= usize::MAX / 4,
    decreases words.len(),
{
    if words.len() > 0 {
        assert forall|i: int| 0 <= i < words.drop_last().len() implies width_of(
            #[trigger] words.drop_last()[i],
        ) <= usize::MAX / 4 by {
            assert(words.drop_last()[i] == words[i]);
        }
        lemma_layout_state_fits(words.drop_last(), width);
        assert(width_of(words.last()) <= usize::MAX / 4) by {
            assert(words.last() == words[words.len() - 1]);
        }
        let (lines, line, column) = layout_state(words.drop_last(), width);
        let (lines2, line2, column2) = layout_state(words, width);
        let word = words.last();
        let size = width_of(word);
        let needed = if line.len() == 0 {
            size
        } else {
            size + 1
        };
        if column + needed > width && line.len() > 0 {
            assert(line2 =~= seq![Placed { word, column: 0 }]);
        } else {
            let start = if line.len() == 0 {
                column
            } else {
                column + 1
            };
            assert(start <= usize::MAX / 4);
            assert(line2 == line.push(Placed { word, column: start as usize }));
            assert forall|k: int| 0 <= k < line2.len() implies (#[trigger] line2[k]).column
                <= usize::MAX / 4 && width_of(line2[k].word) <= usize::MAX / 4 by {
                if k < line.len() {
                    assert(line2[k] == line[k]);
                    assert(line[k].column <= usize::MAX / 4);
                } else {
                    assert(line2[k] == Placed { word, column: start as usize });
                    assert((start as usize) as int == start);
                }
            }
        }
        assert forall|j: int, k: int| 0 <= j < lines2.len() && 0 <= k < lines2[j].len() implies (
        #[trigger] lines2[j][k]).column <= usize::MAX / 4 && width_of(lines2[j][k].word) <= usize::MAX
            / 4 by {
            if j < lines.len() {
                assert(lines2[j] == lines[j]);
            } else {
                assert(lines2[j] == line);
            }
        }
    }
}

proof fn lemma_layout_fits(words: Seq<Word>, width: int)
    requires
        fits_columns(words, width),
    ensures
        placed_fit(layout_spec(words, width)),
{
    lemma_layout_state_fits(words, width);
    let (lines, line, column) = layout_state(words, width);
    let all = layout_spec(words, width);
    assert forall|j: int, k: int| 0 <= j < all.len() && 0 <= k < all[j].len() implies (
    #[trigger] all[j][k]).column <= usize::MAX / 4 && width_of(all[j][k].word) <= usize::MAX / 4 by {
        if j < lines.len() {
            assert(all[j] == lines[j]);
        } else {
            assert(all[j] == line);
        }
    }
}

/// The words of the lines, in order.
pub open spec fn placed_words<'a>(lines: Seq<Seq<Placed<'a>>>) -> Seq<Word<'a>>
    decreases lines.len(),
{
    if lines.len() == 0 {
        Seq::empty()
    } else {
        placed_words(lines.drop_last()) + lines.last().map_values(|p: Placed<'a>| p.word)
    }
}

/// A line starts at the left edge with each word one space after the one
/// before, and each word is where it says.
pub open spec fn spaced<'a>(line: Seq<Placed<'a>>) -> bool {
    &&& line.len() > 0 ==> line[0].column == 0
    &&& forall|k: int|
        1 <= k < line.len() ==> #[trigger] line[k].column == line[k - 1].column + width_of(line[k - 1].word)
            + 1
}

/// A laid-out line: not empty, spaced, and within the width unless it holds
/// a single word too wide for any line.
pub open spec fn packed<'a>(line: Seq<Placed<'a>>, width: int) -> bool {
    &&& line.len() > 0
    &&& spaced(line)
    &&& line.len() > 1 ==> line.last().column + width_of(line.last().word) <= width
}

/// Whether `next`, placed one space after the end of `line`, would pass
/// the width: why it starts a line of its own.
pub open spec fn would_overflow<'a>(line: Seq<Placed<'a>>, next: Word<'a>, width: int) -> bool {
    line.last().column + width_of(line.last().word) + 1 + width_of(next) > width
}

/// Every line but the last is followed by one whose first word would not
/// have fitted after it.
pub open spec fn greedy<'a>(lines: Seq<Seq<Placed<'a>>>, width: int) -> bool {
    forall|j: int| 0 <= j && j + 1 < lines.len() ==> would_overflow(#[trigger] lines[j], lines[j + 1][0].word, width)
}

/// What layout keeps true as it places each word.
pub open spec fn layout_invariant<'a>(state: (Seq<Seq<Placed<'a>>>, Seq<Placed<'a>>, int), words: Seq<Word<'a>>, width: int) -> bool {
    let (lines, line, column) = state;
    &&& forall|j: int| 0 <= j < lines.len() ==> packed(#[trigger] lines[j], width)
    &&& spaced(line)
    &&& line.len() == 0 ==> column == 0
    &&& line.len() > 0 ==> column == line.last().column + width_of(line.last().word)
    &&& line.len() > 1 ==> column <= width
    &&& placed_words(lines) + line.map_values(|p: Placed<'a>| p.word) == words
}

/// Where layout breaks lines as it places each word.
pub open spec fn breaks_invariant<'a>(state: (Seq<Seq<Placed<'a>>>, Seq<Placed<'a>>, int), width: int) -> bool {
    let (lines, line, column) = state;
    &&& greedy(lines, width)
    &&& line.len() == 0 ==> lines.len() == 0
    &&& lines.len() > 0 && line.len() > 0 ==> would_overflow(lines.last(), line[0].word, width)
}

proof fn lemma_layout_state_packs<'a>(words: Seq<Word<'a>>, width: int)
    requires
        0 <= width <= usize::MAX,
    ensures
        layout_invariant(layout_state(words, width), words, width),
    decreases words.len(),
{
    if words.len() == 0 {
        assert(placed_words(Seq::<Seq<Placed<'a>>>::empty()) + Seq::<Placed<'a>>::empty().map_values(
            |p: Placed<'a>| p.word,
        ) =~= words);
    } else {
        let front = words.drop_last();
        lemma_layout_state_packs(front, width);
        let (lines, line, column) = layout_state(front, width);
        let word = words.last();
        let size = width_of(word);
        let needed = if line.len() == 0 { size } else { size + 1 };
        if column + needed > width && line.len() > 0 {
            let fresh = seq![Placed { word, column: 0 }];
            let grown = lines.push(line);
            assert forall|j: int| 0 <= j < grown.len() implies packed(#[trigger] grown[j], width) by {
                if j < lines.len() {
                    assert(grown[j] == lines[j]);
                }
            }
            assert(grown.drop_last() =~= lines);
            assert(placed_words(grown) == placed_words(lines) + line.map_values(|p: Placed<'a>| p.word));
            assert(fresh.map_values(|p: Placed<'a>| p.word) =~= seq![word]);
            assert(words =~= front.push(word));
            assert(placed_words(grown) + fresh.map_values(|p: Placed<'a>| p.word) =~= words);
        } else {
            let start = if line.len() == 0 { column } else { column + 1 };
            let longer = line.push(Placed { word, column: start as usize });
            assert(start <= usize::MAX) by {
                if line.len() > 0 {
                    assert(column + size + 1 <= width);
                }
            }
            assert forall|k: int| 1 <= k < longer.len() implies #[trigger] longer[k].column == longer[k
                - 1].column + width_of(longer[k - 1].word) + 1 by {
                if k < line.len() {
                    assert(longer[k] == line[k]);
                    assert(longer[k - 1] == line[k - 1]);
                }
            }
            let before = line.map_values(|p: Placed<'a>| p.word);
            assert(longer.map_values(|p: Placed<'a>| p.word) =~= before.push(word));
            assert(placed_words(lines) + before == front);
            assert(words =~= front.push(word));
            assert(placed_words(lines) + before.push(word) =~= (placed_words(lines) + before).push(word));
        }
    }
}

proof fn lemma_layout_column<'a>(words: Seq<Word<'a>>, width: int)
    requires
        0 <= width <= usize::MAX,
    ensures
        ({
            let (lines, line, column) = layout_state(words, width);
            line.len() > 0 ==> column == line.last().column + width_of(line.last().word)
        }),
{
    lemma_layout_state_packs(words, width);
}

#[verifier::rlimit(40)]
proof fn lemma_layout_state_breaks<'a>(words: Seq<Word<'a>>, width: int)
    requires
        0 <= width <= usize::MAX,
    ensures
        breaks_invariant(layout_state(words, width), width),
    decreases words.len(),
{
    if words.len() > 0 {
        let front = words.drop_last();
        lemma_layout_state_breaks(front, width);
        lemma_layout_column(front, width);
        let (lines, line, column) = layout_state(front, width);
        let word = words.last();
        let size = width_of(word);
        let needed = if line.len() == 0 { size } else { size + 1 };
        if column + needed > width && line.len() > 0 {
            let fresh = seq![Placed { word, column: 0 }];
            let grown = lines.push(line);
            assert(layout_state(words, width) == (grown, fresh, size));
            assert(grown.last() == line);
            assert(fresh[0].word == word);
            assert(would_overflow(line, word, width));
            assert forall|j: int| 0 <= j && j + 1 < grown.len() implies would_overflow(
                #[trigger] grown[j],
                grown[j + 1][0].word,
                width,
            ) by {
                if j + 1 < lines.len() {
                    assert(grown[j] == lines[j]);
                    assert(grown[j + 1] == lines[j + 1]);
                } else {
                    assert(grown[j] == lines.last());
                    assert(grown[j + 1] == line);
                }
            }
        } else {
            let start = if line.len() == 0 { column } else { column + 1 };
            let longer = line.push(Placed { word, column: start as usize });
            assert(layout_state(words, width) == (lines, longer, start + size));
            if line.len() > 0 {
                assert(longer[0] == line[0]);
            }
        }
    }
}

proof fn lemma_layout_greedy<'a>(words: Seq<Word<'a>>, width: usize)
    ensures
        greedy(layout_spec(words, width as int), width as int),
{
    lemma_layout_state_breaks(words, width as int);
    let (lines, line, column) = layout_state(words, width as int);
    let all = layout_spec(words, width as int);
    if line.len() > 0 {
        assert forall|j: int| 0 <= j && j + 1 < all.len() implies would_overflow(
            #[trigger] all[j],
            all[j + 1][0].word,
            width as int,
        ) by {
            assert(all[j] == lines[j]);
            if j + 1 < lines.len() {
                assert(all[j + 1] == lines[j + 1]);
            } else {
                assert(all[j + 1] == line);
            }
        }
    }
}

/// Layout packs every word, in order, into lines that start at the left
/// edge with one space between words, and that fit the width; a word wider
/// than the width gets a line to itself rather than vanishing; and a line
/// breaks only where the next word would not have fitted on it.
pub proof fn lemma_layout_packs<'a>(words: Seq<Word<'a>>, width: usize)
    ensures
        forall|j: int|
            0 <= j < layout_spec(words, width as int).len() ==> packed(
                #[trigger] layout_spec(words, width as int)[j],
                width as int,
            ),
        placed_words(layout_spec(words, width as int)) == words,
        greedy(layout_spec(words, width as int), width as int),
{
    lemma_layout_state_packs(words, width as int);
    lemma_layout_greedy(words, width);
    let (lines, line, column) = layout_state(words, width as int);
    let all = layout_spec(words, width as int);
    if line.len() > 0 {
        assert forall|j: int| 0 <= j < all.len() implies packed(#[trigger] all[j], width as int) by {
            if j < lines.len() {
                assert(all[j] == lines[j]);
            }
        }
        assert(all.drop_last() =~= lines);
    } else {
        assert(line.map_values(|p: Placed<'a>| p.word) =~= Seq::<Word<'a>>::empty());
        assert(placed_words(lines) + Seq::<Word<'a>>::empty() =~= placed_words(lines));
    }
}

/// The first word of a line, from the `k`-th on, that is the word at
/// `index`.
pub open spec fn first_placed_from(line: Seq<Placed>, index: int, k: int) -> Option<int>
    decreases line.len() - k,
{
    if k < 0 || k >= line.len() {
        None
    } else if line[k].word.index == index {
        Some(k)
    } else {
        first_placed_from(line, index, k + 1)
    }
}

/// Where the caret goes: after what has been typed of the current word, if
/// that word is on screen, never past the right edge of the column.
pub open spec fn caret_spec(
    lines: Seq<Seq<Placed>>,
    e: EngineView,
    current: int,
    top: int,
    first_row: int,
    left: int,
    width: int,
) -> Option<(usize, usize)> {
    if current - top >= VISIBLE_LINES || current >= lines.len() {
        None
    } else {
        match first_placed_from(lines[current], e.index, 0) {
            None => None,
            Some(k) => {
                let column = left + lines[current][k].column + e.buf.len();
                Some(
                    (
                        (first_row + (current - top)) as usize,
                        (if column < left + width {
                            column
                        } else {
                            left + width
                        }) as usize,
                    ),
                )
            },
        }
    }
}

/// The visible lines drawn one under another from row `row`.
pub open spec fn body_spec(lines: Seq<Seq<Placed>>, row: int, left: int, colours: Seq<Seq<char>>) -> Seq<char>
    decreases lines.len(),
{
    if lines.len() == 0 {
        Seq::empty()
    } else {
        body_spec(lines.drop_last(), row, left, colours) + cursor_to(
            (row + lines.len() - 1) as nat,
            left as nat,
        ) + emitted(line_segments_spec(lines.last()), colours)
    }
}

/// The first line shown: the one before the current line, so the active
/// line sits in the middle once the typist is past the first line.
pub open spec fn top_line(current: int) -> int {
    if current >= 1 {
        current - 1
    } else {
        0
    }
}

/// The lines on screen.
pub open spec fn visible_lines(lines: Seq<Seq<Placed>>, top: int) -> Seq<Seq<Placed>> {
    if top >= lines.len() {
        Seq::empty()
    } else if top + VISIBLE_LINES < lines.len() {
        lines.subrange(top, top + VISIBLE_LINES)
    } else {
        lines.subrange(top, lines.len() as int)
    }
}

/// The typing screen for the words `words` of the test `e`.
pub open spec fn test_frame_spec(words: Seq<Word>, e: EngineView, view: Scene) -> (Seq<char>, Option<(usize, usize)>) {
    let lines = layout_spec(words, view.width as int);
    let current = line_of_spec(lines, e.index);
    let top = top_line(current);
    let first_row = words_row_spec(view.size.0 as int);
    let colours = view.theme.sequences();
    (
        header_spec(
            e,
            view.now as int,
            view.size.0 as int,
            view.left as int,
            view.width as int,
            view.live_wpm,
            view.speed as int,
            view.label@,
            colours,
        ) + body_spec(visible_lines(lines, top), first_row, view.left as int, colours) + footer_spec(
            view.size.0 as int,
            view.left as int,
            view.width as int,
            "tab restart · esc quit"@,
            colours,
        ),
        caret_spec(lines, e, current, top, first_row, view.left as int, view.width as int),
    )
}

fn caret_position(
    lines: &Vec<Vec<Placed>>,
    engine: &Engine,
    current: usize,
    top: usize,
    first_row: usize,
    view: &Scene,
) -> (c: Caret)
    requires
        placed_fit(lines_view(lines@)),
        top <= current,
        first_row <= usize::MAX / 4,
        view.left + view.width <= usize::MAX / 4,
        engine@.buf.len() <= usize::MAX / 4,
    ensures
        c == caret_spec(
            lines_view(lines@),
            engine@,
            current as int,
            top as int,
            first_row as int,
            view.left as int,
            view.width as int,
        ),
{
    if current - top >= VISIBLE_LINES || current >= lines.len() {
        return None;
    }
    let line = &lines[current];
    let ghost view_line = lines_view(lines@)[current as int];
    assert(view_line == line@);
    let mut k: usize = 0;
    while k < line.len()
        invariant
            view_line == line@,
            current < lines@.len(),
            view_line == lines_view(lines@)[current as int],
            placed_fit(lines_view(lines@)),
            view.left + view.width <= usize::MAX / 4,
            engine@.buf.len() <= usize::MAX / 4,
            first_row <= usize::MAX / 4,
            top <= current,
            current - top < VISIBLE_LINES,
            k <= line@.len(),
            first_placed_from(view_line, engine@.index, 0) == first_placed_from(
                view_line,
                engine@.index,
                k as int,
            ),
        decreases line@.len() - k,
    {
        if line[k].word.index == engine.index {
            let placed = &line[k];
            assert(view_line[k as int] == *placed);
            assert(lines_view(lines@)[current as int][k as int].column <= usize::MAX / 4);
            let column = view.left + placed.column + char_count(engine.buf.as_str());
            let edge = view.left + view.width;
            let shown = if column < edge {
                column
            } else {
                edge
            };
            return Some((first_row + (current - top), shown));
        }
        k = k + 1;
    }
    None
}

/// Draws the typing screen.
///
/// The word window scrolls so the active line sits in the middle once the
/// typist is past the first line, which keeps the eye in one place.
pub fn test_frame(engine: &Engine, view: &Scene) -> (r: (String, Caret))
    requires
        drawable(engine, view),
        text_fits(engine@),
    ensures
        exists|words: Seq<Word>|
            annotated_as(words, engine@) && r.0@ == (#[trigger] test_frame_spec(words, engine@, *view)).0
                && r.1 == test_frame_spec(words, engine@, *view).1,
{
    let annotated = engine.annotate();
    proof {
        assert forall|i: int| 0 <= i < annotated@.len() implies width_of(#[trigger] annotated@[i]) <= usize::MAX
            / 4 by {
            let w = annotated@[i];
            if i < engine@.index {
                assert(engine@.typed[i].len() <= usize::MAX / 4);
            }
            assert(engine@.words[i].len() <= usize::MAX / 4);
        }
    }
    let lines = layout(annotated.as_slice(), view.width);
    proof {
        lemma_layout_fits(annotated@, view.width as int);
    }
    let current = line_of(&lines, engine.index);
    let top = if current >= 1 {
        current - 1
    } else {
        0
    };
    let first_row = words_row(view.size.0);
    let mut frame = header(engine, view);
    let ghost lines_seq = lines_view(lines@);
    let ghost shown = visible_lines(lines_seq, top as int);
    let count: usize = if top >= lines.len() {
        0
    } else if lines.len() > VISIBLE_LINES && top < lines.len() - VISIBLE_LINES {
        VISIBLE_LINES
    } else {
        lines.len() - top
    };
    let ghost start = frame@;
    assert(count > 0 ==> top + count <= lines@.len());
    let mut offset: usize = 0;
    while offset < count
        invariant
            lines_seq == lines_view(lines@),
            placed_fit(lines_seq),
            shown == visible_lines(lines_seq, top as int),
            shown.len() == count,
            count > 0 ==> top + count <= lines.len(),
            offset <= count,
            count <= VISIBLE_LINES,
            first_row <= usize::MAX / 4,
            view.theme.wf(),
            frame@ == start + body_spec(shown.take(offset as int), first_row as int, view.left as int, view.theme.sequences()),
        decreases count - offset,
    {
        let ghost taken = shown.take(offset + 1);
        proof {
            assert(taken.drop_last() =~= shown.take(offset as int));
            assert(taken.last() == lines_seq[top + offset]);
        }
        push_str(&mut frame, move_to(first_row + offset, view.left).as_str());
        let line = &lines[top + offset];
        assert(lines_seq[top + offset] == line@);
        let segments = line_segments(line);
        emit(&mut frame, &segments, view.theme);
        offset = offset + 1;
    }
    assert(shown.take(count as int) =~= shown);
    let tail = footer(view, "tab restart · esc quit");
    push_str(&mut frame, tail.as_str());
    let caret = caret_position(&lines, engine, current, top, first_row, view);
    assert(annotated_as(annotated@, engine@));
    assert(frame@ == test_frame_spec(annotated@, engine@, *view).0);
    assert(caret == test_frame_spec(annotated@, engine@, *view).1);
    (frame, caret)
}

} // verus!
