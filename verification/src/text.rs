//! Character-level helpers for strings, stated over their characters.
use vstd::prelude::*;

verus! {

/// Appends one character: `String::push`.
#[verifier::external_body]
pub(crate) fn push_char(s: &mut String, c: char)
    ensures
        final(s)@ == old(s)@.push(c),
{
    s.push(c);
}

/// Appends a string slice.
pub fn push_str(s: &mut String, t: &str)
    ensures
        final(s)@ == old(s)@ + t@,
{
    s.append(t);
}

/// A fresh owned copy of a string slice.
pub fn owned(t: &str) -> (s: String)
    ensures
        s@ == t@,
{
    String::from_str(t)
}

/// The empty string slice.
pub fn empty_str() -> (s: &'static str)
    ensures
        s@ == Seq::<char>::empty(),
{
    proof {
        reveal_strlit("");
    }
    ""
}

/// The number of characters (not bytes) in a string slice.
pub fn char_count(s: &str) -> (n: usize)
    ensures
        n == s@.len(),
{
    s.unicode_len()
}

/// Whether two string slices hold the same characters.
pub fn same_text(a: &str, b: &str) -> (r: bool)
    ensures
        r == (a@ == b@),
{
    let n = a.unicode_len();
    if n != b.unicode_len() {
        return false;
    }
    let mut i: usize = 0;
    while i < n
        invariant
            n == a@.len(),
            n == b@.len(),
            i <= n,
            forall|j: int| 0 <= j < i ==> a@[j] == b@[j],
        decreases n - i,
    {
        if a.get_char(i) != b.get_char(i) {
            return false;
        }
        i = i + 1;
    }
    assert(a@ =~= b@);
    true
}

/// Every character but the last.
pub fn drop_last_char(s: &str) -> (r: String)
    requires
        s@.len() > 0,
    ensures
        r@ == s@.drop_last(),
{
    let n = s.unicode_len();
    let head = s.substring_char(0, n - 1);
    String::from_str(head)
}

/// The characters of a string slice, one per element.
pub fn chars_of(s: &str) -> (r: Vec<char>)
    ensures
        r@ == s@,
{
    let mut out: Vec<char> = Vec::new();
    for c in iter: s.chars()
        invariant
            iter.seq() == s@,
            out@ == iter.seq().take(iter.index() as int),
    {
        out.push(c);
    }
    out
}

/// A string made of the given characters.
pub fn string_of(cs: &[char]) -> (r: String)
    ensures
        r@ == cs@,
{
    let mut out = String::new();
    let mut i: usize = 0;
    while i < cs.len()
        invariant
            i <= cs@.len(),
            out@ == cs@.subrange(0, i as int),
        decreases cs@.len() - i,
    {
        push_char(&mut out, cs[i]);
        i = i + 1;
        assert(out@ =~= cs@.subrange(0, i as int));
    }
    assert(cs@.subrange(0, cs@.len() as int) =~= cs@);
    out
}

} // verus!

verus! {

/// The character for a digit value.
pub open spec fn digit_char(d: int) -> char {
    ((d + 48) as u32) as char
}

/// The decimal digits of a natural number, most significant first, with no
/// leading zeros (and a single `0` for zero): what `to_string` writes.
pub open spec fn decimal(n: nat) -> Seq<char>
    decreases n,
{
    if n < 10 {
        seq![digit_char(n as int)]
    } else {
        decimal(n / 10).push(digit_char((n % 10) as int))
    }
}

/// A signed number in decimal, with a leading `-` when negative.
pub open spec fn signed_decimal(n: int) -> Seq<char> {
    if n < 0 {
        seq!['-'] + decimal((-n) as nat)
    } else {
        decimal(n as nat)
    }
}

fn digit(d: u64) -> (c: char)
    requires
        d < 10,
    ensures
        c == digit_char(d as int),
{
    let c = ((d as u8) + 48) as char;
    assert(c == digit_char(d as int)) by {
        assert(((d as u8) + 48) as char == ((d + 48) as u32) as char);
    }
    c
}

/// A number written in decimal.
pub fn decimal_u64(n: u64) -> (s: String)
    ensures
        s@ == decimal(n as nat),
{
    let mut digits: Vec<char> = Vec::new();
    let mut m = n;
    // Digits are produced least significant first.
    while m >= 10
        invariant
            decimal(n as nat) == decimal(m as nat) + digits@.reverse(),
        decreases m,
    {
        let d = digit(m % 10);
        let ghost before = digits@;
        digits.push(d);
        assert(digits@.reverse() =~= seq![d] + before.reverse());
        assert(decimal(m as nat) == decimal((m / 10) as nat).push(d));
        assert(decimal(m as nat) + before.reverse() =~= decimal((m / 10) as nat) + digits@.reverse());
        m = m / 10;
    }
    let d = digit(m);
    let ghost before = digits@;
    digits.push(d);
    assert(digits@.reverse() =~= seq![d] + before.reverse());
    assert(decimal(n as nat) =~= digits@.reverse());
    let mut out = String::new();
    let mut i = digits.len();
    while i > 0
        invariant
            i <= digits@.len(),
            out@ == digits@.reverse().subrange(0, (digits@.len() - i) as int),
        decreases i,
    {
        i = i - 1;
        let ghost before = out@;
        push_char(&mut out, digits[i]);
        assert(out@ =~= digits@.reverse().subrange(0, (digits@.len() - i) as int));
    }
    assert(digits@.reverse().subrange(0, digits@.len() as int) =~= digits@.reverse());
    out
}

/// A signed number written in decimal.
pub fn decimal_i64(n: i64) -> (s: String)
    ensures
        s@ == signed_decimal(n as int),
{
    if n < 0 {
        let magnitude: u64 = if n == i64::MIN {
            0x8000_0000_0000_0000u64
        } else {
            (-n) as u64
        };
        let mut out = String::new();
        push_char(&mut out, '-');
        let digits = decimal_u64(magnitude);
        push_str(&mut out, digits.as_str());
        out
    } else {
        decimal_u64(n as u64)
    }
}

/// Whether a character is whitespace in Unicode's sense: what
/// `char::is_whitespace` answers.
pub open spec fn is_space(c: char) -> bool {
    let u = c as u32;
    ||| 0x9 <= u <= 0xD
    ||| u == 0x20
    ||| u == 0x85
    ||| u == 0xA0
    ||| u == 0x1680
    ||| 0x2000 <= u <= 0x200A
    ||| u == 0x2028
    ||| u == 0x2029
    ||| u == 0x202F
    ||| u == 0x205F
    ||| u == 0x3000
}

/// What separates the pieces when text is split.
#[derive(Clone, Copy, Debug, PartialEq, Eq, Structural)]
pub enum Separator {
    /// Any run of whitespace.
    Whitespace,
    /// Line breaks.
    Newline,
}

pub open spec fn separates(sep: Separator, c: char) -> bool {
    match sep {
        Separator::Whitespace => is_space(c),
        Separator::Newline => c == '\n',
    }
}

pub fn is_separator(sep: Separator, c: char) -> (b: bool)
    ensures
        b == separates(sep, c),
{
    match sep {
        Separator::Newline => c == '\n',
        Separator::Whitespace => {
            let u = c as u32;
            (0x9 <= u && u <= 0xD) || u == 0x20 || u == 0x85 || u == 0xA0 || u == 0x1680 || (0x2000
                <= u && u <= 0x200A) || u == 0x2028 || u == 0x2029 || u == 0x202F || u == 0x205F
                || u == 0x3000
        },
    }
}

/// The pieces of `s` from position `i` on, given that the run `start..i`
/// holds no separator and `done` holds the pieces before it.
pub open spec fn pieces_from(sep: Separator, s: Seq<char>, i: int, start: int, done: Seq<Seq<char>>) -> Seq<Seq<char>>
    decreases s.len() - i,
{
    if i >= s.len() {
        if start < i && start < s.len() {
            done.push(s.subrange(start, s.len() as int))
        } else {
            done
        }
    } else if separates(sep, s[i]) {
        pieces_from(
            sep,
            s,
            i + 1,
            i + 1,
            if start < i { done.push(s.subrange(start, i)) } else { done },
        )
    } else {
        pieces_from(sep, s, i + 1, start, done)
    }
}

/// The maximal runs of characters that hold no separator, in order: what
/// `split_whitespace` (or splitting into non-empty lines) yields.
pub open spec fn pieces(sep: Separator, s: Seq<char>) -> Seq<Seq<char>> {
    pieces_from(sep, s, 0, 0, Seq::empty())
}

/// A piece: non-empty and free of separators.
pub open spec fn bare(sep: Separator, p: Seq<char>) -> bool {
    p.len() > 0 && forall|j: int| 0 <= j < p.len() ==> !separates(sep, #[trigger] p[j])
}

proof fn lemma_pieces_from_bare(sep: Separator, s: Seq<char>, i: int, start: int, done: Seq<Seq<char>>)
    requires
        0 <= start <= i,
        start <= s.len(),
        forall|k: int| start <= k < i && k < s.len() ==> !separates(sep, #[trigger] s[k]),
        forall|k: int| 0 <= k < done.len() ==> bare(sep, #[trigger] done[k]),
    ensures
        forall|k: int|
            0 <= k < pieces_from(sep, s, i, start, done).len() ==> bare(
                sep,
                #[trigger] pieces_from(sep, s, i, start, done)[k],
            ),
    decreases s.len() - i,
{
    if i >= s.len() {
        if start < i && start < s.len() {
            let p = s.subrange(start, s.len() as int);
            assert(bare(sep, p)) by {
                assert forall|j: int| 0 <= j < p.len() implies !separates(sep, #[trigger] p[j]) by {
                    assert(p[j] == s[start + j]);
                }
            }
            let all = done.push(p);
            assert forall|k: int| 0 <= k < all.len() implies bare(sep, #[trigger] all[k]) by {
                if k < done.len() {
                    assert(all[k] == done[k]);
                }
            }
            assert(pieces_from(sep, s, i, start, done) == all);
        } else {
            assert(pieces_from(sep, s, i, start, done) == done);
        }
    } else if separates(sep, s[i]) {
        let next = if start < i {
            let p = s.subrange(start, i);
            assert(bare(sep, p)) by {
                assert forall|j: int| 0 <= j < p.len() implies !separates(sep, #[trigger] p[j]) by {
                    assert(p[j] == s[start + j]);
                }
            }
            let all = done.push(p);
            assert forall|k: int| 0 <= k < all.len() implies bare(sep, #[trigger] all[k]) by {
                if k < done.len() {
                    assert(all[k] == done[k]);
                }
            }
            all
        } else {
            done
        };
        lemma_pieces_from_bare(sep, s, i + 1, i + 1, next);
        assert(pieces_from(sep, s, i, start, done) == pieces_from(sep, s, i + 1, i + 1, next));
    } else {
        lemma_pieces_from_bare(sep, s, i + 1, start, done);
        assert(pieces_from(sep, s, i, start, done) == pieces_from(sep, s, i + 1, start, done));
    }
}

/// Every piece is non-empty and holds no separator.
pub proof fn lemma_pieces_are_bare(sep: Separator, s: Seq<char>)
    ensures
        forall|k: int| 0 <= k < pieces(sep, s).len() ==> bare(sep, #[trigger] pieces(sep, s)[k]),
{
    lemma_pieces_from_bare(sep, s, 0, 0, Seq::empty());
}

/// The characters of each string slice.
pub open spec fn views<'a>(v: Seq<&'a str>) -> Seq<Seq<char>> {
    v.map_values(|s: &'a str| s@)
}

/// Splits `s` into the runs between separators.
pub fn split_pieces<'a>(s: &'a str, sep: Separator) -> (r: Vec<&'a str>)
    ensures
        views(r@) == pieces(sep, s@),
{
    let cs = chars_of(s);
    let n = cs.len();
    let mut out: Vec<&'a str> = Vec::new();
    let mut start: usize = 0;
    let mut i: usize = 0;
    assert(views(out@) =~= Seq::<Seq<char>>::empty());
    while i < n
        invariant
            cs@ == s@,
            n == s@.len(),
            start <= i <= n,
            pieces_from(sep, s@, i as int, start as int, views(out@)) == pieces(sep, s@),
        decreases n - i,
    {
        if is_separator(sep, cs[i]) {
            if start < i {
                let piece = s.substring_char(start, i);
                let ghost before = views(out@);
                out.push(piece);
                assert(views(out@) =~= before.push(s@.subrange(start as int, i as int)));
            }
            start = i + 1;
        }
        i = i + 1;
    }
    if start < n {
        let piece = s.substring_char(start, n);
        let ghost before = views(out@);
        out.push(piece);
        assert(views(out@) =~= before.push(s@.subrange(start as int, n as int)));
    }
    out
}

} // verus!

verus! {

/// Where `c` first occurs in `s`.
pub open spec fn index_of(s: Seq<char>, c: char) -> Option<int>
    decreases s.len(),
{
    if s.len() == 0 {
        None
    } else if s[0] == c {
        Some(0)
    } else {
        match index_of(s.drop_first(), c) {
            Some(i) => Some(i + 1),
            None => None,
        }
    }
}

proof fn lemma_index_of(s: Seq<char>, c: char)
    ensures
        match index_of(s, c) {
            Some(i) => 0 <= i < s.len() && s[i] == c && forall|j: int| 0 <= j < i ==> s[j] != c,
            None => forall|j: int| 0 <= j < s.len() ==> s[j] != c,
        },
    decreases s.len(),
{
    if s.len() > 0 && s[0] != c {
        lemma_index_of(s.drop_first(), c);
        match index_of(s.drop_first(), c) {
            Some(i) => {
                assert forall|j: int| 0 <= j < i + 1 implies s[j] != c by {
                    if j > 0 {
                        assert(s[j] == s.drop_first()[j - 1]);
                    }
                }
            },
            None => {
                assert forall|j: int| 0 <= j < s.len() implies s[j] != c by {
                    if j > 0 {
                        assert(s[j] == s.drop_first()[j - 1]);
                    }
                }
            },
        }
    }
}

/// The pieces of `s` between occurrences of `c`, empty pieces included: what
/// `str::split` with a character yields.
pub open spec fn fields(s: Seq<char>, c: char) -> Seq<Seq<char>>
    decreases s.len(),
{
    match index_of(s, c) {
        Some(i) => if 0 <= i < s.len() {
            seq![s.take(i)] + fields(s.skip(i + 1), c)
        } else {
            seq![s]
        },
        None => seq![s],
    }
}

/// Splits a string slice at every `c`.
pub fn split_fields<'a>(s: &'a str, c: char) -> (r: Vec<&'a str>)
    ensures
        views(r@) == fields(s@, c),
{
    let cs = chars_of(s);
    let n = cs.len();
    let mut out: Vec<&'a str> = Vec::new();
    let mut start: usize = 0;
    let mut i: usize = 0;
    assert(views(out@) =~= Seq::<Seq<char>>::empty());
    assert(s@.skip(0) =~= s@);
    while i < n
        invariant
            cs@ == s@,
            n == s@.len(),
            start <= i <= n,
            forall|j: int| start <= j < i ==> s@[j] != c,
            views(out@) + fields(s@.skip(start as int), c) == fields(s@, c),
        decreases n - i,
    {
        if cs[i] == c {
            let piece = s.substring_char(start, i);
            let ghost rest = s@.skip(start as int);
            proof {
                lemma_index_of(rest, c);
                assert(rest[i - start] == c);
                match index_of(rest, c) {
                    Some(k) => {
                        if k < i - start {
                            assert(rest[k] == s@[start + k]);
                        }
                        if k > i - start {
                            assert(rest[i - start] != c);
                        }
                        assert(k == i - start);
                    },
                    None => {
                        assert(false);
                    },
                }
                assert(rest.take(i - start) =~= s@.subrange(start as int, i as int));
                assert(rest.skip(i - start + 1) =~= s@.skip(i + 1));
            }
            let ghost before = views(out@);
            out.push(piece);
            assert(views(out@) =~= before.push(s@.subrange(start as int, i as int)));
            assert(views(out@) + fields(s@.skip(i + 1), c) =~= before + fields(rest, c));
            start = i + 1;
        }
        i = i + 1;
    }
    let piece = s.substring_char(start, n);
    let ghost rest = s@.skip(start as int);
    proof {
        lemma_index_of(rest, c);
        match index_of(rest, c) {
            Some(k) => {
                assert(rest[k] == s@[start + k]);
                assert(false);
            },
            None => {},
        }
        assert(rest =~= s@.subrange(start as int, n as int));
    }
    let ghost before = views(out@);
    out.push(piece);
    assert(views(out@) =~= before + seq![s@.subrange(start as int, n as int)]);
    out
}

/// The part of `s` before the first `c`, or all of it.
pub fn before_first<'a>(s: &'a str, c: char) -> (r: &'a str)
    ensures
        r@ == fields(s@, c)[0],
{
    let parts = split_fields(s, c);
    proof {
        lemma_fields_nonempty(s@, c);
    }
    parts[0]
}

pub proof fn lemma_fields_nonempty(s: Seq<char>, c: char)
    ensures
        fields(s, c).len() >= 1,
{
    match index_of(s, c) {
        Some(i) => {},
        None => {},
    }
}

} // verus!

verus! {

/// Whether `needle` occurs in `hay` starting at position `i`.
pub open spec fn occurs_at(hay: Seq<char>, needle: Seq<char>, i: int) -> bool {
    0 <= i && i + needle.len() <= hay.len() && hay.subrange(i, i + needle.len()) == needle
}

/// Whether `needle` occurs anywhere in `hay`: what `str::contains` answers
/// for a string pattern.
pub open spec fn contains_text(hay: Seq<char>, needle: Seq<char>) -> bool {
    exists|i: int| occurs_at(hay, needle, i)
}

/// Whether `needle` occurs somewhere in `hay`.
pub fn contains(hay: &str, needle: &str) -> (r: bool)
    ensures
        r == contains_text(hay@, needle@),
{
    let n = hay.unicode_len();
    let m = needle.unicode_len();
    if m > n {
        assert forall|i: int| !occurs_at(hay@, needle@, i) by {}
        return false;
    }
    let mut i: usize = 0;
    while i <= n - m
        invariant
            n == hay@.len(),
            m == needle@.len(),
            m <= n,
            i <= n - m + 1,
            forall|k: int| 0 <= k < i ==> !occurs_at(hay@, needle@, k),
        decreases n - m + 1 - i,
    {
        let mut j: usize = 0;
        let mut same = true;
        while j < m
            invariant
                n == hay@.len(),
                m == needle@.len(),
                i + m <= n,
                j <= m,
                same == forall|k: int| 0 <= k < j ==> hay@[i + k] == needle@[k],
            decreases m - j,
        {
            if hay.get_char(i + j) != needle.get_char(j) {
                same = false;
            }
            j = j + 1;
        }
        if same {
            assert(hay@.subrange(i as int, i + m) =~= needle@);
            assert(occurs_at(hay@, needle@, i as int));
            return true;
        }
        assert(!occurs_at(hay@, needle@, i as int)) by {
            if occurs_at(hay@, needle@, i as int) {
                assert forall|k: int| 0 <= k < m implies hay@[i + k] == needle@[k] by {
                    assert(hay@.subrange(i as int, i + m)[k] == hay@[i + k]);
                }
            }
        }
        i = i + 1;
    }
    false
}

} // verus!

verus! {

/// The characters of each string.
pub open spec fn string_views(v: Seq<String>) -> Seq<Seq<char>> {
    v.map_values(|s: String| s@)
}

/// The pieces with `sep` between each two: what `join` writes.
pub open spec fn joined(parts: Seq<Seq<char>>, sep: char) -> Seq<char>
    decreases parts.len(),
{
    if parts.len() == 0 {
        Seq::empty()
    } else if parts.len() == 1 {
        parts[0]
    } else {
        joined(parts.drop_last(), sep).push(sep) + parts.last()
    }
}

/// A tab, a newline or a carriage return: what separates columns and lines.
pub open spec fn is_break(c: char) -> bool {
    c == '\t' || c == '\n' || c == '\r'
}

/// Whether `s` holds no tab, newline or carriage return.
pub open spec fn no_breaks(s: Seq<char>) -> bool {
    forall|i: int| 0 <= i < s.len() ==> !is_break(#[trigger] s[i])
}

/// Whether `c` does not occur in `s`.
pub open spec fn free_of(s: Seq<char>, c: char) -> bool {
    forall|i: int| 0 <= i < s.len() ==> s[i] != c
}

/// Joins strings with a separator.
pub fn join(parts: &Vec<String>, sep: char) -> (r: String)
    ensures
        r@ == joined(string_views(parts@), sep),
{
    let mut out = String::new();
    let n = parts.len();
    if n == 0 {
        return out;
    }
    push_str(&mut out, parts[0].as_str());
    let mut i: usize = 1;
    assert(string_views(parts@).take(1) =~= seq![parts@[0]@]);
    while i < n
        invariant
            n == parts@.len(),
            1 <= i <= n,
            out@ == joined(string_views(parts@).take(i as int), sep),
        decreases n - i,
    {
        let ghost before = string_views(parts@).take(i as int);
        push_char(&mut out, sep);
        push_str(&mut out, parts[i].as_str());
        i = i + 1;
        let ghost after = string_views(parts@).take(i as int);
        assert(after.drop_last() =~= before);
        assert(after.last() == parts@[i - 1]@);
        assert(out@ =~= joined(after, sep));
    }
    assert(string_views(parts@).take(n as int) =~= string_views(parts@));
    out
}

/// A join splits as its first piece, a separator and the join of the rest.
pub proof fn lemma_joined_front(parts: Seq<Seq<char>>, sep: char)
    requires
        parts.len() >= 2,
    ensures
        joined(parts, sep) == parts[0].push(sep) + joined(parts.drop_first(), sep),
    decreases parts.len(),
{
    if parts.len() == 2 {
        assert(parts.drop_last() =~= seq![parts[0]]);
        assert(parts.drop_first() =~= seq![parts[1]]);
        assert(joined(parts.drop_last(), sep) == parts[0]);
        assert(joined(parts.drop_first(), sep) == parts[1]);
    } else {
        let front = parts.drop_last();
        let back = parts.drop_first();
        lemma_joined_front(front, sep);
        assert(front.drop_first() =~= back.drop_last());
        assert(back.last() == parts.last());
        assert(front[0] == parts[0]);
        let middle = joined(back.drop_last(), sep);
        assert(joined(front, sep) == parts[0].push(sep) + middle);
        assert(joined(back, sep) == middle.push(sep) + parts.last());
        assert(joined(parts, sep) == joined(front, sep).push(sep) + parts.last());
        assert(joined(parts, sep) =~= parts[0].push(sep) + joined(back, sep));
    }
}

/// A join holds no character that neither its pieces nor its separator
/// hold.
pub proof fn lemma_joined_free_of(parts: Seq<Seq<char>>, sep: char, x: char)
    requires
        sep != x,
        forall|k: int| 0 <= k < parts.len() ==> free_of(#[trigger] parts[k], x),
    ensures
        free_of(joined(parts, sep), x),
    decreases parts.len(),
{
    if parts.len() >= 2 {
        let front = parts.drop_last();
        assert forall|k: int| 0 <= k < front.len() implies free_of(#[trigger] front[k], x) by {
            assert(front[k] == parts[k]);
        }
        lemma_joined_free_of(front, sep, x);
        let a = joined(front, sep).push(sep);
        let b = parts.last();
        assert(free_of(b, x));
        assert forall|i: int| 0 <= i < (a + b).len() implies (a + b)[i] != x by {
            if i < a.len() - 1 {
                assert((a + b)[i] == joined(front, sep)[i]);
            } else if i >= a.len() {
                assert((a + b)[i] == b[i - a.len()]);
            }
        }
    } else if parts.len() == 1 {
        assert(free_of(parts[0], x));
    }
}

/// A join of pieces with no breaks, by a separator that is not one, has
/// none.
pub proof fn lemma_joined_no_breaks(parts: Seq<Seq<char>>, sep: char)
    requires
        !is_break(sep),
        forall|k: int| 0 <= k < parts.len() ==> no_breaks(#[trigger] parts[k]),
    ensures
        no_breaks(joined(parts, sep)),
    decreases parts.len(),
{
    if parts.len() >= 2 {
        let front = parts.drop_last();
        assert forall|k: int| 0 <= k < front.len() implies no_breaks(#[trigger] front[k]) by {
            assert(front[k] == parts[k]);
        }
        lemma_joined_no_breaks(front, sep);
        let a = joined(front, sep).push(sep);
        let b = parts.last();
        assert(no_breaks(b));
        assert forall|i: int| 0 <= i < (a + b).len() implies !is_break(#[trigger] (a + b)[i]) by {
            if i < a.len() - 1 {
                assert((a + b)[i] == joined(front, sep)[i]);
            } else if i >= a.len() {
                assert((a + b)[i] == b[i - a.len()]);
            }
        }
    } else if parts.len() == 1 {
        assert(no_breaks(parts[0]));
    }
}

/// A join starts with the first character of its first piece.
pub proof fn lemma_joined_first(parts: Seq<Seq<char>>, sep: char)
    requires
        parts.len() >= 1,
        parts[0].len() > 0,
    ensures
        joined(parts, sep).len() > 0,
        joined(parts, sep)[0] == parts[0][0],
{
    if parts.len() >= 2 {
        lemma_joined_front(parts, sep);
        assert((parts[0].push(sep) + joined(parts.drop_first(), sep))[0] == parts[0][0]);
    }
}

pub(crate) proof fn lemma_index_of_after_free(a: Seq<char>, c: char, b: Seq<char>)
    requires
        free_of(a, c),
    ensures
        index_of(a.push(c) + b, c) == Some(a.len() as int),
    decreases a.len(),
{
    let s = a.push(c) + b;
    if a.len() > 0 {
        assert(s.drop_first() =~= a.drop_first().push(c) + b);
        lemma_index_of_after_free(a.drop_first(), c, b);
    }
}

/// Splitting text that follows a separator-terminated text: the empty piece
/// after the last separator of `x` gives way to the first piece of `y`.
pub proof fn lemma_fields_concat(x: Seq<char>, y: Seq<char>, c: char)
    requires
        x.len() > 0,
        x.last() == c,
    ensures
        fields(x + y, c) == fields(x, c).drop_last() + fields(y, c),
    decreases x.len(),
{
    lemma_index_of(x, c);
    let i = index_of(x, c).unwrap();
    let p = x.take(i);
    let q = x.skip(i + 1);
    assert(free_of(p, c));
    assert(x =~= p.push(c) + q);
    assert(x + y =~= p.push(c) + (q + y));
    lemma_index_of_after_free(p, c, q + y);
    assert((x + y).take(i) =~= p);
    assert((x + y).skip(i + 1) =~= q + y);
    assert(fields(x + y, c) == seq![p] + fields(q + y, c));
    assert(fields(x, c) == seq![p] + fields(q, c));
    if q.len() == 0 {
        assert(q + y =~= y);
        assert(fields(q, c) == seq![q]);
        assert(fields(x, c).drop_last() =~= seq![p]);
    } else {
        assert(q.last() == x.last());
        lemma_fields_concat(q, y, c);
        lemma_fields_nonempty(q, c);
        assert((seq![p] + fields(q, c)).drop_last() =~= seq![p] + fields(q, c).drop_last());
        assert(seq![p] + (fields(q, c).drop_last() + fields(y, c)) =~= (seq![p] + fields(q, c).drop_last()) + fields(y, c));
    }
}

/// Splitting a join at its separator gives the pieces back, provided no
/// piece holds the separator itself.
pub proof fn lemma_fields_of_joined(parts: Seq<Seq<char>>, c: char)
    requires
        parts.len() >= 1,
        forall|k: int| 0 <= k < parts.len() ==> free_of(#[trigger] parts[k], c),
    ensures
        fields(joined(parts, c), c) == parts,
    decreases parts.len(),
{
    if parts.len() == 1 {
        lemma_index_of(parts[0], c);
        assert(fields(parts[0], c) == seq![parts[0]]);
        assert(fields(joined(parts, c), c) =~= parts);
    } else {
        lemma_joined_front(parts, c);
        let rest = joined(parts.drop_first(), c);
        let s = parts[0].push(c) + rest;
        assert(free_of(parts[0], c));
        lemma_index_of_after_free(parts[0], c, rest);
        assert(s.take(parts[0].len() as int) =~= parts[0]);
        assert(s.skip(parts[0].len() as int + 1) =~= rest);
        assert forall|k: int| 0 <= k < parts.drop_first().len() implies free_of(
            #[trigger] parts.drop_first()[k],
            c,
        ) by {
            assert(parts.drop_first()[k] == parts[k + 1]);
        }
        lemma_fields_of_joined(parts.drop_first(), c);
        assert(fields(joined(parts, c), c) =~= parts);
    }
}

} // verus!

verus! {

/// A Unicode scalar value: a code point that is not a surrogate.
pub open spec fn is_scalar(v: int) -> bool {
    (0 <= v <= 0xD7FF) || (0xE000 <= v <= 0x10FFFF)
}

/// `char::from_u32`: the character with the given code point, or `None` when
/// the value is not a Unicode scalar value.
#[verifier::external_body]
pub(crate) fn char_from_u32(v: u32) -> (r: Option<char>)
    ensures
        r is Some <==> is_scalar(v as int),
        r matches Some(c) ==> c as u32 == v,
{
    char::from_u32(v)
}

} // verus!

verus! {

/// Whether `a` sorts before `b`: character by character by code point, a
/// proper prefix first. This is the order of `str`'s `Ord`.
pub open spec fn text_less(a: Seq<char>, b: Seq<char>) -> bool
    decreases a.len(),
{
    if a.len() == 0 {
        b.len() > 0
    } else if b.len() == 0 {
        false
    } else if a[0] != b[0] {
        (a[0] as u32) < (b[0] as u32)
    } else {
        text_less(a.drop_first(), b.drop_first())
    }
}

proof fn lemma_text_irreflexive(a: Seq<char>)
    ensures
        !text_less(a, a),
    decreases a.len(),
{
    if a.len() > 0 {
        lemma_text_irreflexive(a.drop_first());
    }
}

/// `text_less` is a strict total order.
pub proof fn lemma_text_order(a: Seq<char>, b: Seq<char>, c: Seq<char>)
    ensures
        !text_less(a, a),
        a != b ==> text_less(a, b) || text_less(b, a),
        !(text_less(a, b) && text_less(b, a)),
        text_less(a, b) && text_less(b, c) ==> text_less(a, c),
    decreases a.len() + b.len() + c.len(),
{
    if a.len() > 0 && b.len() > 0 && c.len() > 0 {
        lemma_text_order(a.drop_first(), b.drop_first(), c.drop_first());
    } else if a.len() > 0 && b.len() > 0 {
        lemma_text_order(a.drop_first(), b.drop_first(), Seq::empty());
    }
    lemma_text_irreflexive(a);
    if a.len() > 0 && b.len() > 0 && a[0] == b[0] && a != b {
        assert(a.drop_first() != b.drop_first()) by {
            if a.drop_first() == b.drop_first() {
                assert(a =~= seq![a[0]] + a.drop_first());
                assert(b =~= seq![b[0]] + b.drop_first());
            }
        }
    }
    if a.len() > 0 && b.len() > 0 && (a[0] as u32) == (b[0] as u32) {
        vstd::utf8::char_u32_cast(a[0], a[0] as u32);
        vstd::utf8::char_u32_cast(b[0], b[0] as u32);
    }
    if b.len() > 0 && c.len() > 0 && (b[0] as u32) == (c[0] as u32) {
        vstd::utf8::char_u32_cast(b[0], b[0] as u32);
        vstd::utf8::char_u32_cast(c[0], c[0] as u32);
    }
    if a.len() == 0 && b.len() == 0 {
        assert(a =~= b);
    }
}

/// Whether `a` sorts before `b`.
pub fn text_before(a: &str, b: &str) -> (r: bool)
    ensures
        r == text_less(a@, b@),
{
    let n = a.unicode_len();
    let m = b.unicode_len();
    let mut i: usize = 0;
    assert(a@.skip(0) =~= a@);
    assert(b@.skip(0) =~= b@);
    while i < n && i < m
        invariant
            n == a@.len(),
            m == b@.len(),
            i <= n,
            i <= m,
            text_less(a@, b@) == text_less(a@.skip(i as int), b@.skip(i as int)),
        decreases n - i,
    {
        let x = a.get_char(i);
        let y = b.get_char(i);
        assert(a@.skip(i as int)[0] == x);
        assert(b@.skip(i as int)[0] == y);
        if x != y {
            return (x as u32) < (y as u32);
        }
        assert(a@.skip(i as int).drop_first() =~= a@.skip(i + 1));
        assert(b@.skip(i as int).drop_first() =~= b@.skip(i + 1));
        i = i + 1;
    }
    i < m && i == n
}

} // verus!

verus! {

/// The pieces with `sep` between each two.
pub open spec fn joined_by(parts: Seq<Seq<char>>, sep: Seq<char>) -> Seq<char>
    decreases parts.len(),
{
    if parts.len() == 0 {
        Seq::empty()
    } else if parts.len() == 1 {
        parts[0]
    } else {
        joined_by(parts.drop_last(), sep) + sep + parts.last()
    }
}

/// Joins string slices with a separator.
pub fn join_by(parts: &Vec<&str>, sep: &str) -> (r: String)
    ensures
        r@ == joined_by(views(parts@), sep@),
{
    let mut out = String::new();
    let n = parts.len();
    if n == 0 {
        return out;
    }
    push_str(&mut out, parts[0]);
    let mut i: usize = 1;
    assert(views(parts@).take(1) =~= seq![parts@[0]@]);
    while i < n
        invariant
            n == parts@.len(),
            1 <= i <= n,
            out@ == joined_by(views(parts@).take(i as int), sep@),
        decreases n - i,
    {
        let ghost before = views(parts@).take(i as int);
        push_str(&mut out, sep);
        push_str(&mut out, parts[i]);
        i = i + 1;
        let ghost after = views(parts@).take(i as int);
        assert(after.drop_last() =~= before);
        assert(after.last() == parts@[i - 1]@);
        assert(out@ =~= joined_by(after, sep@));
    }
    assert(views(parts@).take(n as int) =~= views(parts@));
    out
}

} // verus!
