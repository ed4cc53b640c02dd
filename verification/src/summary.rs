//! Aggregates a history of results into the figures worth looking at.
//!
//! Pure functions over a list of records, so the interesting arithmetic —
//! totals, trends, which letters let you down — can be checked without any
//! files or terminals involved. Speeds are in hundredths of a word per
//! minute, as the history stores them, and averages are handed out as exact
//! totals with the count they are over.
use vstd::prelude::*;

use crate::tally::{entries_map, has_key, lemma_entries_map_prefix, sorted_by_rank, Tally, TallyKey};
use crate::engine::SlipTally;
use crate::stats::{KeyTallies, KeyTally};
use crate::history::Record;
use crate::datetime::{parse_date, parse_date_spec, Date};
use crate::text::{
    decimal, decimal_i64, decimal_u64, lemma_text_order, owned, push_str, same_text, signed_decimal,
    text_before, text_less,
};

verus! {

/// How many tests the recent average and the improvement look at.
pub const RECENT_WINDOW: usize = 10;

/// How many tests the trend keeps.
pub const TREND_WINDOW: usize = 20;

/// How many times a letter must have been typed before it can be called
/// trouble, and how many letters and confusions to report.
#[derive(Clone, Copy, Debug, PartialEq, Eq, Structural)]
pub struct TroubleOptions {
    pub min_attempts: u32,
    pub keys: usize,
    pub slips: usize,
}

impl Default for TroubleOptions {
    fn default() -> (o: TroubleOptions)
        ensures
            o == (TroubleOptions { min_attempts: 20, keys: 8, slips: 6 }),
    {
        TroubleOptions { min_attempts: 20, keys: 8, slips: 6 }
    }
}

/// One letter typed in place of another.
#[derive(Clone, Copy, Debug, PartialEq, Eq, Structural)]
pub struct Slip {
    pub expected: char,
    pub actual: char,
    pub count: u32,
}

/// The order confusions are reported in: most frequent first, and among
/// equally frequent ones, by expected letter and then by typed letter.
pub open spec fn slip_before(a: Slip, b: Slip) -> bool {
    a.count > b.count || (a.count == b.count && (a.expected, a.actual).rank() < (
    b.expected,
    b.actual,
    ).rank())
}

/// The confusion an entry of a slip tally stands for.
pub open spec fn slip_of(pair: (char, char), count: u32) -> Slip {
    Slip { expected: pair.0, actual: pair.1, count }
}

/// Whether `r` is the `limit` most frequent confusions of `tally`, in
/// reporting order.
pub open spec fn top_of(tally: Map<(char, char), u32>, r: Seq<Slip>, limit: int) -> bool {
    &&& forall|i: int, j: int| 0 <= i < j < r.len() ==> slip_before(r[i], r[j])
    &&& forall|i: int|
        0 <= i < r.len() ==> tally.contains_key((r[i].expected, r[i].actual)) && tally[(
        r[i].expected,
        r[i].actual,
        )] == #[trigger] r[i].count
    &&& r.len() == if limit < tally.len() { limit } else { tally.len() as int }
    &&& forall|k: (char, char)|
        #[trigger] tally.contains_key(k) ==> (exists|i: int|
            0 <= i < r.len() && (r[i].expected, r[i].actual) == k) || (forall|i: int|
            0 <= i < r.len() ==> slip_before(r[i], slip_of(k, tally[k])))
}

proof fn lemma_slip_order_total(a: Slip, b: Slip)
    requires
        (a.expected, a.actual) != (b.expected, b.actual),
    ensures
        slip_before(a, b) || slip_before(b, a),
{
    <(char, char) as TallyKey>::rank_injective((a.expected, a.actual), (b.expected, b.actual));
}

fn slip_first(a: &Slip, b: &Slip) -> (r: bool)
    ensures
        r == slip_before(*a, *b),
{
    a.count > b.count || (a.count == b.count && (a.expected, a.actual).rank_of() < (
    b.expected,
    b.actual,
    ).rank_of())
}

/// Whether confusions are in reporting order.
pub open spec fn slips_ranked(r: Seq<Slip>) -> bool {
    forall|x: int, y: int| 0 <= x < y < r.len() ==> slip_before(r[x], r[y])
}

/// Puts a confusion into its place among ranked ones with other keys.
fn insert_slip(ranked: &mut Vec<Slip>, slip: Slip) -> (p: usize)
    requires
        slips_ranked(old(ranked)@),
        forall|x: int|
            0 <= x < old(ranked)@.len() ==> (#[trigger] old(ranked)@[x].expected, old(
                ranked,
            )@[x].actual) != (slip.expected, slip.actual),
    ensures
        p <= old(ranked)@.len(),
        final(ranked)@ == old(ranked)@.insert(p as int, slip),
        slips_ranked(final(ranked)@),
{
    let mut p: usize = 0;
    while p < ranked.len() && !slip_first(&slip, &ranked[p])
        invariant
            p <= ranked@.len(),
            forall|x: int| 0 <= x < p ==> !slip_before(slip, #[trigger] ranked@[x]),
        decreases ranked@.len() - p,
    {
        p = p + 1;
    }
    let ghost before = ranked@;
    proof {
        assert forall|x: int| 0 <= x < p implies slip_before(#[trigger] before[x], slip) by {
            lemma_slip_order_total(before[x], slip);
        }
        assert forall|x: int| p <= x < before.len() implies slip_before(slip, #[trigger] before[x]) by {
            if x > p {
                assert(slip_before(before[p as int], before[x]));
            }
        }
    }
    ranked.insert(p, slip);
    proof {
        let after = ranked@;
        assert forall|x: int, y: int| 0 <= x < y < after.len() implies slip_before(after[x], after[y]) by {
            if y < p {
                assert(slip_before(before[x], before[y]));
            } else if y == p {
                assert(after[x] == before[x]);
            } else if x == p {
                assert(after[y] == before[y - 1]);
            } else if x < p {
                assert(slip_before(before[x], before[y - 1]));
            } else {
                assert(slip_before(before[x - 1], before[y - 1]));
            }
        }
    }
    p
}

/// The most frequent letter confusions, at most `limit` of them.
pub fn top_slips(slips: &SlipTally, limit: usize) -> (r: Vec<Slip>)
    requires
        slips.wf(),
    ensures
        top_of(slips.map(), r@, limit as int),
{
    let entries = slips.entries();
    let n = entries.len();
    let mut ranked: Vec<Slip> = Vec::new();
    let mut i: usize = 0;
    while i < n
        invariant
            entries@ == slips.seq(),
            sorted_by_rank(entries@),
            n == entries@.len(),
            i <= n,
            ranked@.len() == i,
            slips_ranked(ranked@),
            forall|x: int|
                #![trigger ranked@[x]]
                0 <= x < ranked@.len() ==> exists|j: int|
                    0 <= j < i && #[trigger] slip_of(entries@[j].0, entries@[j].1) == ranked@[x],
            forall|j: int|
                #![trigger entries@[j]]
                0 <= j < i ==> exists|x: int|
                    0 <= x < ranked@.len() && slip_of(entries@[j].0, entries@[j].1)
                        == #[trigger] ranked@[x],
        decreases n - i,
    {
        let ((expected, actual), count) = entries[i];
        let slip = Slip { expected, actual, count };
        assert(slip == slip_of(entries@[i as int].0, entries@[i as int].1));
        assert forall|x: int| 0 <= x < ranked@.len() implies (#[trigger] ranked@[x].expected,
            ranked@[x].actual) != (expected, actual) by {
            let j = choose|j: int|
                0 <= j < i && #[trigger] slip_of(entries@[j].0, entries@[j].1) == ranked@[x];
            assert(entries@[j].0.rank() < entries@[i as int].0.rank());
        }
        let ghost before = ranked@;
        let p = insert_slip(&mut ranked, slip);
        proof {
            assert forall|x: int| #![trigger ranked@[x]] 0 <= x < ranked@.len() implies exists|j: int|
                0 <= j < i + 1 && #[trigger] slip_of(entries@[j].0, entries@[j].1) == ranked@[x] by {
                if x < p {
                    assert(ranked@[x] == before[x]);
                } else if x == p {
                    assert(slip_of(entries@[i as int].0, entries@[i as int].1) == ranked@[x]);
                } else {
                    assert(ranked@[x] == before[x - 1]);
                }
            }
            assert forall|j: int| #![trigger entries@[j]] 0 <= j < i + 1 implies exists|x: int|
                0 <= x < ranked@.len() && slip_of(entries@[j].0, entries@[j].1)
                    == #[trigger] ranked@[x] by {
                if j == i {
                    assert(ranked@[p as int] == slip);
                } else {
                    let x = choose|x: int|
                        0 <= x < before.len() && slip_of(entries@[j].0, entries@[j].1)
                            == #[trigger] before[x];
                    if x < p {
                        assert(ranked@[x] == before[x]);
                    } else {
                        assert(ranked@[x + 1] == before[x]);
                    }
                }
            }
        }
        i = i + 1;
    }
    let keep = if limit < n {
        limit
    } else {
        n
    };
    let ghost full = ranked@;
    ranked.truncate(keep);
    proof {
        let m = slips.map();
        let s = entries@;
        assert(ranked@ == full.take(keep as int));
        crate::tally::lemma_map_len(s);
        assert forall|x: int| 0 <= x < ranked@.len() implies m.contains_key(
            (ranked@[x].expected, ranked@[x].actual),
        ) && m[(ranked@[x].expected, ranked@[x].actual)] == #[trigger] ranked@[x].count by {
            assert(ranked@[x] == full[x]);
            let j = choose|j: int| 0 <= j < n && #[trigger] slip_of(s[j].0, s[j].1) == full[x];
            crate::tally::lemma_unique_index(s, s[j].0);
        }
        assert forall|k: (char, char)| #[trigger] m.contains_key(k) implies (exists|i: int|
            0 <= i < ranked@.len() && (ranked@[i].expected, ranked@[i].actual) == k) || (forall|i: int|
            0 <= i < ranked@.len() ==> slip_before(ranked@[i], slip_of(k, m[k]))) by {
            let j = choose|j: int| 0 <= j < s.len() && #[trigger] s[j].0 == k;
            crate::tally::lemma_unique_index(s, k);
            let x = choose|x: int|
                0 <= x < full.len() && slip_of(s[j].0, s[j].1) == #[trigger] full[x];
            if x < keep {
                assert(ranked@[x] == full[x]);
            } else {
                assert forall|i: int| 0 <= i < ranked@.len() implies slip_before(
                    ranked@[i],
                    slip_of(k, m[k]),
                ) by {
                    assert(ranked@[i] == full[i]);
                }
            }
        }
    }
    ranked
}

/// A letter that goes wrong often enough to be worth practising. Its
/// accuracy is `(attempts - errors) / attempts`.
#[derive(Clone, Copy, Debug, PartialEq, Eq, Structural)]
pub struct TroubleKey {
    pub key: char,
    pub attempts: u32,
    pub errors: u32,
}

/// Whether a letter's tally makes it trouble: typed often enough, and
/// wrong at least once.
pub open spec fn is_trouble(t: KeyTally, min_attempts: u32) -> bool {
    t.attempts >= min_attempts && t.errors > 0
}

/// Whether `a` is strictly less accurate than `b`.
pub open spec fn less_accurate(a: TroubleKey, b: TroubleKey) -> bool {
    (a.attempts - a.errors) * b.attempts < (b.attempts - b.errors) * a.attempts
}

/// Whether `a` and `b` are exactly as accurate as each other.
pub open spec fn as_accurate(a: TroubleKey, b: TroubleKey) -> bool {
    (a.attempts - a.errors) * b.attempts == (b.attempts - b.errors) * a.attempts
}

/// The order trouble is reported in: worst accuracy first; where two letters
/// are equally bad, the one that went wrong more often; then by letter.
pub open spec fn trouble_before(a: TroubleKey, b: TroubleKey) -> bool {
    less_accurate(a, b) || (as_accurate(a, b) && (a.errors > b.errors || (a.errors == b.errors
        && (a.key as u32) < (b.key as u32))))
}

/// A tally that can be judged: at least as many attempts as errors.
pub open spec fn sane(t: TroubleKey) -> bool {
    0 < t.errors <= t.attempts
}

pub open spec fn trouble_of(key: char, t: KeyTally) -> TroubleKey {
    TroubleKey { key, attempts: t.attempts, errors: t.errors }
}

/// Whether trouble keys are in reporting order.
pub open spec fn trouble_ranked(r: Seq<TroubleKey>) -> bool {
    forall|x: int, y: int| 0 <= x < y < r.len() ==> trouble_before(r[x], r[y])
}

/// Whether `r` is the (at most `options.keys`) worst letters of `tally`, in
/// reporting order.
pub open spec fn worst_of(tally: Map<char, KeyTally>, options: TroubleOptions, r: Seq<TroubleKey>) -> bool {
    &&& trouble_ranked(r)
    &&& r.len() <= options.keys
    &&& forall|i: int|
        0 <= i < r.len() ==> tally.contains_key(#[trigger] r[i].key) && is_trouble(
            tally[r[i].key],
            options.min_attempts,
        ) && r[i] == trouble_of(r[i].key, tally[r[i].key])
    &&& forall|c: char|
        #[trigger] tally.contains_key(c) && is_trouble(tally[c], options.min_attempts) ==> (exists|i: int|
            0 <= i < r.len() && r[i].key == c) || (r.len() == options.keys && forall|i: int|
            0 <= i < r.len() ==> trouble_before(r[i], trouble_of(c, tally[c])))
}

proof fn lemma_accuracy_chain(a: TroubleKey, b: TroubleKey, c: TroubleKey)
    requires
        sane(a),
        sane(b),
        sane(c),
    ensures
        less_accurate(a, b) && less_accurate(b, c) ==> less_accurate(a, c),
        less_accurate(a, b) && as_accurate(b, c) ==> less_accurate(a, c),
        as_accurate(a, b) && less_accurate(b, c) ==> less_accurate(a, c),
        as_accurate(a, b) && as_accurate(b, c) ==> as_accurate(a, c),
{
    let (pa, qa) = ((a.attempts - a.errors) as int, a.attempts as int);
    let (pb, qb) = ((b.attempts - b.errors) as int, b.attempts as int);
    let (pc, qc) = ((c.attempts - c.errors) as int, c.attempts as int);
    assert(pa * qb < pb * qa && pb * qc < pc * qb ==> pa * qc < pc * qa) by (nonlinear_arith)
        requires
            pa >= 0,
            pb >= 0,
            pc >= 0,
            qa > 0,
            qb > 0,
            qc > 0,
    ;
    assert(pa * qb < pb * qa && pb * qc == pc * qb ==> pa * qc < pc * qa) by (nonlinear_arith)
        requires
            pa >= 0,
            pb >= 0,
            pc >= 0,
            qa > 0,
            qb > 0,
            qc > 0,
    ;
    assert(pa * qb == pb * qa && pb * qc < pc * qb ==> pa * qc < pc * qa) by (nonlinear_arith)
        requires
            pa >= 0,
            pb >= 0,
            pc >= 0,
            qa > 0,
            qb > 0,
            qc > 0,
    ;
    assert(pa * qb == pb * qa && pb * qc == pc * qb ==> pa * qc == pc * qa) by (nonlinear_arith)
        requires
            pa >= 0,
            pb >= 0,
            pc >= 0,
            qa > 0,
            qb > 0,
            qc > 0,
    ;
}

proof fn lemma_trouble_order(a: TroubleKey, b: TroubleKey, c: TroubleKey)
    requires
        sane(a),
        sane(b),
        sane(c),
    ensures
        trouble_before(a, b) && trouble_before(b, c) ==> trouble_before(a, c),
        a.key != b.key ==> trouble_before(a, b) || trouble_before(b, a),
        !(trouble_before(a, b) && trouble_before(b, a)),
{
    lemma_accuracy_chain(a, b, c);
    lemma_accuracy_chain(a, b, a);
    lemma_accuracy_chain(b, a, b);
    if (a.key as u32) == (b.key as u32) {
        vstd::utf8::char_u32_cast(a.key, a.key as u32);
        vstd::utf8::char_u32_cast(b.key, b.key as u32);
    }
}

fn trouble_first(a: &TroubleKey, b: &TroubleKey) -> (r: bool)
    requires
        sane(*a),
        sane(*b),
    ensures
        r == trouble_before(*a, *b),
{
    let pa: u64 = (a.attempts - a.errors) as u64;
    let pb: u64 = (b.attempts - b.errors) as u64;
    let qa: u64 = a.attempts as u64;
    let qb: u64 = b.attempts as u64;
    assert(pa * qb <= 0xFFFF_FFFE_0000_0001) by (nonlinear_arith)
        requires
            pa <= 0xFFFF_FFFF,
            qb <= 0xFFFF_FFFF,
    ;
    assert(pb * qa <= 0xFFFF_FFFE_0000_0001) by (nonlinear_arith)
        requires
            pb <= 0xFFFF_FFFF,
            qa <= 0xFFFF_FFFF,
    ;
    let left: u64 = pa * qb;
    let right: u64 = pb * qa;
    left < right || (left == right && (a.errors > b.errors || (a.errors == b.errors
        && (a.key as u32) < (b.key as u32))))
}

fn insert_trouble(ranked: &mut Vec<TroubleKey>, key: TroubleKey) -> (p: usize)
    requires
        trouble_ranked(old(ranked)@),
        sane(key),
        forall|x: int| 0 <= x < old(ranked)@.len() ==> sane(#[trigger] old(ranked)@[x]),
        forall|x: int| 0 <= x < old(ranked)@.len() ==> (#[trigger] old(ranked)@[x]).key != key.key,
    ensures
        p <= old(ranked)@.len(),
        final(ranked)@ == old(ranked)@.insert(p as int, key),
        trouble_ranked(final(ranked)@),
{
    let mut p: usize = 0;
    while p < ranked.len() && !trouble_first(&key, &ranked[p])
        invariant
            p <= ranked@.len(),
            sane(key),
            forall|x: int| 0 <= x < ranked@.len() ==> sane(#[trigger] ranked@[x]),
            forall|x: int| 0 <= x < p ==> !trouble_before(key, #[trigger] ranked@[x]),
        decreases ranked@.len() - p,
    {
        p = p + 1;
    }
    let ghost before = ranked@;
    proof {
        assert forall|x: int| 0 <= x < p implies trouble_before(#[trigger] before[x], key) by {
            lemma_trouble_order(before[x], key, key);
        }
        assert forall|x: int| p <= x < before.len() implies trouble_before(key, #[trigger] before[x]) by {
            if x > p {
                assert(trouble_before(before[p as int], before[x]));
                lemma_trouble_order(key, before[p as int], before[x]);
            }
        }
    }
    ranked.insert(p, key);
    proof {
        let after = ranked@;
        assert forall|x: int, y: int| 0 <= x < y < after.len() implies trouble_before(after[x], after[y]) by {
            if y < p {
                assert(trouble_before(before[x], before[y]));
            } else if y == p {
                assert(after[x] == before[x]);
            } else if x == p {
                assert(after[y] == before[y - 1]);
            } else if x < p {
                assert(trouble_before(before[x], before[y - 1]));
            } else {
                assert(trouble_before(before[x - 1], before[y - 1]));
            }
        }
    }
    p
}

/// The letters that go wrong most often, worst accuracy first.
///
/// Letters typed only a handful of times are excluded: one slip on a letter
/// you have typed twice says nothing, and would otherwise dominate the list.
pub fn trouble_keys(keys: &KeyTallies, options: TroubleOptions) -> (r: Vec<TroubleKey>)
    requires
        keys.wf(),
        forall|c: char|
            #[trigger] keys.map().contains_key(c) && is_trouble(keys.map()[c], options.min_attempts)
                ==> keys.map()[c].errors <= keys.map()[c].attempts,
    ensures
        worst_of(keys.map(), options, r@),
{
    let entries = keys.entries();
    let n = entries.len();
    let ghost m = keys.map();
    let ghost s = entries@;
    let mut ranked: Vec<TroubleKey> = Vec::new();
    // Where each ranked key came from, and where each entry's key went.
    let ghost mut src: Seq<int> = Seq::empty();
    let ghost mut pos: Seq<int> = Seq::empty();
    let mut i: usize = 0;
    while i < n
        invariant
            s == entries@,
            s == keys.seq(),
            m == keys.map(),
            sorted_by_rank(s),
            n == s.len(),
            i <= n,
            forall|c: char|
                #[trigger] m.contains_key(c) && is_trouble(m[c], options.min_attempts) ==> m[c].errors
                    <= m[c].attempts,
            trouble_ranked(ranked@),
            forall|x: int| 0 <= x < ranked@.len() ==> sane(#[trigger] ranked@[x]),
            src.len() == ranked@.len(),
            forall|x: int|
                #![trigger src[x]]
                0 <= x < src.len() ==> 0 <= src[x] < i && is_trouble(s[src[x]].1, options.min_attempts)
                    && ranked@[x] == trouble_of(s[src[x]].0, s[src[x]].1),
            pos.len() == i,
            forall|j: int|
                #![trigger pos[j]]
                0 <= j < i && is_trouble(s[j].1, options.min_attempts) ==> 0 <= pos[j] < ranked@.len()
                    && ranked@[pos[j]] == trouble_of(s[j].0, s[j].1),
        decreases n - i,
    {
        let (letter, tally) = entries[i];
        proof {
            crate::tally::lemma_unique_index(s, letter);
            assert(m.contains_key(letter));
        }
        if tally.attempts >= options.min_attempts && tally.errors > 0 {
            let key = TroubleKey { key: letter, attempts: tally.attempts, errors: tally.errors };
            assert forall|x: int| 0 <= x < ranked@.len() implies (#[trigger] ranked@[x]).key != letter by {
                assert(s[src[x]].0.rank() < s[i as int].0.rank());
            }
            let ghost before = ranked@;
            let p = insert_trouble(&mut ranked, key);
            proof {
                before.insert_ensures(p as int, key);
                let old_src = src;
                let old_pos = pos;
                src = old_src.insert(p as int, i as int);
                old_src.insert_ensures(p as int, i as int);
                pos = Seq::new(i as nat, |j: int| if old_pos[j] >= p { old_pos[j] + 1 } else { old_pos[j] }).push(p as int);
                assert forall|x: int| #![trigger src[x]] 0 <= x < src.len() implies 0 <= src[x] < i + 1
                    && is_trouble(s[src[x]].1, options.min_attempts) && ranked@[x] == trouble_of(
                    s[src[x]].0,
                    s[src[x]].1,
                ) by {
                    if x < p {
                        assert(src[x] == old_src[x]);
                        assert(ranked@[x] == before[x]);
                    } else if x > p {
                        assert(src[x] == old_src[x - 1]);
                        assert(ranked@[x] == before[x - 1]);
                    }
                }
                assert forall|j: int| #![trigger pos[j]] 0 <= j < i + 1 && is_trouble(
                    s[j].1,
                    options.min_attempts,
                ) implies 0 <= pos[j] < ranked@.len() && ranked@[pos[j]] == trouble_of(s[j].0, s[j].1) by {
                    if j < i {
                        assert(old_pos[j] == old_pos[j]);
                        if old_pos[j] >= p {
                            assert(ranked@[old_pos[j] + 1] == before[old_pos[j]]);
                        } else {
                            assert(ranked@[old_pos[j]] == before[old_pos[j]]);
                        }
                    }
                }
                assert forall|x: int| 0 <= x < ranked@.len() implies sane(#[trigger] ranked@[x]) by {
                    if x < p {
                        assert(ranked@[x] == before[x]);
                    } else if x > p {
                        assert(ranked@[x] == before[x - 1]);
                    }
                }
            }
        } else {
            proof {
                pos = pos.push(-1);
            }
        }
        i = i + 1;
    }
    let keep = if options.keys < ranked.len() {
        options.keys
    } else {
        ranked.len()
    };
    let ghost full = ranked@;
    ranked.truncate(keep);
    proof {
        assert(ranked@ == full.take(keep as int));
        assert forall|x: int| 0 <= x < ranked@.len() implies m.contains_key(#[trigger] ranked@[x].key)
            && is_trouble(m[ranked@[x].key], options.min_attempts) && ranked@[x] == trouble_of(
            ranked@[x].key,
            m[ranked@[x].key],
        ) by {
            assert(ranked@[x] == full[x]);
            let j = src[x];
            crate::tally::lemma_unique_index(s, s[j].0);
        }
        assert forall|c: char| #[trigger] m.contains_key(c) && is_trouble(m[c], options.min_attempts) implies (exists|i: int|
            0 <= i < ranked@.len() && ranked@[i].key == c) || (ranked@.len() == options.keys && forall|i: int|
            0 <= i < ranked@.len() ==> trouble_before(ranked@[i], trouble_of(c, m[c]))) by {
            let j = choose|j: int| 0 <= j < s.len() && #[trigger] s[j].0 == c;
            crate::tally::lemma_unique_index(s, c);
            assert(s[j] == (c, m[c]));
            let x = pos[j];
            if x < keep {
                assert(ranked@[x] == full[x]);
            } else {
                assert forall|i: int| 0 <= i < ranked@.len() implies trouble_before(
                    ranked@[i],
                    trouble_of(c, m[c]),
                ) by {
                    assert(ranked@[i] == full[i]);
                }
            }
        }
    }
    ranked
}

/// `a / b` rounded toward zero, as integer division does in Rust.
pub open spec fn quotient(a: int, b: int) -> int {
    if a >= 0 {
        a / b
    } else {
        -((-a) / b)
    }
}

/// A duration the way a person would say it: seconds under a minute,
/// minutes under an hour, else hours and minutes.
pub open spec fn humanize_spec(ms: int) -> Seq<char> {
    if ms < 60_000 {
        signed_decimal(quotient(ms, 1000)) + "s"@
    } else if ms < 3_600_000 {
        decimal((ms / 60_000) as nat) + "m"@
    } else {
        decimal((ms / 3_600_000) as nat) + "h "@ + decimal(((ms % 3_600_000) / 60_000) as nat) + "m"@
    }
}

/// Formats a duration the way a person would say it.
pub fn humanize_ms(ms: i64) -> (s: String)
    ensures
        s@ == humanize_spec(ms as int),
{
    if ms < 60_000 {
        let seconds: i64 = if ms >= 0 {
            ms / 1000
        } else {
            let magnitude: i128 = -(ms as i128);
            -((magnitude / 1000) as i64)
        };
        let mut out = decimal_i64(seconds);
        push_str(&mut out, "s");
        out
    } else if ms < 3_600_000 {
        let mut out = decimal_u64((ms / 60_000) as u64);
        push_str(&mut out, "m");
        out
    } else {
        let mut out = decimal_u64((ms / 3_600_000) as u64);
        push_str(&mut out, "h ");
        push_str(&mut out, decimal_u64(((ms % 3_600_000) / 60_000) as u64).as_str());
        push_str(&mut out, "m");
        out
    }
}

/// A letter's tally in a map, or nothing typed.
pub open spec fn tally_in(m: Map<char, KeyTally>, c: char) -> KeyTally {
    if m.contains_key(c) {
        m[c]
    } else {
        KeyTally { attempts: 0, errors: 0 }
    }
}

/// How often a letter was attempted over all the results.
pub open spec fn attempts_total(results: Seq<Record>, c: char) -> int
    decreases results.len(),
{
    if results.len() == 0 {
        0
    } else {
        attempts_total(results.drop_last(), c) + tally_in(results.last().keys.map(), c).attempts
    }
}

/// How often a letter went wrong over all the results.
pub open spec fn errors_total(results: Seq<Record>, c: char) -> int
    decreases results.len(),
{
    if results.len() == 0 {
        0
    } else {
        errors_total(results.drop_last(), c) + tally_in(results.last().keys.map(), c).errors
    }
}

/// Whether any result has a tally for the letter.
pub open spec fn key_seen(results: Seq<Record>, c: char) -> bool
    decreases results.len(),
{
    results.len() > 0 && (key_seen(results.drop_last(), c) || results.last().keys.map().contains_key(
        c,
    ))
}

/// Whether every result's tallies are in order.
pub open spec fn tallies_wf(results: Seq<Record>) -> bool {
    forall|k: int| 0 <= k < results.len() ==> (#[trigger] results[k]).keys.wf() && results[k].slips.wf()
}

proof fn lemma_key_totals_nonneg(results: Seq<Record>, c: char)
    ensures
        attempts_total(results, c) >= 0,
        errors_total(results, c) >= 0,
    decreases results.len(),
{
    if results.len() > 0 {
        lemma_key_totals_nonneg(results.drop_last(), c);
    }
}

proof fn lemma_unseen_key(results: Seq<Record>, c: char)
    requires
        !key_seen(results, c),
    ensures
        attempts_total(results, c) == 0,
        errors_total(results, c) == 0,
    decreases results.len(),
{
    if results.len() > 0 {
        lemma_unseen_key(results.drop_last(), c);
    }
}

proof fn lemma_key_totals_grow(results: Seq<Record>, i: int, c: char)
    requires
        0 <= i <= results.len(),
    ensures
        0 <= attempts_total(results.take(i), c) <= attempts_total(results, c),
        0 <= errors_total(results.take(i), c) <= errors_total(results, c),
    decreases results.len() - i,
{
    lemma_key_totals_nonneg(results.take(i), c);
    if i < results.len() {
        lemma_key_totals_grow(results, i + 1, c);
        assert(results.take(i + 1).drop_last() =~= results.take(i));
    } else {
        assert(results.take(i) =~= results);
    }
}

/// Adds up per-letter tallies across every result.
pub fn merge_keys(results: &[Record]) -> (merged: KeyTallies)
    requires
        tallies_wf(results@),
        forall|c: char| #[trigger] attempts_total(results@, c) <= u32::MAX,
        forall|c: char| #[trigger] errors_total(results@, c) <= u32::MAX,
    ensures
        merged.wf(),
        forall|c: char| #[trigger] merged.map().contains_key(c) == key_seen(results@, c),
        forall|c: char|
            #[trigger] merged.map().contains_key(c) ==> merged.map()[c] == (KeyTally {
                attempts: attempts_total(results@, c) as u32,
                errors: errors_total(results@, c) as u32,
            }),
{
    let mut merged: KeyTallies = Tally::new();
    let mut i: usize = 0;
    while i < results.len()
        invariant
            i <= results@.len(),
            tallies_wf(results@),
            forall|c: char| #[trigger] attempts_total(results@, c) <= u32::MAX,
            forall|c: char| #[trigger] errors_total(results@, c) <= u32::MAX,
            merged.wf(),
            forall|c: char| #[trigger] merged.map().contains_key(c) == key_seen(results@.take(i as int), c),
            forall|c: char|
                #[trigger] merged.map().contains_key(c) ==> merged.map()[c] == (KeyTally {
                    attempts: attempts_total(results@.take(i as int), c) as u32,
                    errors: errors_total(results@.take(i as int), c) as u32,
                }),
        decreases results@.len() - i,
    {
        let record = &results[i];
        let entries = record.keys.entries();
        let ghost done = results@.take(i as int);
        let ghost next = results@.take(i + 1);
        let ghost tallies = record.keys.map();
        proof {
            assert(next.drop_last() =~= done);
            assert(next.last() == results@[i as int]);
            assert(record.keys.wf());
            lemma_key_totals_grow(results@, i + 1, 'a');
        }
        let mut j: usize = 0;
        while j < entries.len()
            invariant
                i < results@.len(),
                done == results@.take(i as int),
                next == results@.take(i + 1),
                next.drop_last() == done,
                next.last() == results@[i as int],
                entries@ == results@[i as int].keys.seq(),
                sorted_by_rank(entries@),
                tallies == results@[i as int].keys.map(),
                j <= entries@.len(),
                forall|c: char| #[trigger] attempts_total(results@, c) <= u32::MAX,
                forall|c: char| #[trigger] errors_total(results@, c) <= u32::MAX,
                merged.wf(),
                forall|c: char| #[trigger]
                    merged.map().contains_key(c) == (key_seen(done, c) || entries_map(
                        entries@.take(j as int),
                    ).contains_key(c)),
                forall|c: char|
                    #[trigger] merged.map().contains_key(c) ==> merged.map()[c] == (KeyTally {
                        attempts: (attempts_total(done, c) + tally_in(
                            entries_map(entries@.take(j as int)),
                            c,
                        ).attempts) as u32,
                        errors: (errors_total(done, c) + tally_in(
                            entries_map(entries@.take(j as int)),
                            c,
                        ).errors) as u32,
                    }),
            decreases entries@.len() - j,
        {
            let (letter, tally) = entries[j];
            proof {
                lemma_entries_map_prefix(entries@, j as int);
                lemma_key_totals_grow(results@, i + 1, letter);
                lemma_key_totals_nonneg(done, letter);
                assert(entries@.take(entries@.len() as int) =~= entries@);
                crate::tally::lemma_unique_index(entries@, letter);
                // This entry is part of the record's own tally.
                assert(tallies.contains_key(letter) && tallies[letter] == tally);
                assert(attempts_total(next, letter) == attempts_total(done, letter) + tally.attempts);
                assert(errors_total(next, letter) == errors_total(done, letter) + tally.errors);
                assert(attempts_total(results@, letter) <= u32::MAX);
                assert(errors_total(results@, letter) <= u32::MAX);
                assert(!entries_map(entries@.take(j as int)).contains_key(letter));
                if !key_seen(done, letter) {
                    lemma_unseen_key(done, letter);
                }
            }
            let current = match merged.get(&letter) {
                Some(t) => t,
                None => KeyTally { attempts: 0, errors: 0 },
            };
            let sum = KeyTally {
                attempts: current.attempts + tally.attempts,
                errors: current.errors + tally.errors,
            };
            merged.insert(letter, sum);
            j = j + 1;
        }
        proof {
            assert(entries@.take(entries@.len() as int) =~= entries@);
            assert forall|c: char| #[trigger] merged.map().contains_key(c) == key_seen(next, c) by {}
            assert forall|c: char| #[trigger] merged.map().contains_key(c) implies merged.map()[c] == (KeyTally {
                attempts: attempts_total(next, c) as u32,
                errors: errors_total(next, c) as u32,
            }) by {}
        }
        i = i + 1;
    }
    proof {
        assert(results@.take(results@.len() as int) =~= results@);
    }
    merged
}

/// How often a confusion happened over all the results.
pub open spec fn slip_total(results: Seq<Record>, pair: (char, char)) -> int
    decreases results.len(),
{
    if results.len() == 0 {
        0
    } else {
        slip_total(results.drop_last(), pair) + if results.last().slips.map().contains_key(pair) {
            results.last().slips.map()[pair] as int
        } else {
            0
        }
    }
}

/// Whether any result records the confusion.
pub open spec fn slip_seen(results: Seq<Record>, pair: (char, char)) -> bool
    decreases results.len(),
{
    results.len() > 0 && (slip_seen(results.drop_last(), pair) || results.last().slips.map().contains_key(
        pair,
    ))
}

proof fn lemma_slip_total_nonneg(results: Seq<Record>, pair: (char, char))
    ensures
        slip_total(results, pair) >= 0,
        !slip_seen(results, pair) ==> slip_total(results, pair) == 0,
    decreases results.len(),
{
    if results.len() > 0 {
        lemma_slip_total_nonneg(results.drop_last(), pair);
    }
}

proof fn lemma_slip_total_grows(results: Seq<Record>, i: int, pair: (char, char))
    requires
        0 <= i <= results.len(),
    ensures
        0 <= slip_total(results.take(i), pair) <= slip_total(results, pair),
    decreases results.len() - i,
{
    lemma_slip_total_nonneg(results.take(i), pair);
    if i < results.len() {
        lemma_slip_total_grows(results, i + 1, pair);
        assert(results.take(i + 1).drop_last() =~= results.take(i));
    } else {
        assert(results.take(i) =~= results);
    }
}

/// Adds up letter confusions across every result.
pub fn merge_slips(results: &[Record]) -> (merged: SlipTally)
    requires
        tallies_wf(results@),
        forall|pair: (char, char)| #[trigger] slip_total(results@, pair) <= u32::MAX,
    ensures
        merged.wf(),
        forall|pair: (char, char)| #[trigger] merged.map().contains_key(pair) == slip_seen(results@, pair),
        forall|pair: (char, char)|
            #[trigger] merged.map().contains_key(pair) ==> merged.map()[pair] == slip_total(results@, pair),
{
    let mut merged: SlipTally = Tally::new();
    let mut i: usize = 0;
    while i < results.len()
        invariant
            i <= results@.len(),
            tallies_wf(results@),
            forall|pair: (char, char)| #[trigger] slip_total(results@, pair) <= u32::MAX,
            merged.wf(),
            forall|pair: (char, char)| #[trigger] merged.map().contains_key(pair) == slip_seen(
                results@.take(i as int),
                pair,
            ),
            forall|pair: (char, char)|
                #[trigger] merged.map().contains_key(pair) ==> merged.map()[pair] == slip_total(
                    results@.take(i as int),
                    pair,
                ),
        decreases results@.len() - i,
    {
        let record = &results[i];
        let entries = record.slips.entries();
        let ghost done = results@.take(i as int);
        let ghost next = results@.take(i + 1);
        let ghost tallies = record.slips.map();
        proof {
            assert(next.drop_last() =~= done);
            assert(next.last() == results@[i as int]);
            assert(record.slips.wf());
        }
        let mut j: usize = 0;
        while j < entries.len()
            invariant
                i < results@.len(),
                done == results@.take(i as int),
                next == results@.take(i + 1),
                next.drop_last() == done,
                next.last() == results@[i as int],
                entries@ == results@[i as int].slips.seq(),
                sorted_by_rank(entries@),
                tallies == results@[i as int].slips.map(),
                j <= entries@.len(),
                forall|pair: (char, char)| #[trigger] slip_total(results@, pair) <= u32::MAX,
                merged.wf(),
                forall|pair: (char, char)| #[trigger]
                    merged.map().contains_key(pair) == (slip_seen(done, pair) || entries_map(
                        entries@.take(j as int),
                    ).contains_key(pair)),
                forall|pair: (char, char)|
                    #[trigger] merged.map().contains_key(pair) ==> merged.map()[pair] == slip_total(
                        done,
                        pair,
                    ) + if entries_map(entries@.take(j as int)).contains_key(pair) {
                        entries_map(entries@.take(j as int))[pair] as int
                    } else {
                        0
                    },
            decreases entries@.len() - j,
        {
            let (pair, count) = entries[j];
            proof {
                lemma_entries_map_prefix(entries@, j as int);
                lemma_slip_total_grows(results@, i + 1, pair);
                lemma_slip_total_nonneg(done, pair);
                assert(entries@.take(entries@.len() as int) =~= entries@);
                crate::tally::lemma_unique_index(entries@, pair);
                assert(tallies.contains_key(pair) && tallies[pair] == count);
                assert(slip_total(next, pair) == slip_total(done, pair) + count);
                assert(slip_total(results@, pair) <= u32::MAX);
            }
            let current: u32 = match merged.get(&pair) {
                Some(c) => c,
                None => 0,
            };
            merged.insert(pair, current + count);
            j = j + 1;
        }
        proof {
            assert(entries@.take(entries@.len() as int) =~= entries@);
        }
        i = i + 1;
    }
    proof {
        assert(results@.take(results@.len() as int) =~= results@);
    }
    merged
}

/// Whether `a` is an earlier date than `b`, field by field.
pub open spec fn date_less(a: Date, b: Date) -> bool {
    a.year < b.year || (a.year == b.year && (a.month < b.month || (a.month == b.month && a.day
        < b.day)))
}

fn earlier(a: Date, b: Date) -> (r: bool)
    ensures
        r == date_less(a, b),
{
    a.year < b.year || (a.year == b.year && (a.month < b.month || (a.month == b.month && a.day
        < b.day)))
}

/// The date a result was taken on, if its timestamp can be read.
pub open spec fn date_of(record: Record) -> Option<Date> {
    parse_date_spec(record.at@)
}

/// Whether one of the results was taken on the date.
pub open spec fn taken_on(results: Seq<Record>, date: Date) -> bool {
    exists|k: int| 0 <= k < results.len() && date_of(#[trigger] results[k]) == Some(date)
}

/// Whether `days` are the distinct dates that `results` were taken on, most
/// recent first.
pub open spec fn practice_days_of(results: Seq<Record>, days: Seq<Date>) -> bool {
    &&& forall|x: int, y: int| 0 <= x < y < days.len() ==> date_less(days[y], days[x])
    &&& forall|x: int| 0 <= x < days.len() ==> #[trigger] taken_on(results, days[x])
    &&& forall|j: int|
        0 <= j < results.len() && (#[trigger] date_of(results[j])) is Some ==> exists|x: int|
            #![trigger days[x]]
            0 <= x < days.len() && date_of(results[j]) == Some(days[x])
}

proof fn lemma_practice_days(results: Seq<Record>, days: Seq<Date>, src: Seq<int>, pos: Seq<int>)
    requires
        forall|x: int, y: int| 0 <= x < y < days.len() ==> date_less(days[y], days[x]),
        src.len() == days.len(),
        forall|x: int|
            #![trigger src[x]]
            0 <= x < src.len() ==> 0 <= src[x] < results.len() && date_of(results[src[x]]) == Some(
                days[x],
            ),
        pos.len() == results.len(),
        forall|j: int|
            #![trigger pos[j]]
            0 <= j < results.len() && date_of(results[j]) is Some ==> 0 <= pos[j] < days.len()
                && date_of(results[j]) == Some(days[pos[j]]),
    ensures
        practice_days_of(results, days),
{
    assert forall|x: int| 0 <= x < days.len() implies #[trigger] taken_on(results, days[x]) by {
        assert(date_of(results[src[x]]) == Some(days[x]));
    }
    assert forall|j: int| 0 <= j < results.len() && (#[trigger] date_of(results[j])) is Some implies exists|x: int|
        #![trigger days[x]]
        0 <= x < days.len() && date_of(results[j]) == Some(days[x]) by {
        let w = pos[j];
        assert(0 <= w < days.len() && date_of(results[j]) == Some(days[w]));
    }
}

/// The distinct days that were practised on, most recent first.
pub fn practice_days(results: &[Record]) -> (days: Vec<Date>)
    ensures
        practice_days_of(results@, days@),
        days@.len() <= results@.len(),
{
    let mut days: Vec<Date> = Vec::new();
    let ghost mut src: Seq<int> = Seq::empty();
    let ghost mut pos: Seq<int> = Seq::empty();
    let mut done: usize = 0;
    while done < results.len()
        invariant
            done <= results@.len(),
            days@.len() <= done,
            forall|x: int, y: int| 0 <= x < y < days@.len() ==> date_less(days@[y], days@[x]),
            src.len() == days@.len(),
            forall|x: int|
                #![trigger src[x]]
                0 <= x < src.len() ==> 0 <= src[x] < done && date_of(results@[src[x]]) == Some(days@[x]),
            pos.len() == done,
            forall|j: int|
                #![trigger pos[j]]
                0 <= j < done && date_of(results@[j]) is Some ==> 0 <= pos[j] < days@.len() && date_of(
                    results@[j],
                ) == Some(days@[pos[j]]),
        decreases results@.len() - done,
    {
        match parse_date(results[done].at.as_str()) {
            Some(date) => {
                let mut p: usize = 0;
                while p < days.len() && earlier(date, days[p])
                    invariant
                        p <= days@.len(),
                        forall|x: int| 0 <= x < p ==> date_less(date, #[trigger] days@[x]),
                    decreases days@.len() - p,
                {
                    p = p + 1;
                }
                if p < days.len() && days[p] == date {
                    proof {
                        pos = pos.push(p as int);
                    }
                } else {
                    let ghost before = days@;
                    proof {
                        assert forall|x: int| p <= x < before.len() implies date_less(
                            #[trigger] before[x],
                            date,
                        ) by {
                            if x > p {
                                assert(date_less(before[x], before[p as int]));
                            }
                        }
                    }
                    days.insert(p, date);
                    proof {
                        before.insert_ensures(p as int, date);
                        let old_src = src;
                        let old_pos = pos;
                        old_src.insert_ensures(p as int, done as int);
                        src = old_src.insert(p as int, done as int);
                        pos = Seq::new(
                            done as nat,
                            |j: int|
                                if old_pos[j] >= p {
                                    old_pos[j] + 1
                                } else {
                                    old_pos[j]
                                },
                        ).push(p as int);
                        assert forall|x: int, y: int| 0 <= x < y < days@.len() implies date_less(
                            days@[y],
                            days@[x],
                        ) by {
                            if y < p {
                                assert(date_less(before[y], before[x]));
                            } else if y == p {
                                assert(days@[x] == before[x]);
                            } else if x == p {
                                assert(days@[y] == before[y - 1]);
                            } else if x < p {
                                assert(date_less(before[y - 1], before[x]));
                            } else {
                                assert(date_less(before[y - 1], before[x - 1]));
                            }
                        }
                        assert forall|x: int| #![trigger src[x]] 0 <= x < src.len() implies 0 <= src[x]
                            < done + 1 && date_of(results@[src[x]]) == Some(days@[x]) by {
                            if x < p {
                                assert(src[x] == old_src[x]);
                            } else if x > p {
                                assert(src[x] == old_src[x - 1]);
                            }
                        }
                        assert forall|j: int| #![trigger pos[j]] 0 <= j < done + 1 && date_of(
                            results@[j],
                        ) is Some implies 0 <= pos[j] < days@.len() && date_of(results@[j]) == Some(
                            days@[pos[j]],
                        ) by {
                            if j < done {
                                if old_pos[j] >= p {
                                    assert(days@[old_pos[j] + 1] == before[old_pos[j]]);
                                } else {
                                    assert(days@[old_pos[j]] == before[old_pos[j]]);
                                }
                            }
                        }
                    }
                }
            },
            None => {
                proof {
                    pos = pos.push(-1);
                }
            },
        }
        done = done + 1;
    }
    proof {
        lemma_practice_days(results@, days@, src, pos);
    }
    days
}

/// How many days in a row, from `days[k]` on, each follow the one before.
pub open spec fn run_from(days: Seq<Date>, k: int) -> int
    decreases days.len() - k,
{
    if 0 <= k && k + 1 < days.len() && days[k].days_spec() - days[k + 1].days_spec() == 1 {
        1 + run_from(days, k + 1)
    } else {
        0
    }
}

/// The current streak: consecutive days up to the most recent, provided the
/// most recent is today or yesterday; otherwise the streak was broken and
/// the count would be a flattering lie.
pub open spec fn streak_spec(days: Seq<Date>, today: Date) -> int {
    if days.len() == 0 {
        0
    } else if today.days_spec() - days[0].days_spec() > 1 {
        0
    } else {
        1 + run_from(days, 0)
    }
}

proof fn lemma_run_bound(days: Seq<Date>, k: int)
    requires
        0 <= k < days.len(),
    ensures
        0 <= run_from(days, k) <= days.len() - 1 - k,
    decreases days.len() - k,
{
    if k + 1 < days.len() {
        lemma_run_bound(days, k + 1);
    }
}

/// The streak counts practice days only: the `n` days it counts are days a
/// result was taken on, one after another, ending at the most recent, and
/// that most recent day is today or yesterday. So where every result was
/// taken more than a day before today, the streak is broken and is 0. It
/// counts all such days: where the most recent is today or yesterday the
/// streak is at least 1, and the practice day after the last it counts is
/// not the day before it.
pub proof fn lemma_streak_is_recent_consecutive_practice(results: Seq<Record>, days: Seq<Date>, today: Date)
    requires
        practice_days_of(results, days),
    ensures
        streak_spec(days, today) > 0 ==> today.days_spec() - days[0].days_spec() <= 1,
        days.len() > 0 && today.days_spec() - days[0].days_spec() <= 1 ==> streak_spec(days, today) >= 1,
        0 < streak_spec(days, today) < days.len() ==> days[streak_spec(days, today) - 1].days_spec()
            - days[streak_spec(days, today) as int].days_spec() != 1,
        forall|i: int|
            0 <= i < streak_spec(days, today) ==> taken_on(results, #[trigger] days[i]) && days[0].days_spec()
                - days[i].days_spec() == i,
        (forall|k: int|
            0 <= k < results.len() && #[trigger] date_of(results[k]) is Some ==> today.days_spec() - date_of(
                results[k],
            )->0.days_spec() > 1) ==> streak_spec(days, today) == 0,
{
    if days.len() > 0 {
        lemma_run_bound(days, 0);
        assert(taken_on(results, days[0]));
        let k = choose|k: int| 0 <= k < results.len() && date_of(#[trigger] results[k]) == Some(days[0]);
        assert(date_of(results[k]) is Some);
        if streak_spec(days, today) > 0 {
            lemma_run_consecutive(days, 0);
            lemma_run_ends(days, 0);
        }
    }
}

/// A run stops at a day that does not follow the one before.
proof fn lemma_run_ends(days: Seq<Date>, k: int)
    requires
        0 <= k < days.len(),
    ensures
        k + run_from(days, k) + 1 < days.len() ==> days[k + run_from(days, k)].days_spec() - days[k
            + run_from(days, k) + 1].days_spec() != 1,
    decreases days.len() - k,
{
    lemma_run_bound(days, k);
    if run_from(days, k) > 0 {
        assert(run_from(days, k) == 1 + run_from(days, k + 1));
        lemma_run_ends(days, k + 1);
        assert(k + run_from(days, k) == k + 1 + run_from(days, k + 1));
    } else if k + 1 < days.len() {
        lemma_run_bound(days, k + 1);
    }
}

/// The days that a run counts follow one another a day apart.
proof fn lemma_run_consecutive(days: Seq<Date>, k: int)
    requires
        0 <= k < days.len(),
    ensures
        forall|i: int|
            k <= i <= k + run_from(days, k) ==> 0 <= i < days.len() && days[k].days_spec() - days[i].days_spec()
                == i - k,
    decreases days.len() - k,
{
    lemma_run_bound(days, k);
    if run_from(days, k) > 0 {
        lemma_run_consecutive(days, k + 1);
    }
}

/// The current streak over practice days, most recent first.
pub fn streak(days: &[Date], today: Date) -> (n: u32)
    requires
        days@.len() <= u32::MAX,
    ensures
        n == streak_spec(days@, today),
{
    if days.len() == 0 {
        return 0;
    }
    if today.diff(days[0]) > 1 {
        return 0;
    }
    let mut count: u32 = 1;
    let mut k: usize = 0;
    proof {
        lemma_run_bound(days@, 0);
    }
    while k + 1 < days.len()
        invariant
            days@.len() <= u32::MAX,
            0 <= k < days@.len(),
            today.days_spec() - days@[0].days_spec() <= 1,
            count == 1 + k,
            run_from(days@, 0) == k + run_from(days@, k as int),
        decreases days@.len() - k,
    {
        if days[k].diff(days[k + 1]) == 1 {
            proof {
                lemma_run_bound(days@, k + 1);
            }
            count = count + 1;
            k = k + 1;
        } else {
            assert(run_from(days@, k as int) == 0);
            return count;
        }
    }
    count
}

/// The best result: the first of those with the highest speed.
pub open spec fn best_index(results: Seq<Record>) -> int
    decreases results.len(),
{
    if results.len() <= 1 {
        0
    } else {
        let b = best_index(results.drop_last());
        if results.last().wpm > results[b].wpm {
            results.len() - 1
        } else {
            b
        }
    }
}

/// The best result is the fastest, and the first of the fastest: nothing
/// is faster, and nothing before it is as fast.
pub proof fn lemma_best_index(results: Seq<Record>)
    requires
        results.len() > 0,
    ensures
        0 <= best_index(results) < results.len(),
        forall|k: int| 0 <= k < results.len() ==> #[trigger] results[k].wpm <= results[best_index(results)].wpm,
        forall|k: int| 0 <= k < best_index(results) ==> #[trigger] results[k].wpm < results[best_index(results)].wpm,
    decreases results.len(),
{
    if results.len() > 1 {
        lemma_best_index(results.drop_last());
        let b = best_index(results.drop_last());
        assert forall|k: int| 0 <= k < results.len() implies #[trigger] results[k].wpm <= results[best_index(results)].wpm by {
            if k < results.len() - 1 {
                assert(results.drop_last()[k] == results[k]);
            }
        }
        assert forall|k: int| 0 <= k < best_index(results) implies #[trigger] results[k].wpm < results[best_index(results)].wpm by {
            assert(results.drop_last()[k] == results[k]);
            assert(results.drop_last()[b] == results[b]);
        }
    }
}

/// The best result overall, or `None` for an empty history.
pub fn best_of(results: &[Record]) -> (r: Option<&Record>)
    ensures
        r is None <==> results@.len() == 0,
        r matches Some(best) ==> *best == results@[best_index(results@)],
{
    if results.len() == 0 {
        return None;
    }
    let mut b: usize = 0;
    let mut i: usize = 1;
    assert(results@.take(1).len() == 1);
    while i < results.len()
        invariant
            1 <= i <= results@.len(),
            b == best_index(results@.take(i as int)),
            b < i,
        decreases results@.len() - i,
    {
        let ghost next = results@.take(i + 1);
        assert(next.drop_last() =~= results@.take(i as int));
        assert(next[b as int] == results@[b as int]);
        if results[i].wpm > results[b].wpm {
            b = i;
        }
        i = i + 1;
    }
    assert(results@.take(i as int) =~= results@);
    Some(&results[b])
}

/// How many results were filed under a configuration.
pub open spec fn count_matching(results: Seq<Record>, config: Seq<char>) -> int
    decreases results.len(),
{
    if results.len() == 0 {
        0
    } else {
        count_matching(results.drop_last(), config) + if results.last().config@ == config {
            1int
        } else {
            0
        }
    }
}

/// The total speed, in hundredths, of the results filed under a
/// configuration.
pub open spec fn total_matching(results: Seq<Record>, config: Seq<char>) -> int
    decreases results.len(),
{
    if results.len() == 0 {
        0
    } else {
        total_matching(results.drop_last(), config) + if results.last().config@ == config {
            results.last().wpm as int
        } else {
            0
        }
    }
}

/// The best result filed under a configuration: the first of those with the
/// highest speed.
pub open spec fn best_matching(results: Seq<Record>, config: Seq<char>) -> Option<int>
    decreases results.len(),
{
    if results.len() == 0 {
        None
    } else {
        let b = best_matching(results.drop_last(), config);
        if results.last().config@ == config {
            match b {
                Some(i) => if results.last().wpm > results[i].wpm {
                    Some(results.len() - 1)
                } else {
                    Some(i)
                },
                None => Some(results.len() - 1),
            }
        } else {
            b
        }
    }
}

pub(crate) proof fn lemma_best_matching(results: Seq<Record>, config: Seq<char>)
    ensures
        best_matching(results, config) matches Some(i) ==> 0 <= i < results.len() && results[i].config@
            == config,
        best_matching(results, config) is None <==> count_matching(results, config) == 0,
        0 <= count_matching(results, config) <= results.len(),
    decreases results.len(),
{
    if results.len() > 0 {
        lemma_best_matching(results.drop_last(), config);
    }
}

/// The best result for one configuration, or `None` if it has never been
/// run.
pub fn best_for<'a>(results: &'a [Record], config: &str) -> (r: Option<&'a Record>)
    ensures
        match best_matching(results@, config@) {
            Some(i) => r == Some(&results@[i]),
            None => r is None,
        },
{
    let mut best: Option<usize> = None;
    let mut i: usize = 0;
    while i < results.len()
        invariant
            i <= results@.len(),
            best == match best_matching(results@.take(i as int), config@) {
                Some(j) => Some(j as usize),
                None => None::<usize>,
            },
            best matches Some(j) ==> j < i,
        decreases results@.len() - i,
    {
        let ghost next = results@.take(i + 1);
        assert(next.drop_last() =~= results@.take(i as int));
        proof {
            lemma_best_matching(results@.take(i as int), config@);
            if let Some(j) = best {
                assert(next[j as int] == results@[j as int]);
            }
        }
        if same_text(results[i].config.as_str(), config) {
            best = match best {
                Some(j) => if results[i].wpm > results[j].wpm {
                    Some(i)
                } else {
                    Some(j)
                },
                None => Some(i),
            };
        }
        i = i + 1;
    }
    proof {
        assert(results@.take(i as int) =~= results@);
        lemma_best_matching(results@, config@);
    }
    match best {
        Some(j) => Some(&results[j]),
        None => None,
    }
}

/// How many tests have been run with one configuration.
pub fn count_for(results: &[Record], config: &str) -> (n: usize)
    ensures
        n == count_matching(results@, config@),
{
    let mut n: usize = 0;
    let mut i: usize = 0;
    while i < results.len()
        invariant
            i <= results@.len(),
            n == count_matching(results@.take(i as int), config@),
            n <= i,
        decreases results@.len() - i,
    {
        let ghost next = results@.take(i + 1);
        assert(next.drop_last() =~= results@.take(i as int));
        if same_text(results[i].config.as_str(), config) {
            n = n + 1;
        }
        i = i + 1;
    }
    assert(results@.take(i as int) =~= results@);
    n
}

pub(crate) proof fn lemma_total_matching_by_count(results: Seq<Record>, config: Seq<char>)
    ensures
        -0x8000_0000_0000_0000 * count_matching(results, config) <= total_matching(results, config)
            <= 0x7FFF_FFFF_FFFF_FFFF * count_matching(results, config),
    decreases results.len(),
{
    if results.len() > 0 {
        lemma_total_matching_by_count(results.drop_last(), config);
    }
}

proof fn lemma_total_matching_bound(results: Seq<Record>, config: Seq<char>)
    ensures
        -0x8000_0000_0000_0000 * results.len() <= total_matching(results, config) <= 0x7FFF_FFFF_FFFF_FFFF
            * results.len(),
    decreases results.len(),
{
    if results.len() > 0 {
        lemma_total_matching_bound(results.drop_last(), config);
    }
}

/// The total speed, in hundredths, of one configuration's results: its
/// average is this over [`count_for`].
pub fn total_for(results: &[Record], config: &str) -> (t: i128)
    ensures
        t == total_matching(results@, config@),
{
    let mut t: i128 = 0;
    let mut i: usize = 0;
    while i < results.len()
        invariant
            i <= results@.len(),
            t == total_matching(results@.take(i as int), config@),
        decreases results@.len() - i,
    {
        let ghost next = results@.take(i + 1);
        assert(next.drop_last() =~= results@.take(i as int));
        proof {
            lemma_total_matching_bound(results@.take(i as int), config@);
        }
        if same_text(results[i].config.as_str(), config) {
            t = t + results[i].wpm as i128;
        }
        i = i + 1;
    }
    assert(results@.take(i as int) =~= results@);
    t
}

/// How one configuration has gone: its tests, its best speed and the total
/// of its speeds (both in hundredths); the average is `total / tests`.
#[derive(Clone, Debug, PartialEq, Eq)]
pub struct ConfigSummary {
    pub config: String,
    pub tests: usize,
    pub best: i64,
    pub total: i128,
}

/// Whether `g` is the summary of its configuration over `results`.
pub open spec fn summarises(results: Seq<Record>, g: ConfigSummary) -> bool {
    &&& g.tests == count_matching(results, g.config@)
    &&& g.tests > 0
    &&& best_matching(results, g.config@) matches Some(i) && g.best == results[i].wpm
    &&& g.total == total_matching(results, g.config@)
}

/// Busiest configuration first; equally busy ones by name.
pub open spec fn config_before(a: ConfigSummary, b: ConfigSummary) -> bool {
    a.tests > b.tests || (a.tests == b.tests && text_less(a.config@, b.config@))
}

/// Whether some summary is for the configuration.
pub open spec fn listed(groups: Seq<ConfigSummary>, config: Seq<char>) -> bool {
    exists|x: int| 0 <= x < groups.len() && (#[trigger] groups[x]).config@ == config
}

/// Whether `groups` summarise each configuration of `results` once, busiest
/// first.
pub open spec fn grouped(results: Seq<Record>, groups: Seq<ConfigSummary>) -> bool {
    &&& forall|x: int, y: int| 0 <= x < y < groups.len() ==> config_before(groups[x], groups[y])
    &&& forall|x: int| 0 <= x < groups.len() ==> summarises(results, #[trigger] groups[x])
    &&& forall|k: int| 0 <= k < results.len() ==> listed(groups, (#[trigger] results[k]).config@)
}

proof fn lemma_unlisted_config(results: Seq<Record>, config: Seq<char>)
    requires
        forall|k: int| 0 <= k < results.len() ==> (#[trigger] results[k]).config@ != config,
    ensures
        count_matching(results, config) == 0,
        best_matching(results, config) is None,
        total_matching(results, config) == 0,
    decreases results.len(),
{
    if results.len() > 0 {
        assert forall|k: int| 0 <= k < results.drop_last().len() implies (
        #[trigger] results.drop_last()[k]).config@ != config by {
            assert(results.drop_last()[k] == results[k]);
        }
        lemma_unlisted_config(results.drop_last(), config);
        assert(results.last() == results[results.len() - 1]);
    }
}

proof fn lemma_config_order(a: ConfigSummary, b: ConfigSummary, c: ConfigSummary)
    ensures
        config_before(a, b) && config_before(b, c) ==> config_before(a, c),
        a.config@ != b.config@ ==> config_before(a, b) || config_before(b, a),
{
    lemma_text_order(a.config@, b.config@, c.config@);
}

fn config_first(a: &ConfigSummary, b: &ConfigSummary) -> (r: bool)
    ensures
        r == config_before(*a, *b),
{
    a.tests > b.tests || (a.tests == b.tests && text_before(a.config.as_str(), b.config.as_str()))
}

/// Groups results by configuration, in the order the results came.
fn collect_configs(results: &[Record]) -> (groups: Vec<ConfigSummary>)
    ensures
        forall|x: int, y: int|
            0 <= x < y < groups@.len() ==> groups@[x].config@ != groups@[y].config@,
        forall|x: int| 0 <= x < groups@.len() ==> summarises(results@, #[trigger] groups@[x]),
        forall|k: int| 0 <= k < results@.len() ==> listed(groups@, (#[trigger] results@[k]).config@),
{
    let mut groups: Vec<ConfigSummary> = Vec::new();
    let ghost mut pos: Seq<int> = Seq::empty();
    let mut i: usize = 0;
    while i < results.len()
        invariant
            i <= results@.len(),
            forall|x: int, y: int|
                0 <= x < y < groups@.len() ==> groups@[x].config@ != groups@[y].config@,
            forall|x: int|
                0 <= x < groups@.len() ==> summarises(results@.take(i as int), #[trigger] groups@[x]),
            pos.len() == i,
            forall|k: int|
                #![trigger pos[k]]
                0 <= k < i ==> 0 <= pos[k] < groups@.len() && groups@[pos[k]].config@
                    == results@[k].config@,
        decreases results@.len() - i,
    {
        let ghost done = results@.take(i as int);
        let ghost next = results@.take(i + 1);
        proof {
            assert(next.drop_last() =~= done);
            assert(next.last() == results@[i as int]);
        }
        let record = &results[i];
        let mut g: usize = 0;
        while g < groups.len() && !same_text(groups[g].config.as_str(), record.config.as_str())
            invariant
                g <= groups@.len(),
                forall|x: int| 0 <= x < g ==> (#[trigger] groups@[x]).config@ != record.config@,
            decreases groups@.len() - g,
        {
            g = g + 1;
        }
        let ghost before = groups@;
        if g < groups.len() {
            proof {
                assert(summarises(done, before[g as int]));
                lemma_best_matching(done, record.config@);
                lemma_best_matching(next, record.config@);
                lemma_total_matching_bound(done, record.config@);
                let b = best_matching(done, record.config@)->0;
                assert(next[b] == done[b]);
            }
            let tests = groups[g].tests + 1;
            let best = if record.wpm > groups[g].best {
                record.wpm
            } else {
                groups[g].best
            };
            let total = groups[g].total + record.wpm as i128;
            let config = owned(groups[g].config.as_str());
            groups.set(g, ConfigSummary { config, tests, best, total });
            proof {
                pos = pos.push(g as int);
                assert forall|x: int| 0 <= x < groups@.len() implies summarises(
                    next,
                    #[trigger] groups@[x],
                ) by {
                    if x != g {
                        assert(groups@[x] == before[x]);
                        assert(summarises(done, before[x]));
                        lemma_best_matching(done, before[x].config@);
                        let b = best_matching(done, before[x].config@)->0;
                        assert(next[b] == done[b]);
                    }
                }
            }
        } else {
            proof {
                assert forall|k: int| 0 <= k < done.len() implies (#[trigger] done[k]).config@
                    != record.config@ by {
                    assert(groups@[pos[k]].config@ == done[k].config@);
                }
                lemma_unlisted_config(done, record.config@);
                lemma_best_matching(next, record.config@);
            }
            groups.push(
                ConfigSummary {
                    config: owned(record.config.as_str()),
                    tests: 1,
                    best: record.wpm,
                    total: record.wpm as i128,
                },
            );
            proof {
                pos = pos.push(g as int);
                assert forall|x: int| 0 <= x < groups@.len() implies summarises(
                    next,
                    #[trigger] groups@[x],
                ) by {
                    if x < before.len() {
                        assert(groups@[x] == before[x]);
                        assert(summarises(done, before[x]));
                        lemma_best_matching(done, before[x].config@);
                        let b = best_matching(done, before[x].config@)->0;
                        assert(next[b] == done[b]);
                    }
                }
            }
        }
        i = i + 1;
    }
    proof {
        assert(results@.take(i as int) =~= results@);
        assert forall|k: int| 0 <= k < results@.len() implies listed(
            groups@,
            (#[trigger] results@[k]).config@,
        ) by {
            assert(groups@[pos[k]].config@ == results@[k].config@);
        }
    }
    groups
}

/// Whether two summaries hold the same values.
pub open spec fn same_group(a: ConfigSummary, b: ConfigSummary) -> bool {
    a.config@ == b.config@ && a.tests == b.tests && a.best == b.best && a.total == b.total
}

/// Each configuration's summary, busiest first; equally busy ones by name.
pub fn by_config(results: &[Record]) -> (r: Vec<ConfigSummary>)
    ensures
        grouped(results@, r@),
{
    let groups = collect_configs(results);
    let mut sorted: Vec<ConfigSummary> = Vec::new();
    let ghost mut pos: Seq<int> = Seq::empty();
    let ghost mut src: Seq<int> = Seq::empty();
    let mut i: usize = 0;
    while i < groups.len()
        invariant
            i <= groups@.len(),
            forall|x: int, y: int|
                0 <= x < y < groups@.len() ==> groups@[x].config@ != groups@[y].config@,
            forall|x: int, y: int| 0 <= x < y < sorted@.len() ==> config_before(sorted@[x], sorted@[y]),
            src.len() == sorted@.len(),
            forall|x: int|
                #![trigger src[x]]
                0 <= x < src.len() ==> 0 <= src[x] < i && same_group(sorted@[x], groups@[src[x]]),
            pos.len() == i,
            forall|j: int|
                #![trigger pos[j]]
                0 <= j < i ==> 0 <= pos[j] < sorted@.len() && same_group(sorted@[pos[j]], groups@[j]),
        decreases groups@.len() - i,
    {
        let group = ConfigSummary {
            config: owned(groups[i].config.as_str()),
            tests: groups[i].tests,
            best: groups[i].best,
            total: groups[i].total,
        };
        assert(group.config@ == groups@[i as int].config@);
        let mut p: usize = 0;
        while p < sorted.len() && !config_first(&group, &sorted[p])
            invariant
                p <= sorted@.len(),
                forall|x: int| 0 <= x < p ==> !config_before(group, #[trigger] sorted@[x]),
            decreases sorted@.len() - p,
        {
            p = p + 1;
        }
        let ghost before = sorted@;
        proof {
            assert forall|x: int| 0 <= x < p implies config_before(#[trigger] before[x], group) by {
                assert(same_group(before[x], groups@[src[x]]));
                assert(src[x] != i);
                lemma_config_order(before[x], group, group);
            }
            assert forall|x: int| p <= x < before.len() implies config_before(group, #[trigger] before[x]) by {
                if x > p {
                    assert(config_before(before[p as int], before[x]));
                    lemma_config_order(group, before[p as int], before[x]);
                }
            }
        }
        sorted.insert(p, group);
        proof {
            before.insert_ensures(p as int, group);
            let old_src = src;
            let old_pos = pos;
            old_src.insert_ensures(p as int, i as int);
            src = old_src.insert(p as int, i as int);
            pos = Seq::new(i as nat, |j: int| if old_pos[j] >= p { old_pos[j] + 1 } else { old_pos[j] }).push(
                p as int,
            );
            assert forall|x: int, y: int| 0 <= x < y < sorted@.len() implies config_before(
                sorted@[x],
                sorted@[y],
            ) by {
                if y < p {
                    assert(config_before(before[x], before[y]));
                } else if y == p {
                    assert(sorted@[x] == before[x]);
                } else if x == p {
                    assert(sorted@[y] == before[y - 1]);
                } else if x < p {
                    assert(config_before(before[x], before[y - 1]));
                } else {
                    assert(config_before(before[x - 1], before[y - 1]));
                }
            }
            assert forall|x: int| #![trigger src[x]] 0 <= x < src.len() implies 0 <= src[x] < i + 1
                && same_group(sorted@[x], groups@[src[x]]) by {
                if x < p {
                    assert(src[x] == old_src[x]);
                } else if x > p {
                    assert(src[x] == old_src[x - 1]);
                }
            }
            assert forall|j: int| #![trigger pos[j]] 0 <= j < i + 1 implies 0 <= pos[j] < sorted@.len()
                && same_group(sorted@[pos[j]], groups@[j]) by {
                if j < i {
                    if old_pos[j] >= p {
                        assert(sorted@[old_pos[j] + 1] == before[old_pos[j]]);
                    } else {
                        assert(sorted@[old_pos[j]] == before[old_pos[j]]);
                    }
                }
            }
        }
        i = i + 1;
    }
    proof {
        assert forall|x: int| 0 <= x < sorted@.len() implies summarises(results@, #[trigger] sorted@[x]) by {
            assert(same_group(sorted@[x], groups@[src[x]]));
        }
        assert forall|k: int| 0 <= k < results@.len() implies listed(
            sorted@,
            (#[trigger] results@[k]).config@,
        ) by {
            assert(listed(groups@, results@[k].config@));
            let x = choose|x: int| 0 <= x < groups@.len() && (#[trigger] groups@[x]).config@ == results@[k].config@;
            assert(same_group(sorted@[pos[x]], groups@[x]));
        }
    }
    sorted
}

/// The total speed of some results, in hundredths.
pub open spec fn speed_total(results: Seq<Record>) -> int
    decreases results.len(),
{
    if results.len() == 0 {
        0
    } else {
        speed_total(results.drop_last()) + results.last().wpm
    }
}

/// The total accuracy of some results, in hundredths of a percent.
pub open spec fn accuracy_total(results: Seq<Record>) -> int
    decreases results.len(),
{
    if results.len() == 0 {
        0
    } else {
        accuracy_total(results.drop_last()) + results.last().accuracy
    }
}

/// The total consistency of the results that measured it, and how many did.
pub open spec fn consistency_total(results: Seq<Record>) -> (int, int)
    decreases results.len(),
{
    if results.len() == 0 {
        (0, 0)
    } else {
        let (t, n) = consistency_total(results.drop_last());
        match results.last().consistency {
            Some(c) => (t + c, n + 1),
            None => (t, n),
        }
    }
}

/// The total time spent typing, in milliseconds.
pub open spec fn duration_total(results: Seq<Record>) -> int
    decreases results.len(),
{
    if results.len() == 0 {
        0
    } else {
        duration_total(results.drop_last()) + results.last().duration_ms
    }
}

/// The total of correct characters.
pub open spec fn correct_total(results: Seq<Record>) -> int
    decreases results.len(),
{
    if results.len() == 0 {
        0
    } else {
        correct_total(results.drop_last()) + results.last().correct
    }
}

/// The last `count` results, or all of them when there are fewer.
pub open spec fn last_of(results: Seq<Record>, count: int) -> Seq<Record> {
    if results.len() > count {
        results.skip(results.len() - count)
    } else {
        results
    }
}

/// The speeds of some results, in order.
pub open spec fn speeds(results: Seq<Record>) -> Seq<i64> {
    results.map_values(|r: Record| r.wpm)
}

proof fn lemma_totals_bound(results: Seq<Record>)
    ensures
        -0x8000_0000_0000_0000 * results.len() <= speed_total(results) <= 0x7FFF_FFFF_FFFF_FFFF
            * results.len(),
        -0x8000_0000_0000_0000 * results.len() <= accuracy_total(results) <= 0x7FFF_FFFF_FFFF_FFFF
            * results.len(),
        -0x8000_0000_0000_0000 * consistency_total(results).1 <= consistency_total(results).0
            <= 0x7FFF_FFFF_FFFF_FFFF * consistency_total(results).1,
        0 <= consistency_total(results).1 <= results.len(),
        0 <= correct_total(results),
    decreases results.len(),
{
    if results.len() > 0 {
        lemma_totals_bound(results.drop_last());
    }
}

proof fn lemma_correct_total_grows(results: Seq<Record>, i: int)
    requires
        0 <= i <= results.len(),
    ensures
        correct_total(results.take(i)) <= correct_total(results),
    decreases results.len() - i,
{
    if i < results.len() {
        lemma_correct_total_grows(results, i + 1);
        assert(results.take(i + 1).drop_last() =~= results.take(i));
        lemma_totals_bound(results.take(i));
    } else {
        assert(results.take(i) =~= results);
    }
}

/// The total speed of the results from `from` up to `to`.
fn speed_sum(results: &[Record], from: usize, to: usize) -> (t: i128)
    requires
        from <= to <= results@.len(),
    ensures
        t == speed_total(results@.subrange(from as int, to as int)),
{
    let mut t: i128 = 0;
    let mut i: usize = from;
    assert(results@.subrange(from as int, from as int) =~= Seq::<Record>::empty());
    while i < to
        invariant
            from <= i <= to,
            to <= results@.len(),
            t == speed_total(results@.subrange(from as int, i as int)),
        decreases to - i,
    {
        proof {
            assert(results@.subrange(from as int, i + 1).drop_last() =~= results@.subrange(
                from as int,
                i as int,
            ));
            lemma_totals_bound(results@.subrange(from as int, i as int));
        }
        t = t + results[i].wpm as i128;
        i = i + 1;
    }
    t
}

/// Everything worth knowing about a history of results. Averages come as
/// totals with the count they are over: the average speed is
/// `wpm_total / tests`, the recent average `recent_total / recent_count`,
/// the average consistency `consistency_total / consistency_count`, and the
/// improvement, a difference of two averages over ten tests each, is
/// `improvement / 10`. Speeds, accuracies and consistencies are in
/// hundredths.
#[derive(Debug)]
pub struct Summary {
    pub tests: usize,
    pub typing_ms: i64,
    pub words_typed: u64,
    pub best: Option<Record>,
    pub wpm_total: i128,
    pub accuracy_total: i128,
    pub consistency_total: i128,
    pub consistency_count: usize,
    pub recent_total: i128,
    pub recent_count: usize,
    pub improvement: Option<i128>,
    pub trend: Vec<i64>,
    pub by_config: Vec<ConfigSummary>,
    pub days_practiced: usize,
    pub streak: u32,
    pub last_at: Option<String>,
    pub trouble_keys: Vec<TroubleKey>,
    pub slips: Vec<Slip>,
}

/// Whether a history can be summed: its tallies are in order, no running
/// total overflows the type the figure is kept in, and no letter is recorded
/// with more errors than attempts.
pub open spec fn summable(results: Seq<Record>, options: TroubleOptions) -> bool {
    &&& tallies_wf(results)
    &&& forall|k: int|
        0 <= k <= results.len() ==> i64::MIN <= #[trigger] duration_total(results.take(k))
            <= i64::MAX
    &&& correct_total(results) <= u64::MAX
    &&& forall|c: char| #[trigger] attempts_total(results, c) <= u32::MAX
    &&& forall|c: char| #[trigger] errors_total(results, c) <= u32::MAX
    &&& forall|c: char|
        #[trigger] key_seen(results, c) && attempts_total(results, c) >= options.min_attempts
            && errors_total(results, c) > 0 ==> errors_total(results, c) <= attempts_total(
            results,
            c,
        )
    &&& forall|pair: (char, char)| #[trigger] slip_total(results, pair) <= u32::MAX
}

/// Whether no letter in a run of tallies went wrong more often than it was
/// attempted.
pub open spec fn errors_within(s: Seq<(char, KeyTally)>) -> bool {
    forall|i: int| 0 <= i < s.len() ==> (#[trigger] s[i]).1.errors <= s[i].1.attempts
}

/// One letter's tally keeps its errors within its attempts when every entry
/// does.
proof fn lemma_tally_within(s: Seq<(char, KeyTally)>, c: char)
    requires
        sorted_by_rank(s),
        errors_within(s),
    ensures
        tally_in(entries_map(s), c).errors <= tally_in(entries_map(s), c).attempts,
{
    if entries_map(s).contains_key(c) {
        let i = choose|i: int| 0 <= i < s.len() && #[trigger] s[i].0 == c;
        crate::tally::lemma_unique_index(s, c);
    }
}

fn errors_within_attempts(keys: &KeyTallies) -> (r: bool)
    requires
        keys.wf(),
    ensures
        r == errors_within(keys.seq()),
{
    let entries = keys.entries();
    let mut within = true;
    let mut i: usize = 0;
    while i < entries.len()
        invariant
            entries@ == keys.seq(),
            i <= entries@.len(),
            within == errors_within(entries@.take(i as int)),
        decreases entries@.len() - i,
    {
        let (_, tally) = entries[i];
        let ghost p = entries@.take(i as int);
        let ghost t = entries@.take(i + 1);
        assert(t[i as int] == entries@[i as int]);
        proof {
            if errors_within(p) && tally.errors <= tally.attempts {
                assert forall|k: int| 0 <= k < t.len() implies (#[trigger] t[k]).1.errors <= t[k].1.attempts by {
                    if k < i {
                        assert(t[k] == p[k]);
                    }
                }
            } else if !(tally.errors <= tally.attempts) {
                assert(!(t[i as int].1.errors <= t[i as int].1.attempts));
            } else {
                let k = choose|k: int| 0 <= k < p.len() && !((#[trigger] p[k]).1.errors <= p[k].1.attempts);
                assert(t[k] == p[k]);
            }
        }
        within = within && tally.errors <= tally.attempts;
        i = i + 1;
    }
    assert(entries@.take(entries@.len() as int) =~= entries@);
    within
}

/// Whether no letter of a test's tallies went wrong more often than it was
/// attempted, so that [`trouble_keys`] can rank them.
pub fn keys_consistent(keys: &KeyTallies) -> (b: bool)
    requires
        keys.wf(),
    ensures
        b == forall|c: char| #[trigger] keys.map().contains_key(c) ==> keys.map()[c].errors
            <= keys.map()[c].attempts,
{
    let within = errors_within_attempts(keys);
    proof {
        let s = keys.seq();
        if within {
            assert forall|c: char| #[trigger] keys.map().contains_key(c) implies keys.map()[c].errors
                <= keys.map()[c].attempts by {
                lemma_tally_within(s, c);
            }
        } else {
            let k = choose|k: int| 0 <= k < s.len() && !((#[trigger] s[k]).1.errors <= s[k].1.attempts);
            let c = s[k].0;
            crate::tally::lemma_unique_index(s, c);
            assert(keys.map().contains_key(c) && keys.map()[c] == s[k].1);
        }
    }
    within
}

/// What [`summable_check`] asks of one letter: its totals over the results
/// fit a `u32`, and where it can be trouble its errors are within its
/// attempts.
pub open spec fn letter_fits(results: Seq<Record>, c: char, options: TroubleOptions) -> bool {
    &&& attempts_total(results, c) <= u32::MAX
    &&& errors_total(results, c) <= u32::MAX
    &&& key_seen(results, c) && attempts_total(results, c) >= options.min_attempts && errors_total(results, c)
        > 0 ==> errors_total(results, c) <= attempts_total(results, c)
}

/// A letter tallied in one result is seen in the results.
proof fn lemma_seen_in(results: Seq<Record>, i: int, c: char)
    requires
        0 <= i < results.len(),
        results[i].keys.map().contains_key(c),
    ensures
        key_seen(results, c),
    decreases results.len(),
{
    if i < results.len() - 1 {
        assert(results.drop_last()[i] == results[i]);
        lemma_seen_in(results.drop_last(), i, c);
    }
}

/// A confusion recorded in one result is seen in the results.
proof fn lemma_slip_seen_in(results: Seq<Record>, i: int, pair: (char, char))
    requires
        0 <= i < results.len(),
        results[i].slips.map().contains_key(pair),
    ensures
        slip_seen(results, pair),
    decreases results.len(),
{
    if i < results.len() - 1 {
        assert(results.drop_last()[i] == results[i]);
        lemma_slip_seen_in(results.drop_last(), i, pair);
    }
}

/// How often `c` was attempted, and how often it went wrong, over the
/// results.
fn letter_totals(results: &[Record], c: char) -> (r: (u64, u64))
    requires
        tallies_wf(results@),
        results@.len() <= u32::MAX,
    ensures
        r.0 == attempts_total(results@, c),
        r.1 == errors_total(results@, c),
{
    let mut attempts: u64 = 0;
    let mut errors: u64 = 0;
    let mut k: usize = 0;
    while k < results.len()
        invariant
            tallies_wf(results@),
            results@.len() <= u32::MAX,
            k <= results@.len(),
            attempts == attempts_total(results@.take(k as int), c),
            errors == errors_total(results@.take(k as int), c),
            attempts <= k * 0xFFFF_FFFF,
            errors <= k * 0xFFFF_FFFF,
        decreases results@.len() - k,
    {
        let ghost next = results@.take(k + 1);
        assert(next.drop_last() =~= results@.take(k as int));
        assert(next.last() == results@[k as int]);
        assert(results@[k as int].keys.wf());
        match results[k].keys.get(&c) {
            Some(t) => {
                attempts = attempts + t.attempts as u64;
                errors = errors + t.errors as u64;
            },
            None => {},
        }
        k = k + 1;
    }
    assert(results@.take(results@.len() as int) =~= results@);
    (attempts, errors)
}

/// How often the confusion `pair` happened over the results.
fn slip_count(results: &[Record], pair: (char, char)) -> (r: u64)
    requires
        tallies_wf(results@),
        results@.len() <= u32::MAX,
    ensures
        r == slip_total(results@, pair),
{
    let mut total: u64 = 0;
    let mut k: usize = 0;
    while k < results.len()
        invariant
            tallies_wf(results@),
            results@.len() <= u32::MAX,
            k <= results@.len(),
            total == slip_total(results@.take(k as int), pair),
            total <= k * 0xFFFF_FFFF,
        decreases results@.len() - k,
    {
        let ghost next = results@.take(k + 1);
        assert(next.drop_last() =~= results@.take(k as int));
        assert(next.last() == results@[k as int]);
        assert(results@[k as int].slips.wf());
        match results[k].slips.get(&pair) {
            Some(n) => {
                total = total + n as u64;
            },
            None => {},
        }
        k = k + 1;
    }
    assert(results@.take(results@.len() as int) =~= results@);
    total
}

/// Whether results can be summarised: every tally in order, no more results
/// than a `u32` counts, and every total in range. When this holds,
/// [`Summary::build`] can take the results.
pub fn summable_check(results: &[Record], options: TroubleOptions) -> (b: bool)
    ensures
        b == (summable(results@, options) && results@.len() <= u32::MAX),
{
    if results.len() > 0xFFFF_FFFF {
        return false;
    }
    if !totals_fit(results) {
        return false;
    }
    let ghost all = results@;
    let mut i: usize = 0;
    while i < results.len()
        invariant
            all == results@,
            results@.len() <= u32::MAX,
            tallies_wf(all),
            i <= all.len(),
            forall|c: char| #[trigger] key_seen(all.take(i as int), c) ==> letter_fits(all, c, options),
        decreases all.len() - i,
    {
        let entries = results[i].keys.entries();
        let ghost before = all.take(i as int);
        let ghost after = all.take(i + 1);
        assert(after.drop_last() =~= before);
        assert(after.last() == all[i as int]);
        assert(all[i as int].keys.wf());
        let mut j: usize = 0;
        while j < entries.len()
            invariant
                all == results@,
                results@.len() <= u32::MAX,
                tallies_wf(all),
                i < all.len(),
                entries@ == all[i as int].keys.seq(),
                j <= entries@.len(),
                forall|c: char| #[trigger] key_seen(before, c) ==> letter_fits(all, c, options),
                forall|c: char| #[trigger] has_key(entries@.take(j as int), c) ==> letter_fits(all, c, options),
            decreases entries@.len() - j,
        {
            let c = entries[j].0;
            let (attempts, errors) = letter_totals(results, c);
            proof {
                assert(entries@[j as int].0 == c);
                assert(has_key(entries@, c));
                assert(all[i as int].keys.map().contains_key(c));
                lemma_seen_in(all, i as int, c);
            }
            if attempts > 0xFFFF_FFFF || errors > 0xFFFF_FFFF || (attempts >= options.min_attempts as u64
                && errors > 0 && errors > attempts) {
                assert(!letter_fits(all, c, options));
                return false;
            }
            assert(letter_fits(all, c, options));
            assert forall|d: char| #[trigger] has_key(entries@.take(j + 1), d) implies letter_fits(all, d, options) by {
                let t = entries@.take(j + 1);
                let k = choose|k: int| 0 <= k < t.len() && #[trigger] t[k].0 == d;
                if k < j {
                    assert(entries@.take(j as int)[k].0 == d);
                    assert(has_key(entries@.take(j as int), d));
                } else {
                    assert(d == entries@[j as int].0);
                }
            }
            j = j + 1;
        }
        assert forall|c: char| #[trigger] key_seen(after, c) implies letter_fits(all, c, options) by {
            if !key_seen(before, c) {
                assert(after.last().keys.map().contains_key(c));
                assert(entries@.take(entries@.len() as int) =~= entries@);
                assert(has_key(entries@.take(j as int), c));
            }
        }
        i = i + 1;
    }
    assert(all.take(all.len() as int) =~= all);
    let mut i: usize = 0;
    while i < results.len()
        invariant
            all == results@,
            results@.len() <= u32::MAX,
            tallies_wf(all),
            i <= all.len(),
            forall|pair: (char, char)| #[trigger] slip_seen(all.take(i as int), pair) ==> slip_total(all, pair) <= u32::MAX,
        decreases all.len() - i,
    {
        let entries = results[i].slips.entries();
        let ghost before = all.take(i as int);
        let ghost after = all.take(i + 1);
        assert(after.drop_last() =~= before);
        assert(after.last() == all[i as int]);
        assert(all[i as int].slips.wf());
        let mut j: usize = 0;
        while j < entries.len()
            invariant
                all == results@,
                results@.len() <= u32::MAX,
                tallies_wf(all),
                i < all.len(),
                entries@ == all[i as int].slips.seq(),
                j <= entries@.len(),
                forall|pair: (char, char)| #[trigger] slip_seen(before, pair) ==> slip_total(all, pair) <= u32::MAX,
                forall|pair: (char, char)| #[trigger] has_key(entries@.take(j as int), pair) ==> slip_total(all, pair) <= u32::MAX,
            decreases entries@.len() - j,
        {
            let pair = entries[j].0;
            let total = slip_count(results, pair);
            if total > 0xFFFF_FFFF {
                return false;
            }
            assert(slip_total(all, pair) <= u32::MAX);
            assert forall|d: (char, char)| #[trigger] has_key(entries@.take(j + 1), d) implies slip_total(all, d) <= u32::MAX by {
                let t = entries@.take(j + 1);
                let k = choose|k: int| 0 <= k < t.len() && #[trigger] t[k].0 == d;
                if k < j {
                    assert(entries@.take(j as int)[k].0 == d);
                    assert(has_key(entries@.take(j as int), d));
                } else {
                    assert(d == entries@[j as int].0);
                }
            }
            j = j + 1;
        }
        assert forall|pair: (char, char)| #[trigger] slip_seen(after, pair) implies slip_total(all, pair) <= u32::MAX by {
            if !slip_seen(before, pair) {
                assert(after.last().slips.map().contains_key(pair));
                assert(entries@.take(entries@.len() as int) =~= entries@);
                assert(has_key(entries@.take(j as int), pair));
            }
        }
        i = i + 1;
    }
    assert(all.take(all.len() as int) =~= all);
    assert forall|c: char| #[trigger] attempts_total(all, c) <= u32::MAX by {
        if !key_seen(all, c) {
            lemma_unseen_key(all, c);
        }
    }
    assert forall|c: char| #[trigger] errors_total(all, c) <= u32::MAX by {
        if !key_seen(all, c) {
            lemma_unseen_key(all, c);
        }
    }
    assert forall|c: char|
        #[trigger] key_seen(all, c) && attempts_total(all, c) >= options.min_attempts && errors_total(all, c)
            > 0 implies errors_total(all, c) <= attempts_total(all, c) by {
        assert(letter_fits(all, c, options));
    }
    assert forall|pair: (char, char)| #[trigger] slip_total(all, pair) <= u32::MAX by {
        lemma_slip_total_nonneg(all, pair);
    }
    true
}

/// Whether every tally of the results is in order, the correct characters
/// total within a `u64`, and every running total of the durations stays
/// within an `i64`.
fn totals_fit(results: &[Record]) -> (b: bool)
    ensures
        b == (tallies_wf(results@) && correct_total(results@) <= u64::MAX && forall|k: int|
            0 <= k <= results@.len() ==> i64::MIN <= #[trigger] duration_total(results@.take(k)) <= i64::MAX),
{
    let ghost all = results@;
    let mut correct: u128 = 0;
    let mut duration: i128 = 0;
    let mut i: usize = 0;
    assert(all.take(0) =~= Seq::<Record>::empty());
    while i < results.len()
        invariant
            all == results@,
            i <= results@.len(),
            tallies_wf(results@.take(i as int)),
            correct == correct_total(results@.take(i as int)),
            correct <= 0xFFFF_FFFF_FFFF_FFFF,
            duration == duration_total(results@.take(i as int)),
            forall|k: int| 0 <= k <= i ==> i64::MIN <= #[trigger] duration_total(results@.take(k)) <= i64::MAX,
        decreases results@.len() - i,
    {
        let record = &results[i];
        let ghost next = results@.take(i + 1);
        assert(next.drop_last() =~= results@.take(i as int));
        assert(next.last() == results@[i as int]);
        if !record.keys.is_ordered() || !record.slips.is_ordered() {
            assert(!tallies_wf(all)) by {
                assert(!(all[i as int].keys.wf() && all[i as int].slips.wf()));
            }
            return false;
        }
        correct = correct + record.correct as u128;
        duration = duration + record.duration_ms as i128;
        if correct > 0xFFFF_FFFF_FFFF_FFFF {
            proof {
                lemma_correct_grows(all, i + 1, all.len() as int);
                assert(all.take(all.len() as int) =~= all);
            }
            return false;
        }
        if duration < i64::MIN as i128 || duration > i64::MAX as i128 {
            assert(!(i64::MIN <= duration_total(all.take(i + 1)) <= i64::MAX));
            return false;
        }
        assert forall|k: int| 0 <= k < next.len() implies (#[trigger] next[k]).keys.wf() && next[k].slips.wf() by {
            if k < i {
                assert(next[k] == results@.take(i as int)[k]);
            }
        }
        i = i + 1;
    }
    assert(results@.take(results@.len() as int) =~= results@);
    true
}

/// The correct characters of a longer prefix of the results are at least
/// those of a shorter one.
proof fn lemma_correct_grows(results: Seq<Record>, j: int, k: int)
    requires
        0 <= j <= k <= results.len(),
    ensures
        0 <= correct_total(results.take(j)) <= correct_total(results.take(k)),
    decreases k,
{
    if k > 0 {
        let i = if j < k { j } else { k - 1 };
        lemma_correct_grows(results, i, k - 1);
        let t = results.take(k);
        assert(t.drop_last() =~= results.take(k - 1));
    } else {
        assert(results.take(0) =~= Seq::<Record>::empty());
    }
}

impl Summary {
    /// Builds a summary of every result given, as of `today`.
    #[verifier::rlimit(60)]
    pub fn build(results: &[Record], options: TroubleOptions, today: Date) -> (s: Summary)
        requires
            summable(results@, options),
            results@.len() <= u32::MAX,
        ensures
            s.tests == results@.len(),
            s.typing_ms == duration_total(results@),
            s.words_typed == (correct_total(results@) + 2) / 5,
            s.best is None <==> results@.len() == 0,
            s.best matches Some(b) ==> b.same_as(results@[best_index(results@)]),
            s.wpm_total == speed_total(results@),
            s.accuracy_total == accuracy_total(results@),
            s.consistency_total == consistency_total(results@).0,
            s.consistency_count == consistency_total(results@).1,
            s.recent_total == speed_total(last_of(results@, RECENT_WINDOW as int)),
            s.recent_count == last_of(results@, RECENT_WINDOW as int).len(),
            s.improvement == if results@.len() >= 2 * RECENT_WINDOW {
                Some(
                    (speed_total(last_of(results@, RECENT_WINDOW as int)) - speed_total(
                        last_of(results@.take(results@.len() - RECENT_WINDOW), RECENT_WINDOW as int),
                    )) as i128,
                )
            } else {
                None
            },
            s.trend@ == speeds(last_of(results@, TREND_WINDOW as int)),
            grouped(results@, s.by_config@),
            exists|days: Seq<Date>|
                practice_days_of(results@, days) && s.days_practiced == days.len() && s.streak
                    == streak_spec(days, today),
            match s.last_at {
                Some(at) => results@.len() > 0 && at@ == results@.last().at@,
                None => results@.len() == 0,
            },
            worst_of(
                Map::new(
                    |c: char| key_seen(results@, c),
                    |c: char| KeyTally {
                        attempts: attempts_total(results@, c) as u32,
                        errors: errors_total(results@, c) as u32,
                    },
                ),
                options,
                s.trouble_keys@,
            ),
            top_of(
                Map::new(
                    |pair: (char, char)| slip_seen(results@, pair),
                    |pair: (char, char)| slip_total(results@, pair) as u32,
                ),
                s.slips@,
                options.slips as int,
            ),
            crate::report::showable(s),
    {
        let n = results.len();
        let mut typing_ms: i64 = 0;
        let mut correct: u64 = 0;
        let mut wpm_total: i128 = 0;
        let mut accuracy_sum: i128 = 0;
        let mut consistency_sum: i128 = 0;
        let mut consistency_count: usize = 0;
        let mut i: usize = 0;
        while i < n
            invariant
                n == results@.len(),
                i <= n,
                summable(results@, options),
                typing_ms == duration_total(results@.take(i as int)),
                correct == correct_total(results@.take(i as int)),
                wpm_total == speed_total(results@.take(i as int)),
                accuracy_sum == accuracy_total(results@.take(i as int)),
                consistency_sum == consistency_total(results@.take(i as int)).0,
                consistency_count == consistency_total(results@.take(i as int)).1,
            decreases n - i,
        {
            let ghost done = results@.take(i as int);
            let ghost next = results@.take(i + 1);
            proof {
                assert(next.drop_last() =~= done);
                assert(next.last() == results@[i as int]);
                lemma_totals_bound(done);
                lemma_correct_total_grows(results@, i + 1);
                assert(i64::MIN <= duration_total(next) <= i64::MAX);
            }
            let record = &results[i];
            typing_ms = typing_ms + record.duration_ms;
            correct = correct + record.correct as u64;
            wpm_total = wpm_total + record.wpm as i128;
            accuracy_sum = accuracy_sum + record.accuracy as i128;
            match record.consistency {
                Some(c) => {
                    consistency_sum = consistency_sum + c as i128;
                    consistency_count = consistency_count + 1;
                },
                None => {},
            }
            i = i + 1;
        }
        proof {
            assert(results@.take(n as int) =~= results@);
        }
        let words_typed = ((correct as u128 + 2) / 5) as u64;
        let best = match best_of(results) {
            Some(record) => Some(record.duplicate()),
            None => None,
        };
        let recent_start: usize = if n > RECENT_WINDOW {
            n - RECENT_WINDOW
        } else {
            0
        };
        let recent_total = speed_sum(results, recent_start, n);
        proof {
            assert(last_of(results@, RECENT_WINDOW as int) =~= results@.subrange(
                recent_start as int,
                n as int,
            ));
        }
        let improvement = if n >= 2 * RECENT_WINDOW {
            let earlier = speed_sum(results, n - 2 * RECENT_WINDOW, n - RECENT_WINDOW);
            proof {
                assert(last_of(results@.take(n - RECENT_WINDOW), RECENT_WINDOW as int) =~= results@.subrange(
                    n - 2 * RECENT_WINDOW,
                    n - RECENT_WINDOW,
                ));
                lemma_totals_bound(results@.subrange(n - 2 * RECENT_WINDOW, n - RECENT_WINDOW));
                lemma_totals_bound(results@.subrange(recent_start as int, n as int));
            }
            Some(recent_total - earlier)
        } else {
            None
        };
        let trend_start: usize = if n > TREND_WINDOW {
            n - TREND_WINDOW
        } else {
            0
        };
        let mut trend: Vec<i64> = Vec::new();
        let mut k: usize = trend_start;
        while k < n
            invariant
                n == results@.len(),
                trend_start <= k <= n,
                trend@ == speeds(results@.subrange(trend_start as int, k as int)),
            decreases n - k,
        {
            trend.push(results[k].wpm);
            k = k + 1;
            assert(trend@ =~= speeds(results@.subrange(trend_start as int, k as int)));
        }
        proof {
            assert(last_of(results@, TREND_WINDOW as int) =~= results@.subrange(
                trend_start as int,
                n as int,
            ));
        }
        let groups = by_config(results);
        let days = practice_days(results);
        let days_practiced = days.len();
        let streak_days = streak(days.as_slice(), today);
        let last_at = if n > 0 {
            Some(owned(results[n - 1].at.as_str()))
        } else {
            None
        };
        let merged_keys = merge_keys(results);
        let ghost key_map = Map::new(
            |c: char| key_seen(results@, c),
            |c: char| KeyTally {
                attempts: attempts_total(results@, c) as u32,
                errors: errors_total(results@, c) as u32,
            },
        );
        proof {
            assert(merged_keys.map() =~= key_map);
            assert forall|c: char| #[trigger] merged_keys.map().contains_key(c) && is_trouble(
                merged_keys.map()[c],
                options.min_attempts,
            ) implies merged_keys.map()[c].errors <= merged_keys.map()[c].attempts by {
                lemma_key_totals_nonneg(results@, c);
            }
        }
        let trouble = trouble_keys(&merged_keys, options);
        let merged_slips = merge_slips(results);
        let ghost slip_map = Map::new(
            |pair: (char, char)| slip_seen(results@, pair),
            |pair: (char, char)| slip_total(results@, pair) as u32,
        );
        proof {
            assert(merged_slips.map() =~= slip_map);
        }
        let slips = top_slips(&merged_slips, options.slips);
        proof {
            lemma_totals_bound(results@);
            lemma_totals_bound(results@.subrange(recent_start as int, n as int));
            assert forall|x: int| 0 <= x < groups@.len() implies (#[trigger] groups@[x]).tests > 0
                && crate::report::total_fits(groups@[x].total as int, groups@[x].tests as int) by {
                assert(summarises(results@, groups@[x]));
                lemma_total_matching_by_count(results@, groups@[x].config@);
                lemma_best_matching(results@, groups@[x].config@);
            }
            assert forall|x: int| 0 <= x < trouble@.len() implies 0 < (#[trigger] trouble@[x]).errors
                <= trouble@[x].attempts by {
                let c = trouble@[x].key;
                assert(key_map.contains_key(c));
                lemma_key_totals_nonneg(results@, c);
            }
            assert(crate::report::total_fits(wpm_total as int, n as int));
            assert(crate::report::total_fits(accuracy_sum as int, n as int));
            assert(crate::report::total_fits(consistency_sum as int, consistency_count as int));
            assert(crate::report::total_fits(recent_total as int, (n - recent_start) as int));
            assert(improvement matches Some(d) ==> -0x10_0000_0000_0000_0000 <= d
                <= 0x10_0000_0000_0000_0000);
        }
        Summary {
            tests: n,
            typing_ms,
            words_typed,
            best,
            wpm_total,
            accuracy_total: accuracy_sum,
            consistency_total: consistency_sum,
            consistency_count,
            recent_total,
            recent_count: n - recent_start,
            improvement,
            trend,
            by_config: groups,
            days_practiced,
            streak: streak_days,
            last_at,
            trouble_keys: trouble,
            slips,
        }
    }
}

} // verus!
