use itertools::Itertools;
use vstd::prelude::*;

use crate::bigram::{dot_of, occurrences, pair_indices, sum_squares, BigramMap, MAX_SQUARE, TABLE_SIZE};
use crate::options::{SortDirection, SortOption};
use crate::scan::{find_strings, is_scan_of, FoundString};
use crate::wide::{cmp_scaled_squares, OPERAND_LIMIT};

verus! {

/// A sort key `(n, d)` stands for the score `n / sqrt(d)`; `d == 0` stands for
/// an undefined score, which ranks below every defined one. `a` ranks strictly
/// below `b`.
pub open spec fn score_lt(a: (int, int), b: (int, int)) -> bool {
    ||| (a.1 == 0 && b.1 != 0)
    ||| (a.1 != 0 && b.1 != 0 && a.0 * a.0 * b.1 < b.0 * b.0 * a.1)
}

/// Entry `i` with key `a` comes before entry `j` with key `b`: by key in the
/// given direction, and by position in the input between equal keys.
pub open spec fn ranks_before(a: (int, int), i: int, b: (int, int), j: int, dir: SortDirection) -> bool {
    match dir {
        SortDirection::Ascending => score_lt(a, b) || (!score_lt(a, b) && !score_lt(b, a) && i < j),
        SortDirection::Descending => score_lt(b, a) || (!score_lt(a, b) && !score_lt(b, a) && i < j),
    }
}

/// `p` is a permutation of the positions of `keys` that lists them in ranking order.
pub open spec fn is_rank_order(keys: Seq<(int, int)>, dir: SortDirection, p: Seq<int>) -> bool {
    &&& p.len() == keys.len()
    &&& forall|k: int| 0 <= k < p.len() ==> 0 <= #[trigger] p[k] < keys.len()
    &&& forall|i: int, j: int| 0 <= i < p.len() && 0 <= j < p.len() && i != j ==> p[i] != p[j]
    &&& forall|i: int, j: int|
        0 <= i < j < p.len() ==> ranks_before(keys[p[i]], p[i], keys[p[j]], p[j], dir)
}

/// `r` is `spans` reordered by ranking order over `keys`, a stable sort.
pub open spec fn is_ranking(
    spans: Seq<FoundString>,
    keys: Seq<(int, int)>,
    dir: SortDirection,
    r: Seq<FoundString>,
) -> bool {
    exists|p: Seq<int>|
        #[trigger] is_rank_order(keys, dir, p) && r.len() == p.len() && forall|k: int|
            0 <= k < r.len() ==> r[k] == spans[p[k]]
}

/// Keys that order spans by start address.
pub open spec fn address_keys(spans: Seq<FoundString>) -> Seq<(int, int)> {
    Seq::new(spans.len(), |k: int| (spans[k].0 as int, 1int))
}

/// Keys that order spans by length.
pub open spec fn length_keys(spans: Seq<FoundString>) -> Seq<(int, int)> {
    Seq::new(spans.len(), |k: int| (spans[k].1 - spans[k].0, 1int))
}

/// The counts of a model built from the text `b` alone.
pub open spec fn text_counts(b: Seq<u8>) -> Seq<u32> {
    Seq::new(TABLE_SIZE as nat, |i: int| occurrences(pair_indices(b), i) as u32)
}

/// The similarity key of the text `b` against a reference table: the dot
/// product and the squared norm of the text's own model.
pub open spec fn english_key(b: Seq<u8>, reference: Seq<u32>) -> (int, int) {
    (
        dot_of(text_counts(b), reference, TABLE_SIZE as int),
        sum_squares(text_counts(b), TABLE_SIZE as int),
    )
}

/// Keys that order spans of `map` by similarity to the reference table.
pub open spec fn english_keys(map: Seq<u8>, spans: Seq<FoundString>, reference: Seq<u32>) -> Seq<
    (int, int),
> {
    Seq::new(
        spans.len(),
        |k: int| english_key(map.subrange(spans[k].0 as int, spans[k].1 as int), reference),
    )
}

/// The keys that a sort mode uses.
pub open spec fn keys_for(
    sort: SortOption,
    map: Seq<u8>,
    spans: Seq<FoundString>,
    reference: Seq<u32>,
) -> Seq<(int, int)> {
    match sort {
        SortOption::Address => address_keys(spans),
        SortOption::Length => length_keys(spans),
        SortOption::English => english_keys(map, spans, reference),
    }
}

/// Every span lies inside a buffer of length `n`.
pub open spec fn spans_within(spans: Seq<FoundString>, n: int) -> bool {
    forall|k: int| 0 <= k < spans.len() ==> (#[trigger] spans[k]).0 <= spans[k].1 <= n
}

/// Every span is short enough for its counts to fit in 32 bits.
pub open spec fn spans_countable(spans: Seq<FoundString>) -> bool {
    forall|k: int| 0 <= k < spans.len() ==> (#[trigger] spans[k]).1 - spans[k].0 < u32::MAX
}

/// With keys of weight one, the score order is the order of the first parts.
pub proof fn plain_keys_order(a: nat, b: nat)
    ensures
        score_lt((a as int, 1int), (b as int, 1int)) == (a < b),
{
    if a < b {
        assert(a * a < b * b) by (nonlinear_arith)
            requires
                a < b,
        ;
    } else {
        assert(b * b <= a * a) by (nonlinear_arith)
            requires
                b <= a,
        ;
    }
}

/// A span with its sort key and its position in the scan.
struct Ranked {
    span: FoundString,
    pos: usize,
    num: u128,
    den: u128,
}

spec fn key_of(r: Ranked) -> (int, int) {
    (r.num as int, r.den as int)
}

/// `r` holds the entries of `v`, each once, as `p` picks them.
spec fn is_reordering(r: Seq<Ranked>, v: Seq<Ranked>, p: Seq<int>) -> bool {
    &&& p.len() == v.len()
    &&& r.len() == v.len()
    &&& forall|k: int| 0 <= k < p.len() ==> 0 <= #[trigger] p[k] < v.len()
    &&& forall|i: int, j: int| 0 <= i < p.len() && 0 <= j < p.len() && i != j ==> p[i] != p[j]
    &&& forall|k: int| 0 <= k < r.len() ==> r[k] == v[p[k]]
}

/// Orders two entries: by key in the direction `dir`, then by position.
fn compare(a: &Ranked, b: &Ranked, dir: SortDirection) -> (r: core::cmp::Ordering)
    requires
        a.num < OPERAND_LIMIT,
        a.den < OPERAND_LIMIT,
        b.num < OPERAND_LIMIT,
        b.den < OPERAND_LIMIT,
    ensures
        (r == core::cmp::Ordering::Less) == ranks_before(key_of(*a), a.pos as int, key_of(*b), b.pos as int, dir),
        (r == core::cmp::Ordering::Greater) == ranks_before(key_of(*b), b.pos as int, key_of(*a), a.pos as int, dir),
{
    let by_score = if a.den == 0 && b.den == 0 {
        core::cmp::Ordering::Equal
    } else if a.den == 0 {
        core::cmp::Ordering::Less
    } else if b.den == 0 {
        core::cmp::Ordering::Greater
    } else {
        cmp_scaled_squares(a.num, b.den, b.num, a.den)
    };
    let by_dir = match dir {
        SortDirection::Ascending => by_score,
        SortDirection::Descending => match by_score {
            core::cmp::Ordering::Less => core::cmp::Ordering::Greater,
            core::cmp::Ordering::Greater => core::cmp::Ordering::Less,
            core::cmp::Ordering::Equal => core::cmp::Ordering::Equal,
        },
    };
    match by_dir {
        core::cmp::Ordering::Equal => if a.pos < b.pos {
            core::cmp::Ordering::Less
        } else if b.pos < a.pos {
            core::cmp::Ordering::Greater
        } else {
            core::cmp::Ordering::Equal
        },
        other => other,
    }
}

/// Relies on itertools::Itertools::sorted_by, which collects the entries and
/// sorts them with slice::sort_by: the result holds the same entries, and none
/// is followed by one that the comparator puts before it.
#[verifier::external_body]
fn sorted_entries(v: Vec<Ranked>, dir: SortDirection) -> (r: Vec<Ranked>)
    requires
        forall|k: int| 0 <= k < v@.len() ==> v@[k].num < OPERAND_LIMIT && v@[k].den < OPERAND_LIMIT,
    ensures
        exists|p: Seq<int>| #[trigger] is_reordering(r@, v@, p),
        forall|i: int, j: int|
            0 <= i < j < r@.len() ==> !ranks_before(
                key_of(r@[j]),
                r@[j].pos as int,
                key_of(r@[i]),
                r@[i].pos as int,
                dir,
            ),
{
    v.into_iter().sorted_by(|a, b| compare(a, b, dir)).collect()
}

/// Sorts `spans` by `keys` (one per span) in the direction `dir`; spans with
/// equal keys keep their order.
fn rank_by_keys(spans: Vec<FoundString>, nums: Vec<u128>, dens: Vec<u128>, dir: SortDirection) -> (r: Vec<FoundString>)
    requires
        nums@.len() == spans@.len(),
        dens@.len() == spans@.len(),
        forall|k: int| 0 <= k < spans@.len() ==> nums@[k] < OPERAND_LIMIT && dens@[k] < OPERAND_LIMIT,
    ensures
        is_ranking(
            spans@,
            Seq::new(spans@.len(), |k: int| (nums@[k] as int, dens@[k] as int)),
            dir,
            r@,
        ),
{
    let ghost keys = Seq::new(spans@.len(), |k: int| (nums@[k] as int, dens@[k] as int));
    let n = spans.len();
    let mut entries: Vec<Ranked> = Vec::with_capacity(n);
    let mut i: usize = 0;
    while i < n
        invariant
            n == spans@.len(),
            nums@.len() == n,
            dens@.len() == n,
            i <= n,
            entries@.len() == i,
            forall|k: int| 0 <= k < n ==> nums@[k] < OPERAND_LIMIT && dens@[k] < OPERAND_LIMIT,
            forall|k: int|
                0 <= k < i ==> #[trigger] entries@[k] == (Ranked {
                    span: spans@[k],
                    pos: k as usize,
                    num: nums@[k],
                    den: dens@[k],
                }),
        decreases n - i,
    {
        entries.push(Ranked { span: spans[i], pos: i, num: nums[i], den: dens[i] });
        i = i + 1;
    }
    let ghost v = entries@;
    let sorted = sorted_entries(entries, dir);
    let ghost p = choose|p: Seq<int>| #[trigger] is_reordering(sorted@, v, p);
    let mut out: Vec<FoundString> = Vec::with_capacity(n);
    let mut j: usize = 0;
    while j < sorted.len()
        invariant
            sorted@.len() == n,
            j <= n,
            out@.len() == j,
            forall|k: int| 0 <= k < j ==> out@[k] == sorted@[k].span,
        decreases n - j,
    {
        out.push(sorted[j].span);
        j = j + 1;
    }
    proof {
        assert forall|k: int| 0 <= k < n implies sorted@[k].pos == p[k] && sorted@[k].span
            == spans@[p[k]] && key_of(sorted@[k]) == keys[p[k]] by {
            assert(sorted@[k] == v[p[k]]);
        }
        assert forall|a: int, b: int| 0 <= a < b < p.len() implies ranks_before(
            keys[p[a]],
            p[a],
            keys[p[b]],
            p[b],
            dir,
        ) by {
            assert(sorted@[a] == v[p[a]]);
            assert(sorted@[b] == v[p[b]]);
            assert(key_of(sorted@[a]) == keys[p[a]]);
            assert(key_of(sorted@[b]) == keys[p[b]]);
            assert(sorted@[a].pos == p[a]);
            assert(sorted@[b].pos == p[b]);
            assert(p[a] != p[b]);
            assert(!ranks_before(
                key_of(sorted@[b]),
                sorted@[b].pos as int,
                key_of(sorted@[a]),
                sorted@[a].pos as int,
                dir,
            ));
        }
        assert(is_rank_order(keys, dir, p));
    }
    out
}

/// Sorts the spans of a scan by start address or by length; spans with
/// equal keys keep their scan order.
pub fn sort_by_position(results: Vec<FoundString>, sort: SortOption, dir: SortDirection) -> (r: Vec<FoundString>)
    requires
        sort != SortOption::English,
        spans_within(results@, usize::MAX as int),
    ensures
        is_ranking(results@, keys_for(sort, Seq::empty(), results@, Seq::empty()), dir, r@),
{
    let n = results.len();
    let mut nums: Vec<u128> = Vec::with_capacity(n);
    let mut dens: Vec<u128> = Vec::with_capacity(n);
    let mut i: usize = 0;
    while i < n
        invariant
            n == results@.len(),
            i <= n,
            nums@.len() == i,
            dens@.len() == i,
            sort != SortOption::English,
            spans_within(results@, usize::MAX as int),
            forall|k: int|
                0 <= k < i ==> nums@[k] == keys_for(sort, Seq::empty(), results@, Seq::empty())[k].0
                    && dens@[k] == 1 && nums@[k] < OPERAND_LIMIT,
        decreases n - i,
    {
        let f = results[i];
        let key = match sort {
            SortOption::Length => f.len(),
            _ => f.start(),
        };
        nums.push(key as u128);
        dens.push(1);
        i = i + 1;
    }
    let ghost input = results@;
    let r = rank_by_keys(results, nums, dens, dir);
    proof {
        let keys = keys_for(sort, Seq::empty(), input, Seq::empty());
        assert(Seq::new(input.len(), |k: int| (nums@[k] as int, dens@[k] as int)) =~= keys);
    }
    r
}

/// The similarity key of one span of `map` against `reference`.
fn english_key_of(map: &[u8], span: FoundString, reference: &BigramMap) -> (r: (u128, u128))
    requires
        span.0 <= span.1 <= map@.len(),
        span.1 - span.0 < u32::MAX,
        reference.wf(),
    ensures
        (r.0 as int, r.1 as int) == english_key(
            map@.subrange(span.0 as int, span.1 as int),
            reference@,
        ),
        r.0 < OPERAND_LIMIT,
        r.1 < OPERAND_LIMIT,
{
    let text = span.slice(map);
    let mut model = BigramMap::new();
    proof {
        crate::bigram::lemma_occurrences_bound(text@);
    }
    model.add_bytes(text);
    proof {
        assert(model@ =~= text_counts(text@));
    }
    let d = model.dot(reference);
    let s = model.norm_sq();
    proof {
        assert(TABLE_SIZE * MAX_SQUARE < OPERAND_LIMIT);
    }
    (d, s)
}

/// Sorts the spans of a scan of `map` by how closely each span's byte-pair
/// statistics resemble `reference` (cosine similarity); spans with equal
/// scores keep their scan order, and a span whose own model is empty (only
/// spaces) ranks below every other.
pub fn sort_by_bigrams(
    map: &[u8],
    results: Vec<FoundString>,
    dir: SortDirection,
    reference: &BigramMap,
) -> (r: Vec<FoundString>)
    requires
        spans_within(results@, map@.len() as int),
        spans_countable(results@),
        reference.wf(),
    ensures
        is_ranking(results@, english_keys(map@, results@, reference@), dir, r@),
{
    let n = results.len();
    let mut nums: Vec<u128> = Vec::with_capacity(n);
    let mut dens: Vec<u128> = Vec::with_capacity(n);
    let mut i: usize = 0;
    while i < n
        invariant
            n == results@.len(),
            i <= n,
            nums@.len() == i,
            dens@.len() == i,
            reference.wf(),
            spans_within(results@, map@.len() as int),
            spans_countable(results@),
            forall|k: int|
                0 <= k < i ==> (nums@[k] as int, dens@[k] as int) == english_keys(
                    map@,
                    results@,
                    reference@,
                )[k],
            forall|k: int| 0 <= k < i ==> nums@[k] < OPERAND_LIMIT && dens@[k] < OPERAND_LIMIT,
        decreases n - i,
    {
        let (d, s) = english_key_of(map, results[i], reference);
        proof {
            assert((d as int, s as int) == english_keys(map@, results@, reference@)[i as int]);
        }
        nums.push(d);
        dens.push(s);
        i = i + 1;
    }
    let ghost input = results@;
    let r = rank_by_keys(results, nums, dens, dir);
    proof {
        assert(Seq::new(input.len(), |k: int| (nums@[k] as int, dens@[k] as int))
            =~= english_keys(map@, input, reference@));
    }
    r
}

/// Sorts the spans of a scan of `map` in the mode `sort` and direction `dir`.
pub fn sort_results(
    map: &[u8],
    results: Vec<FoundString>,
    sort: SortOption,
    dir: SortDirection,
    reference: &BigramMap,
) -> (r: Vec<FoundString>)
    requires
        spans_within(results@, map@.len() as int),
        sort == SortOption::English ==> spans_countable(results@),
        reference.wf(),
    ensures
        is_ranking(results@, keys_for(sort, map@, results@, reference@), dir, r@),
{
    match sort {
        SortOption::English => sort_by_bigrams(map, results, dir, reference),
        _ => {
            let ghost input = results@;
            let r = sort_by_position(results, sort, dir);
            proof {
                assert(keys_for(sort, Seq::empty(), input, Seq::empty()) =~= keys_for(
                    sort,
                    map@,
                    input,
                    reference@,
                ));
            }
            r
        },
    }
}

/// Finds every maximal printable run of at least `min_len` bytes in `map` and
/// returns the runs in the order that `sort` and `dir` ask for.
pub fn search(
    map: &[u8],
    min_len: usize,
    sort: SortOption,
    dir: SortDirection,
    reference: &BigramMap,
) -> (r: Vec<FoundString>)
    requires
        sort == SortOption::English ==> map@.len() < u32::MAX,
        reference.wf(),
    ensures
        exists|found: Seq<FoundString>|
            #[trigger] is_scan_of(map@, min_len as int, found) && is_ranking(
                found,
                keys_for(sort, map@, found, reference@),
                dir,
                r@,
            ),
{
    let results = find_strings(map, min_len);
    let ghost found = results@;
    let r = sort_results(map, results, sort, dir, reference);
    proof {
        assert(is_scan_of(map@, min_len as int, found));
    }
    r
}

} // verus!
