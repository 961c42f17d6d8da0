use vstd::prelude::*;
use vstd::string::StringSliceAdditionalSpecFns;

verus! {

/// Number of counters: one for every ordered pair of bytes.
pub const TABLE_SIZE: usize = 65536;

/// The byte that is dropped from text and that pads its two ends.
pub const SPACE: u8 = 32;

/// Largest square of a 32-bit counter.
pub const MAX_SQUARE: u128 = 0xFFFF_FFFE_0000_0001;

/// The bytes of `b` with every space removed, order kept.
pub open spec fn without_spaces(b: Seq<u8>) -> Seq<u8>
    decreases b.len(),
{
    if b.len() == 0 {
        Seq::empty()
    } else if b.last() == SPACE {
        without_spaces(b.drop_last())
    } else {
        without_spaces(b.drop_last()).push(b.last())
    }
}

/// Counter index of the ordered pair `(x, y)`.
pub open spec fn pair_index(x: u8, y: u8) -> int {
    x as int * 256 + y as int
}

/// The counters that adding `b` increments, once per entry: every adjacent
/// pair of the space-free bytes, then `(space, first)`, then `(last, space)`
/// when more than one byte is left. Text without any non-space byte adds nothing.
pub open spec fn pair_indices(b: Seq<u8>) -> Seq<int> {
    let f = without_spaces(b);
    if f.len() == 0 {
        Seq::empty()
    } else {
        let inner = Seq::new((f.len() - 1) as nat, |k: int| pair_index(f[k], f[k + 1]));
        let lead = inner.push(pair_index(SPACE, f[0]));
        if f.len() > 1 {
            lead.push(pair_index(f.last(), SPACE))
        } else {
            lead
        }
    }
}

/// How many entries of `p` equal `x`.
pub open spec fn occurrences(p: Seq<int>, x: int) -> nat
    decreases p.len(),
{
    if p.len() == 0 {
        0
    } else {
        occurrences(p.drop_last(), x) + if p.last() == x {
            1nat
        } else {
            0nat
        }
    }
}

/// Sum of the squares of the first `n` counters.
pub open spec fn sum_squares(c: Seq<u32>, n: int) -> int
    decreases n,
{
    if n <= 0 {
        0
    } else {
        sum_squares(c, n - 1) + c[n - 1] * c[n - 1]
    }
}

/// Sum of the products of the first `n` counters of `a` and `b`.
pub open spec fn dot_of(a: Seq<u32>, b: Seq<u32>, n: int) -> int
    decreases n,
{
    if n <= 0 {
        0
    } else {
        dot_of(a, b, n - 1) + a[n - 1] * b[n - 1]
    }
}

/// A table of byte-pair counts with its squared Euclidean norm kept exact.
///
/// The norm is recomputed after every change, so it is never stale. Its square
/// root is the model's magnitude, and the cosine similarity of two models is
/// `dot / sqrt(norm_sq(a) * norm_sq(b))`.
#[derive(Debug)]
pub struct BigramMap {
    lut: Vec<u32>,
    norm_sq: u128,
}

impl View for BigramMap {
    type V = Seq<u32>;

    closed spec fn view(&self) -> Seq<u32> {
        self.lut@
    }
}

impl BigramMap {
    /// The squared norm that the model holds.
    pub closed spec fn spec_norm_sq(&self) -> int {
        self.norm_sq as int
    }

    /// The table has every counter and its norm matches them.
    pub open spec fn wf(&self) -> bool {
        &&& self@.len() == TABLE_SIZE
        &&& self.spec_norm_sq() == sum_squares(self@, TABLE_SIZE as int)
    }

    /// The model with every counter at zero.
    pub fn new() -> (r: BigramMap)
        ensures
            r.wf(),
            forall|i: int| 0 <= i < TABLE_SIZE ==> r@[i] == 0,
    {
        let mut lut: Vec<u32> = Vec::with_capacity(TABLE_SIZE);
        let mut i: usize = 0;
        while i < TABLE_SIZE
            invariant
                i <= TABLE_SIZE,
                lut@.len() == i,
                forall|k: int| 0 <= k < i ==> lut@[k] == 0,
            decreases TABLE_SIZE - i,
        {
            lut.push(0);
            i = i + 1;
        }
        let r = BigramMap { lut, norm_sq: 0 };
        proof {
            lemma_sum_squares_zero(r@, TABLE_SIZE as int);
        }
        r
    }

    /// The model of a single text.
    pub fn from_str(s: &str) -> (r: BigramMap)
        requires
            s.spec_bytes().len() < u32::MAX,
        ensures
            r.wf(),
            forall|i: int|
                0 <= i < TABLE_SIZE ==> r@[i] == occurrences(pair_indices(s.spec_bytes()), i),
    {
        let mut m = BigramMap::new();
        proof {
            lemma_occurrences_bound(s.spec_bytes());
        }
        m.add(s);
        m
    }

    /// Folds one text into the counts; see `pair_indices` for what is counted.
    pub fn add(&mut self, s: &str)
        requires
            old(self).wf(),
            forall|i: int|
                0 <= i < TABLE_SIZE ==> old(self)@[i] + occurrences(pair_indices(s.spec_bytes()), i)
                    <= u32::MAX,
        ensures
            final(self).wf(),
            forall|i: int|
                0 <= i < TABLE_SIZE ==> final(self)@[i] == old(self)@[i] + occurrences(
                    pair_indices(s.spec_bytes()),
                    i,
                ),
    {
        self.add_bytes(s.as_bytes());
    }

    /// Folds `s` into the counts when every counter has room for `s.len() + 1`
    /// more, the most that one text can add to a counter; otherwise leaves the
    /// model as it is. Says which it did.
    pub fn try_add(&mut self, s: &str) -> (r: bool)
        requires
            old(self).wf(),
        ensures
            final(self).wf(),
            r == forall|i: int|
                0 <= i < TABLE_SIZE ==> old(self)@[i] + s.spec_bytes().len() + 1 <= u32::MAX,
            r ==> forall|i: int|
                0 <= i < TABLE_SIZE ==> final(self)@[i] == old(self)@[i] + occurrences(
                    pair_indices(s.spec_bytes()),
                    i,
                ),
            !r ==> final(self)@ == old(self)@,
    {
        let len = s.as_bytes().len();
        if len >= u32::MAX as usize {
            proof {
                assert(old(self)@[0] + s.spec_bytes().len() + 1 > u32::MAX);
            }
            return false;
        }
        let room = u32::MAX - 1 - len as u32;
        let mut i: usize = 0;
        while i < TABLE_SIZE
            invariant
                self.wf(),
                *self == *old(self),
                room == u32::MAX - 1 - s.spec_bytes().len(),
                i <= TABLE_SIZE,
                forall|k: int| 0 <= k < i ==> self@[k] <= room,
            decreases TABLE_SIZE - i,
        {
            if self.lut[i] > room {
                return false;
            }
            i = i + 1;
        }
        proof {
            lemma_occurrences_bound(s.spec_bytes());
        }
        self.add(s);
        true
    }

    /// Folds the bytes of one text into the counts.
    pub fn add_bytes(&mut self, b: &[u8])
        requires
            old(self).wf(),
            forall|i: int|
                0 <= i < TABLE_SIZE ==> old(self)@[i] + occurrences(pair_indices(b@), i)
                    <= u32::MAX,
        ensures
            final(self).wf(),
            forall|i: int|
                0 <= i < TABLE_SIZE ==> final(self)@[i] == old(self)@[i] + occurrences(
                    pair_indices(b@),
                    i,
                ),
    {
        let ghost old_lut = self@;
        let ghost p = pair_indices(b@);
        proof {
            assert(old_lut.take(TABLE_SIZE as int) =~= old_lut);
        }
        if b.len() == 0 {
            proof {
                assert(without_spaces(b@).len() == 0);
            }
            return ;
        }
        let mut f: Vec<u8> = Vec::new();
        let mut i: usize = 0;
        while i < b.len()
            invariant
                i <= b@.len(),
                f@ == without_spaces(b@.take(i as int)),
            decreases b@.len() - i,
        {
            proof {
                assert(b@.take(i + 1).drop_last() =~= b@.take(i as int));
            }
            if b[i] != SPACE {
                f.push(b[i]);
            }
            i = i + 1;
        }
        proof {
            assert(b@.take(b@.len() as int) =~= b@);
        }
        if f.len() == 0 {
            return ;
        }
        let n = f.len();
        let mut k: usize = 0;
        while k + 1 < n
            invariant
                n == f@.len(),
                n >= 1,
                k < n,
                f@ == without_spaces(b@),
                p == pair_indices(b@),
                self.lut@.len() == TABLE_SIZE,
                old_lut.len() == TABLE_SIZE,
                forall|x: int|
                    0 <= x < TABLE_SIZE ==> old_lut[x] + occurrences(p, x) <= u32::MAX,
                forall|x: int|
                    0 <= x < TABLE_SIZE ==> self.lut@[x] == old_lut[x] + occurrences(
                        p.take(k as int),
                        x,
                    ),
            decreases n - k,
        {
            let ghost before = self.lut@;
            proof {
                assert(p[k as int] == pair_index(f@[k as int], f@[k + 1]));
                lemma_step(before, before.update(p[k as int], (before[p[k as int]] + 1) as u32), old_lut, p, k as int);
            }
            self.bump(f[k], f[k + 1]);
            proof {
                lemma_step(before, self.lut@, old_lut, p, k as int);
            }
            k = k + 1;
        }
        let ghost before = self.lut@;
        proof {
            assert(p[k as int] == pair_index(SPACE, f@[0]));
            lemma_step(before, before.update(p[k as int], (before[p[k as int]] + 1) as u32), old_lut, p, k as int);
        }
        self.bump(SPACE, f[0]);
        proof {
            lemma_step(before, self.lut@, old_lut, p, k as int);
        }
        if n > 1 {
            let ghost before = self.lut@;
            proof {
                assert(p[k + 1] == pair_index(f@[n - 1], SPACE));
                lemma_step(before, before.update(p[k + 1], (before[p[k + 1]] + 1) as u32), old_lut, p, k + 1);
            }
            self.bump(f[n - 1], SPACE);
            proof {
                lemma_step(before, self.lut@, old_lut, p, k + 1);
            }
            proof {
                assert(p.take(k + 2) =~= p);
            }
        } else {
            proof {
                assert(p.take(k + 1) =~= p);
            }
        }
        self.measure();
    }

    // Increment the count of the pair `(one, two)`.
    fn bump(&mut self, one: u8, two: u8)
        requires
            old(self).lut@.len() == TABLE_SIZE,
            old(self).lut@[pair_index(one, two)] < u32::MAX,
        ensures
            final(self).lut@ == old(self).lut@.update(
                pair_index(one, two),
                (old(self).lut@[pair_index(one, two)] + 1) as u32,
            ),
            final(self).norm_sq == old(self).norm_sq,
    {
        let idx = (one as usize) * 256 + two as usize;
        self.lut.set(idx, self.lut[idx] + 1);
    }

    // Recompute the squared norm from every counter.
    fn measure(&mut self)
        requires
            old(self).lut@.len() == TABLE_SIZE,
        ensures
            final(self).lut@ == old(self).lut@,
            final(self).wf(),
    {
        let mut total: u128 = 0;
        let mut i: usize = 0;
        while i < TABLE_SIZE
            invariant
                i <= TABLE_SIZE,
                self.lut@.len() == TABLE_SIZE,
                total == sum_squares(self.lut@, i as int),
                total <= i * MAX_SQUARE,
            decreases TABLE_SIZE - i,
        {
            let c = self.lut[i] as u128;
            proof {
                assert(c * c <= MAX_SQUARE) by (nonlinear_arith)
                    requires
                        c <= u32::MAX,
                ;
            }
            total = total + c * c;
            i = i + 1;
        }
        self.norm_sq = total;
    }

    /// The model with the given counts.
    pub fn from_counts(lut: Vec<u32>) -> (r: BigramMap)
        requires
            lut@.len() == TABLE_SIZE,
        ensures
            r.wf(),
            r@ == lut@,
    {
        let mut m = BigramMap { lut, norm_sq: 0 };
        m.measure();
        m
    }

    /// All counters, in index order.
    pub fn counts(&self) -> (r: &[u32])
        ensures
            r@ == self@,
    {
        self.lut.as_slice()
    }

    /// The squared magnitude: the sum of the squares of all counters.
    pub fn norm_sq(&self) -> (r: u128)
        requires
            self.wf(),
        ensures
            r == sum_squares(self@, TABLE_SIZE as int),
            r <= TABLE_SIZE * MAX_SQUARE,
    {
        proof {
            lemma_sum_squares_bound(self@, TABLE_SIZE as int);
        }
        self.norm_sq
    }

    /// The count of the ordered pair `(one, two)`.
    pub fn count(&self, one: u8, two: u8) -> (r: u32)
        requires
            self.wf(),
        ensures
            r == self@[pair_index(one, two)],
    {
        self.lut[(one as usize) * 256 + two as usize]
    }

    /// The dot product of the two count tables, the numerator of the cosine
    /// similarity.
    pub fn dot(&self, other: &BigramMap) -> (r: u128)
        requires
            self.wf(),
            other.wf(),
        ensures
            r == dot_of(self@, other@, TABLE_SIZE as int),
            r <= TABLE_SIZE * MAX_SQUARE,
    {
        let mut total: u128 = 0;
        let mut i: usize = 0;
        while i < TABLE_SIZE
            invariant
                i <= TABLE_SIZE,
                self.wf(),
                other.wf(),
                total == dot_of(self@, other@, i as int),
                total <= i * MAX_SQUARE,
            decreases TABLE_SIZE - i,
        {
            let a = self.lut[i] as u128;
            let b = other.lut[i] as u128;
            proof {
                assert(a * b <= MAX_SQUARE) by (nonlinear_arith)
                    requires
                        a <= u32::MAX,
                        b <= u32::MAX,
                ;
            }
            total = total + a * b;
            i = i + 1;
        }
        total
    }
}

/// Bumping `p[k]` after `p.take(k)` was counted stays in range and counts `p.take(k + 1)`.
proof fn lemma_step(before: Seq<u32>, after: Seq<u32>, old_lut: Seq<u32>, p: Seq<int>, k: int)
    requires
        0 <= k < p.len(),
        0 <= p[k] < TABLE_SIZE,
        before.len() == TABLE_SIZE,
        old_lut.len() == TABLE_SIZE,
        forall|x: int| 0 <= x < TABLE_SIZE ==> old_lut[x] + occurrences(p, x) <= u32::MAX,
        forall|x: int| 0 <= x < TABLE_SIZE ==> before[x] == old_lut[x] + occurrences(p.take(k), x),
        after == before.update(p[k], (before[p[k]] + 1) as u32),
    ensures
        before[p[k]] < u32::MAX,
        after.len() == TABLE_SIZE,
        forall|x: int|
            0 <= x < TABLE_SIZE ==> after[x] == old_lut[x] + occurrences(p.take(k + 1), x),
{
    assert forall|x: int|
        occurrences(#[trigger] p.take(k + 1), x) == occurrences(p.take(k), x) + if p[k] == x {
            1int
        } else {
            0int
        } by {
        assert(p.take(k + 1).drop_last() =~= p.take(k));
    }
    lemma_occurrences_prefix(p, k + 1, p[k]);
}

proof fn lemma_sum_squares_bound(c: Seq<u32>, n: int)
    requires
        0 <= n <= c.len(),
    ensures
        sum_squares(c, n) <= n * MAX_SQUARE,
    decreases n,
{
    if n > 0 {
        lemma_sum_squares_bound(c, n - 1);
        let x = c[n - 1];
        assert(x * x <= MAX_SQUARE) by (nonlinear_arith)
            requires
                0 <= x <= u32::MAX,
        ;
    }
}

proof fn lemma_sum_squares_zero(c: Seq<u32>, n: int)
    requires
        0 <= n <= c.len(),
        forall|i: int| 0 <= i < n ==> c[i] == 0,
    ensures
        sum_squares(c, n) == 0,
    decreases n,
{
    if n > 0 {
        lemma_sum_squares_zero(c, n - 1);
    }
}

/// Counting a prefix never gives more than counting the whole.
proof fn lemma_occurrences_prefix(p: Seq<int>, k: int, x: int)
    requires
        0 <= k <= p.len(),
    ensures
        occurrences(p.take(k), x) <= occurrences(p, x),
    decreases p.len(),
{
    if k < p.len() {
        assert(p.drop_last().take(k) =~= p.take(k));
        lemma_occurrences_prefix(p.drop_last(), k, x);
    } else {
        assert(p.take(k) =~= p);
    }
}

proof fn lemma_occurrences_len(p: Seq<int>, x: int)
    ensures
        occurrences(p, x) <= p.len(),
    decreases p.len(),
{
    if p.len() > 0 {
        lemma_occurrences_len(p.drop_last(), x);
    }
}

proof fn lemma_without_spaces_len(b: Seq<u8>)
    ensures
        without_spaces(b).len() <= b.len(),
    decreases b.len(),
{
    if b.len() > 0 {
        lemma_without_spaces_len(b.drop_last());
    }
}

/// Adding `b` raises no counter by more than `b.len() + 1`.
pub proof fn lemma_occurrences_bound(b: Seq<u8>)
    ensures
        forall|x: int| #[trigger] occurrences(pair_indices(b), x) <= b.len() + 1,
{
    lemma_without_spaces_len(b);
    assert forall|x: int| #[trigger] occurrences(pair_indices(b), x) <= b.len() + 1 by {
        lemma_occurrences_len(pair_indices(b), x);
    }
}


proof fn lemma_dot_self(c: Seq<u32>, n: int)
    ensures
        dot_of(c, c, n) == sum_squares(c, n),
    decreases n,
{
    if n > 0 {
        lemma_dot_self(c, n - 1);
    }
}

proof fn lemma_sum_squares_positive(c: Seq<u32>, n: int, i: int)
    requires
        0 <= i < n <= c.len(),
        c[i] > 0,
    ensures
        sum_squares(c, n) > 0,
    decreases n,
{
    lemma_sum_squares_nonneg(c, n - 1);
    if i < n - 1 {
        lemma_sum_squares_positive(c, n - 1, i);
    }
    assert(c[n - 1] * c[n - 1] >= 0) by (nonlinear_arith);
    if i == n - 1 {
        assert(c[i] * c[i] > 0) by (nonlinear_arith)
            requires
                c[i] > 0,
        ;
    }
}

proof fn lemma_sum_squares_nonneg(c: Seq<u32>, n: int)
    ensures
        sum_squares(c, n) >= 0,
    decreases n,
{
    if n > 0 {
        lemma_sum_squares_nonneg(c, n - 1);
        assert(c[n - 1] * c[n - 1] >= 0) by (nonlinear_arith);
    }
}

proof fn lemma_dot_disjoint(a: Seq<u32>, b: Seq<u32>, n: int)
    requires
        n <= a.len(),
        n <= b.len(),
        forall|i: int| 0 <= i < n ==> a[i] == 0 || b[i] == 0,
    ensures
        dot_of(a, b, n) == 0,
    decreases n,
{
    if n > 0 {
        lemma_dot_disjoint(a, b, n - 1);
        assert(a[n - 1] * b[n - 1] == 0);
    }
}

proof fn lemma_dot_symmetric(a: Seq<u32>, b: Seq<u32>, n: int)
    ensures
        dot_of(a, b, n) == dot_of(b, a, n),
    decreases n,
{
    if n > 0 {
        lemma_dot_symmetric(a, b, n - 1);
        assert(a[n - 1] * b[n - 1] == b[n - 1] * a[n - 1]) by (nonlinear_arith);
    }
}

/// A model compared with itself has similarity one: the dot product of its
/// table with itself equals its squared norm, and that norm is positive as soon
/// as any counter is.
pub proof fn self_similarity(m: BigramMap)
    requires
        m.wf(),
    ensures
        dot_of(m@, m@, TABLE_SIZE as int) == sum_squares(m@, TABLE_SIZE as int),
        (exists|i: int| 0 <= i < TABLE_SIZE && m@[i] > 0) ==> sum_squares(m@, TABLE_SIZE as int)
            > 0,
{
    lemma_dot_self(m@, TABLE_SIZE as int);
    if exists|i: int| 0 <= i < TABLE_SIZE && m@[i] > 0 {
        let i = choose|i: int| 0 <= i < TABLE_SIZE && m@[i] > 0;
        lemma_sum_squares_positive(m@, TABLE_SIZE as int, i);
    }
}

/// Two models that share no byte pair have similarity zero: their dot
/// product is zero.
pub proof fn disjoint_similarity(a: BigramMap, b: BigramMap)
    requires
        a.wf(),
        b.wf(),
        forall|i: int| 0 <= i < TABLE_SIZE ==> a@[i] == 0 || b@[i] == 0,
    ensures
        dot_of(a@, b@, TABLE_SIZE as int) == 0,
{
    lemma_dot_disjoint(a@, b@, TABLE_SIZE as int);
}

/// Similarity does not depend on the order of the two models: the dot product
/// is symmetric (and so is the product of the norms).
pub proof fn similarity_is_symmetric(a: BigramMap, b: BigramMap)
    ensures
        dot_of(a@, b@, TABLE_SIZE as int) == dot_of(b@, a@, TABLE_SIZE as int),
{
    lemma_dot_symmetric(a@, b@, TABLE_SIZE as int);
}

} // verus!
