use vstd::prelude::*;
use vstd::string::StringSliceAdditionalSpecFns;

verus! {

/// A printable byte lies strictly between 0x1F and 0x7F.
pub open spec fn printable(b: u8) -> bool {
    0x1F < b && b < 0x7F
}

/// Every byte of `b[s..e)` is printable.
pub open spec fn all_printable(b: Seq<u8>, s: int, e: int) -> bool {
    forall|k: int| s <= k < e ==> printable(#[trigger] b[k])
}

/// `[s, e)` is a non-empty printable run that cannot be extended on either side.
pub open spec fn is_maximal_run(b: Seq<u8>, s: int, e: int) -> bool {
    &&& 0 <= s < e <= b.len()
    &&& all_printable(b, s, e)
    &&& (s == 0 || !printable(b[s - 1]))
    &&& (e == b.len() || !printable(b[e]))
}

/// `r` lists, in ascending address order, exactly the maximal printable runs of
/// `b` that are at least `t` bytes long.
pub open spec fn is_scan_of(b: Seq<u8>, t: int, r: Seq<FoundString>) -> bool {
    &&& forall|k: int|
        0 <= k < r.len() ==> is_maximal_run(b, r[k].0 as int, r[k].1 as int) && r[k].1 - r[k].0
            >= t
    &&& forall|k: int| 0 <= k < r.len() - 1 ==> r[k].1 < r[k + 1].0
    &&& forall|s: int, e: int|
        is_maximal_run(b, s, e) && e - s >= t ==> exists|k: int|
            0 <= k < r.len() && r[k].0 == s && r[k].1 == e
}

/// Spans whose starts strictly increase along the sequence.
pub open spec fn starts_increase(r: Seq<FoundString>) -> bool {
    forall|i: int, j: int| 0 <= i < j < r.len() ==> r[i].0 < r[j].0
}

proof fn lemma_scan_start_lt(b: Seq<u8>, t: int, r: Seq<FoundString>, i: int, j: int)
    requires
        is_scan_of(b, t, r),
        0 <= i < j < r.len(),
    ensures
        r[i].0 < r[j].0,
    decreases j - i,
{
    assert(r[j - 1].0 < r[j - 1].1);
    if i < j - 1 {
        lemma_scan_start_lt(b, t, r, i, j - 1);
    }
}

proof fn lemma_scan_starts_increase(b: Seq<u8>, t: int, r: Seq<FoundString>)
    requires
        is_scan_of(b, t, r),
    ensures
        starts_increase(r),
{
    assert forall|i: int, j: int| 0 <= i < j < r.len() implies r[i].0 < r[j].0 by {
        lemma_scan_start_lt(b, t, r, i, j);
    }
}

proof fn lemma_same_members(r1: Seq<FoundString>, r2: Seq<FoundString>)
    requires
        starts_increase(r1),
        starts_increase(r2),
        forall|i: int| 0 <= i < r1.len() ==> r2.contains(#[trigger] r1[i]),
        forall|j: int| 0 <= j < r2.len() ==> r1.contains(#[trigger] r2[j]),
    ensures
        r1 == r2,
    decreases r1.len() + r2.len(),
{
    if r1.len() == 0 {
        if r2.len() > 0 {
            assert(r1.contains(r2[0]));
        }
        assert(r1 =~= r2);
    } else {
        let j = choose|j: int| 0 <= j < r2.len() && r2[j] == r1[0];
        let m = choose|m: int| 0 <= m < r1.len() && r1[m] == r2[0];
        assert(j == 0);
        let t1 = r1.subrange(1, r1.len() as int);
        let t2 = r2.subrange(1, r2.len() as int);
        assert forall|i: int| 0 <= i < t1.len() implies t2.contains(#[trigger] t1[i]) by {
            assert(t1[i] == r1[i + 1]);
            let j = choose|j: int| 0 <= j < r2.len() && r2[j] == r1[i + 1];
            assert(t2[j - 1] == r2[j]);
        }
        assert forall|j: int| 0 <= j < t2.len() implies t1.contains(#[trigger] t2[j]) by {
            assert(t2[j] == r2[j + 1]);
            let i = choose|i: int| 0 <= i < r1.len() && r1[i] == r2[j + 1];
            assert(t1[i - 1] == r1[i]);
        }
        lemma_same_members(t1, t2);
        assert(r1.len() == r2.len());
        assert forall|k: int| 0 <= k < r1.len() implies r1[k] == r2[k] by {
            if k > 0 {
                assert(r1[k] == t1[k - 1]);
                assert(r2[k] == t2[k - 1]);
            }
        }
        assert(r1 =~= r2);
    }
}

/// Scanning is deterministic: two results that both list the qualifying runs
/// of the same buffer, for the same threshold, are the same sequence. Hence
/// scanning a buffer twice gives identical output.
pub proof fn scan_is_deterministic(b: Seq<u8>, t: int, r1: Seq<FoundString>, r2: Seq<FoundString>)
    requires
        is_scan_of(b, t, r1),
        is_scan_of(b, t, r2),
    ensures
        r1 == r2,
{
    lemma_scan_starts_increase(b, t, r1);
    lemma_scan_starts_increase(b, t, r2);
    assert forall|i: int| 0 <= i < r1.len() implies r2.contains(#[trigger] r1[i]) by {
        let j = choose|j: int| 0 <= j < r2.len() && r2[j].0 == r1[i].0 && r2[j].1 == r1[i].1;
    }
    assert forall|j: int| 0 <= j < r2.len() implies r1.contains(#[trigger] r2[j]) by {
        let i = choose|i: int| 0 <= i < r1.len() && r1[i].0 == r2[j].0 && r1[i].1 == r2[j].1;
    }
    lemma_same_members(r1, r2);
}

/// A span `[start, end)` of a scanned buffer.
#[derive(Debug, Clone, Copy, PartialEq, Eq, Structural)]
pub struct FoundString(pub usize, pub usize);

impl FoundString {
    pub fn start(&self) -> (r: usize)
        ensures
            r == self.0,
    {
        let FoundString(start, _) = *self;
        start
    }

    pub fn end(&self) -> (r: usize)
        ensures
            r == self.1,
    {
        let FoundString(_, end) = *self;
        end
    }

    pub fn len(&self) -> (r: usize)
        requires
            self.0 <= self.1,
        ensures
            r == self.1 - self.0,
    {
        self.end() - self.start()
    }

    /// The bytes of `arr` that the span covers.
    pub fn slice<'a>(&self, arr: &'a [u8]) -> (r: &'a [u8])
        requires
            self.0 <= self.1 <= arr@.len(),
        ensures
            r@ == arr@.subrange(self.0 as int, self.1 as int),
    {
        let FoundString(start, end) = *self;
        vstd::slice::slice_subrange(arr, start, end)
    }

    /// The text that the span covers, which is printable ASCII.
    pub fn as_str<'a>(&self, arr: &'a [u8]) -> (r: &'a str)
        requires
            self.0 <= self.1 <= arr@.len(),
            all_printable(arr@, self.0 as int, self.1 as int),
        ensures
            r.spec_bytes() == arr@.subrange(self.0 as int, self.1 as int),
    {
        let bytes = self.slice(arr);
        match ascii_str(bytes) {
            Some(s) => s,
            None => {
                proof {
                    assert forall|k: int| 0 <= k < bytes@.len() implies bytes@[k] < 128 by {
                        assert(bytes@[k] == arr@[self.0 + k]);
                    }
                    assert(false);
                }
                ""
            },
        }
    }
}

/// Relies on std::str::from_utf8: it succeeds on valid UTF-8, which every
/// sequence of bytes below 128 is, and the text it returns is those bytes.
#[verifier::external_body]
fn ascii_str<'a>(b: &'a [u8]) -> (r: Option<&'a str>)
    ensures
        (forall|k: int| 0 <= k < b@.len() ==> b@[k] < 128) ==> r.is_some(),
        r.is_some() ==> r.unwrap().spec_bytes() == b@,
{
    match std::str::from_utf8(b) {
        Ok(s) => Some(s),
        Err(_) => None,
    }
}

/// Whether `ch` is a printable ASCII byte.
pub fn is_printable(ch: u8) -> (r: bool)
    ensures
        r == printable(ch),
{
    ch > 0x1F && ch < 0x7F
}

/// Two maximal runs that end at the same place start at the same place.
proof fn lemma_same_end_same_start(b: Seq<u8>, s1: int, s2: int, e: int)
    requires
        is_maximal_run(b, s1, e),
        is_maximal_run(b, s2, e),
    ensures
        s1 == s2,
{
    if s1 < s2 {
        assert(printable(b[s2 - 1]));
    } else if s2 < s1 {
        assert(printable(b[s1 - 1]));
    }
}

/// Scans `buf` once and returns every maximal printable run of at least
/// `min_len` bytes, in ascending address order.
pub fn find_strings(buf: &[u8], min_len: usize) -> (r: Vec<FoundString>)
    ensures
        is_scan_of(buf@, min_len as int, r@),
{
    let n = buf.len();
    let mut results: Vec<FoundString> = Vec::new();
    let mut start: Option<usize> = None;
    let mut i: usize = 0;
    while i < n
        invariant
            n == buf@.len(),
            i <= n,
            match start {
                Some(s) => s < i && all_printable(buf@, s as int, i as int) && (s == 0 || !printable(
                    buf@[s - 1],
                )) && forall|k: int| 0 <= k < results@.len() ==> results@[k].1 < s,
                None => (i == 0 || !printable(buf@[i - 1])) && forall|k: int|
                    0 <= k < results@.len() ==> results@[k].1 < i,
            },
            forall|k: int|
                0 <= k < results@.len() ==> is_maximal_run(
                    buf@,
                    results@[k].0 as int,
                    results@[k].1 as int,
                ) && results@[k].1 - results@[k].0 >= min_len,
            forall|k: int| 0 <= k < results@.len() - 1 ==> results@[k].1 < results@[k + 1].0,
            forall|s: int, e: int|
                is_maximal_run(buf@, s, e) && e - s >= min_len && e < i ==> exists|k: int|
                    0 <= k < results@.len() && results@[k].0 == s && results@[k].1 == e,
        decreases n - i,
    {
        let ch = buf[i];
        if is_printable(ch) {
            if start.is_none() {
                start = Some(i);
            }
        } else {
            if let Some(starti) = start {
                if i - starti >= min_len {
                    let ghost old_results = results@;
                    results.push(FoundString(starti, i));
                    assert forall|s: int, e: int|
                        is_maximal_run(buf@, s, e) && e - s >= min_len && e < i
                            + 1 implies exists|k: int|
                        0 <= k < results@.len() && results@[k].0 == s && results@[k].1 == e by {
                        if e == i {
                            lemma_same_end_same_start(buf@, s, starti as int, e);
                            assert(results@[old_results.len() as int] == FoundString(starti, i));
                        } else {
                            let k = choose|k: int|
                                0 <= k < old_results.len() && old_results[k].0 == s
                                    && old_results[k].1 == e;
                            assert(results@[k] == old_results[k]);
                        }
                    }
                } else {
                    assert forall|s: int, e: int|
                        is_maximal_run(buf@, s, e) && e - s >= min_len && e < i
                            + 1 implies exists|k: int|
                        0 <= k < results@.len() && results@[k].0 == s && results@[k].1 == e by {
                        if e == i {
                            lemma_same_end_same_start(buf@, s, starti as int, e);
                        }
                    }
                }
            } else {
                assert forall|s: int, e: int|
                    is_maximal_run(buf@, s, e) && e - s >= min_len && e < i
                        + 1 implies exists|k: int|
                    0 <= k < results@.len() && results@[k].0 == s && results@[k].1 == e by {
                    if e == i {
                        assert(printable(buf@[e - 1]));
                    }
                }
            }
            start = None;
        }
        i = i + 1;
    }
    // A run that reaches the end of the buffer is closed here, once.
    if let Some(starti) = start {
        if n - starti >= min_len {
            let ghost old_results = results@;
            results.push(FoundString(starti, n));
            assert forall|s: int, e: int|
                is_maximal_run(buf@, s, e) && e - s >= min_len implies exists|k: int|
                0 <= k < results@.len() && results@[k].0 == s && results@[k].1 == e by {
                if e == n {
                    lemma_same_end_same_start(buf@, s, starti as int, e);
                    assert(results@[old_results.len() as int] == FoundString(starti, n));
                } else {
                    let k = choose|k: int|
                        0 <= k < old_results.len() && old_results[k].0 == s && old_results[k].1
                            == e;
                    assert(results@[k] == old_results[k]);
                }
            }
        } else {
            assert forall|s: int, e: int|
                is_maximal_run(buf@, s, e) && e - s >= min_len implies exists|k: int|
                0 <= k < results@.len() && results@[k].0 == s && results@[k].1 == e by {
                if e == n {
                    lemma_same_end_same_start(buf@, s, starti as int, e);
                }
            }
        }
    } else {
        assert forall|s: int, e: int|
            is_maximal_run(buf@, s, e) && e - s >= min_len implies exists|k: int|
            0 <= k < results@.len() && results@[k].0 == s && results@[k].1 == e by {
            if e == n && n > 0 {
                assert(printable(buf@[e - 1]));
            }
        }
    }
    results
}

} // verus!
