use vstd::prelude::*;

verus! {

/// Byte offset at which line `n` starts, for a log whose lines have the
/// byte lengths `lens`: the sum of the lengths of the lines before it.
pub open spec fn line_start(lens: Seq<u64>, n: int) -> int
    decreases n,
{
    if n <= 0 || lens.len() == 0 {
        0
    } else if n > lens.len() {
        line_start(lens, lens.len() as int)
    } else {
        line_start(lens, n - 1) + lens[n - 1]
    }
}

/// Line starts never decrease.
pub proof fn lemma_line_start_monotonic(lens: Seq<u64>, a: int, b: int)
    requires
        0 <= a <= b <= lens.len(),
    ensures
        line_start(lens, a) <= line_start(lens, b),
    decreases b - a,
{
    if a < b {
        lemma_line_start_monotonic(lens, a, b - 1);
    }
}

/// With no empty line, a later line starts strictly later.
pub proof fn lemma_line_start_strict(lens: Seq<u64>, a: int, b: int)
    requires
        0 <= a < b <= lens.len(),
        forall|j: int| 0 <= j < lens.len() ==> #[trigger] lens[j] > 0,
    ensures
        line_start(lens, a) < line_start(lens, b),
    decreases b - a,
{
    if a + 1 < b {
        lemma_line_start_strict(lens, a, b - 1);
    } else {
        assert(lens[b - 1] > 0);
    }
}

/// Appending a line leaves the starts of the earlier lines as they were.
proof fn lemma_line_start_push(lens: Seq<u64>, len: u64, n: int)
    requires
        0 <= n <= lens.len(),
    ensures
        line_start(lens.push(len), n) == line_start(lens, n),
    decreases n,
{
    if n > 0 {
        lemma_line_start_push(lens, len, n - 1);
    }
}

/// The starts of the first `n` lines depend on those lines alone.
proof fn lemma_line_start_prefix(lens: Seq<u64>, n: int)
    requires
        0 <= n <= lens.len(),
    ensures
        line_start(lens.subrange(0, n), n) == line_start(lens, n),
    decreases n,
{
    if n > 0 {
        lemma_line_start_prefix(lens, n - 1);
        let a = lens.subrange(0, n);
        assert(a.subrange(0, n - 1) =~= lens.subrange(0, n - 1));
        lemma_line_start_prefix(a, n - 1);
    }
}

/// A sparse map from line numbers to the byte offsets where those lines
/// start, holding one sample every `granularity` lines.
#[derive(Clone)]
pub struct LinesIndex {
    granularity: u64,
    line_count: u64,
    end_offset: u64,
    until_next: u64,
    samples: Vec<u64>,
    lens: Ghost<Seq<u64>>,
}

impl LinesIndex {
    /// Byte lengths of the lines recorded so far, in order.
    pub closed spec fn lengths(&self) -> Seq<u64> {
        self.lens@
    }

    /// Number of lines between two samples.
    pub closed spec fn spec_granularity(&self) -> nat {
        self.granularity as nat
    }

    /// Number of samples held: the lines `0, G, 2G, ...` up to the line count.
    pub closed spec fn sample_count(&self) -> nat {
        self.samples@.len()
    }

    /// The line number of sample `i`.
    pub open spec fn sample_line(&self, i: int) -> int {
        i * self.spec_granularity()
    }

    /// The offset recorded for sample `i`.
    pub closed spec fn sample_offset(&self, i: int) -> int {
        self.samples@[i] as int
    }

    /// Line `l` is sampled, and the index holds `o` as its start.
    pub open spec fn is_sample(&self, l: int, o: int) -> bool {
        exists|i: int| 0 <= i < self.sample_count() && l == self.sample_line(i) && o == self.sample_offset(i)
    }

    pub closed spec fn wf(&self) -> bool {
        &&& self.granularity > 0
        &&& self.line_count as int == self.lens@.len()
        &&& forall|j: int| 0 <= j < self.lens@.len() ==> #[trigger] self.lens@[j] > 0
        &&& self.end_offset as int == line_start(self.lens@, self.lens@.len() as int)
        &&& 1 <= self.until_next <= self.granularity
        &&& self.samples@.len() >= 1
        &&& self.samples@.len() * self.granularity == self.line_count + self.until_next
        &&& forall|i: int|
            0 <= i < self.samples@.len() ==> #[trigger] self.samples@[i] as int == line_start(
                self.lens@,
                i * self.granularity,
            )
    }

    /// What the index promises of its samples.
    pub proof fn lemma_samples(&self)
        requires
            self.wf(),
        ensures
            self.spec_granularity() > 0,
            self.sample_count() >= 1,
            (self.sample_count() - 1) * self.spec_granularity() <= self.lengths().len(),
            self.lengths().len() < self.sample_count() * self.spec_granularity(),
            forall|i: int|
                0 <= i < self.sample_count() ==> #[trigger] self.sample_offset(i) == line_start(
                    self.lengths(),
                    self.sample_line(i),
                ),
    {
        let s = self.samples@.len() as int;
        let g = self.granularity as int;
        assert((s - 1) * g == s * g - g) by (nonlinear_arith);
    }

    /// No recorded line is empty.
    pub proof fn lemma_lengths_positive(&self)
        requires
            self.wf(),
        ensures
            forall|j: int| 0 <= j < self.lengths().len() ==> #[trigger] self.lengths()[j] > 0,
    {
    }

    /// An empty index that samples every `granularity` lines.
    pub fn new(granularity: u64) -> (r: LinesIndex)
        requires
            granularity > 0,
        ensures
            r.wf(),
            r.lengths() == Seq::<u64>::empty(),
            r.spec_granularity() == granularity,
    {
        LinesIndex {
            granularity,
            line_count: 0,
            end_offset: 0,
            until_next: granularity,
            samples: vec![0],
            lens: Ghost(Seq::empty()),
        }
    }

    /// An index of a log whose lines have the byte lengths `lens`, sampled
    /// every `granularity` lines; `None` when a line is empty or the log
    /// would be longer than a `u64` can count.
    pub fn from_lengths(granularity: u64, lens: &Vec<u64>) -> (r: Option<LinesIndex>)
        requires
            granularity > 0,
        ensures
            r is Some <==> (forall|j: int| 0 <= j < lens@.len() ==> #[trigger] lens@[j] > 0)
                && line_start(lens@, lens@.len() as int) <= u64::MAX,
            r is Some ==> r->0.wf() && r->0.lengths() == lens@ && r->0.spec_granularity()
                == granularity,
    {
        let mut index = LinesIndex::new(granularity);
        let mut i: usize = 0;
        while i < lens.len()
            invariant
                0 <= i <= lens@.len(),
                index.wf(),
                index.spec_granularity() == granularity,
                index.lengths() == lens@.subrange(0, i as int),
                forall|j: int| 0 <= j < i ==> #[trigger] lens@[j] > 0,
            decreases lens@.len() - i,
        {
            let ghost prefix = lens@.subrange(0, i as int);
            assert(lens@.subrange(0, i + 1) =~= prefix.push(lens@[i as int]));
            proof {
                lemma_line_start_prefix(lens@, i + 1);
            }
            if !index.insert(i as u64, lens[i]) {
                proof {
                    lemma_line_start_prefix(lens@, i as int);
                    assert(lens@[i as int] == 0 || line_start(lens@, i + 1) > u64::MAX);
                    lemma_line_start_monotonic(lens@, i + 1, lens@.len() as int);
                }
                return None;
            }
            i = i + 1;
        }
        assert(lens@.subrange(0, i as int) =~= lens@);
        Some(index)
    }

    /// Number of lines recorded.
    pub fn line_count(&self) -> (r: u64)
        requires
            self.wf(),
        ensures
            r == self.lengths().len(),
    {
        self.line_count
    }

    /// Byte offset just past the last line recorded.
    pub fn end_offset(&self) -> (r: u64)
        requires
            self.wf(),
        ensures
            r == line_start(self.lengths(), self.lengths().len() as int),
    {
        self.end_offset
    }

    /// Records that the line numbered `line`, of `bytes_len` bytes, was
    /// appended. Lines are numbered from 0 and recorded in order, and each
    /// holds at least its terminator: a line other than the next one, an
    /// empty one, or one whose end would not fit in a `u64`, is refused and
    /// leaves the index as it was.
    pub fn insert(&mut self, line: u64, bytes_len: u64) -> (accepted: bool)
        requires
            old(self).wf(),
        ensures
            final(self).wf(),
            final(self).spec_granularity() == old(self).spec_granularity(),
            accepted == (line == old(self).lengths().len() && line < u64::MAX && bytes_len > 0
                && line_start(
                old(self).lengths(),
                old(self).lengths().len() as int,
            ) + bytes_len <= u64::MAX),
            accepted ==> final(self).lengths() == old(self).lengths().push(bytes_len),
            !accepted ==> final(self).lengths() == old(self).lengths(),
    {
        if line != self.line_count || line == u64::MAX || bytes_len == 0 || self.end_offset
            > u64::MAX - bytes_len {
            return false;
        }
        let ghost old_lens = self.lens@;
        let ghost s = self.samples@.len() as int;
        let ghost g = self.granularity as int;
        proof {
            lemma_line_start_push(old_lens, bytes_len, old_lens.len() as int);
            assert(line_start(old_lens.push(bytes_len), (old_lens.len() + 1) as int) == line_start(
                old_lens,
                old_lens.len() as int,
            ) + bytes_len);
            assert((s - 1) * g == s * g - g) by (nonlinear_arith);
        }
        self.line_count = self.line_count + 1;
        self.end_offset = self.end_offset + bytes_len;
        self.lens = Ghost(old_lens.push(bytes_len));
        if self.until_next == 1 {
            self.samples.push(self.end_offset);
            self.until_next = self.granularity;
            proof {
                assert((s + 1) * g == s * g + g) by (nonlinear_arith);
            }
        } else {
            self.until_next = self.until_next - 1;
        }
        proof {
            assert forall|i: int| 0 <= i < self.samples@.len() implies #[trigger] self.samples@[i]
                as int == line_start(self.lens@, i * g) by {
                if i < s {
                    assert(self.samples@[i] == old(self).samples@[i]);
                    assert(i * g <= (s - 1) * g) by (nonlinear_arith)
                        requires
                            i <= s - 1,
                            g > 0,
                    ;
                    lemma_line_start_push(old_lens, bytes_len, i * g);
                }
            }
        }
        true
    }

    /// The sample nearest to `line` from below: the greatest sampled line
    /// that is not past `line`, with the offset at which it starts.
    pub fn nearest_for_line(&self, line: u64) -> (r: (u64, u64))
        requires
            self.wf(),
        ensures
            self.is_sample(r.0 as int, r.1 as int),
            r.0 <= line,
            forall|i: int|
                0 <= i < self.sample_count() && self.sample_line(i) <= line ==> self.sample_line(i)
                    <= r.0,
            r.1 == line_start(self.lengths(), r.0 as int),
    {
        proof {
            self.lemma_samples();
        }
        let g = self.granularity;
        let last = self.samples.len() - 1;
        let q = line / g;
        let i: usize = if q < last as u64 {
            q as usize
        } else {
            last
        };
        proof {
            let gi = g as int;
            vstd::arithmetic::div_mod::lemma_fundamental_div_mod(line as int, gi);
            assert(0 <= line % g < g);
            assert(q * gi <= line);
            assert((last as int) * gi <= self.line_count);
            if i == last && (i as int) <= q {
                assert((i as int) * gi <= q * gi) by (nonlinear_arith)
                    requires
                        i <= q,
                        gi > 0,
                ;
            }
            assert((i as int) * gi <= line) by (nonlinear_arith)
                requires
                    i <= q || i * gi <= line,
                    q * gi <= line,
                    gi > 0,
            ;
            assert forall|j: int|
                0 <= j < self.sample_count() && self.sample_line(j) <= line implies self.sample_line(
                j,
            ) <= (i as int) * gi by {
                if j > i {
                    // then i == q and j >= q + 1, so j * g > line
                    assert(j * gi >= (q + 1) * gi) by (nonlinear_arith)
                        requires
                            j >= q + 1,
                            gi > 0,
                    ;
                    assert((q + 1) * gi == q * gi + gi) by (nonlinear_arith);
                }
                assert(j * gi <= (i as int) * gi) by (nonlinear_arith)
                    requires
                        j <= i,
                        gi > 0,
                ;
            }
        }
        let r = ((i as u64) * g, self.samples[i]);
        assert(r.0 == self.sample_line(i as int) && r.1 == self.sample_offset(i as int));
        r
    }

    /// The sample nearest to `offset` from below: the last sample whose
    /// line starts at or before `offset`, as a line number and its offset.
    pub fn nearest_for_offset(&self, offset: u64) -> (r: (u64, u64))
        requires
            self.wf(),
        ensures
            self.is_sample(r.0 as int, r.1 as int),
            r.1 <= offset,
            r.1 == line_start(self.lengths(), r.0 as int),
            forall|l: int, o: int| self.is_sample(l, o) && r.0 < l ==> offset < o,
    {
        proof {
            self.lemma_samples();
        }
        let g = self.granularity;
        let mut i: usize = 0;
        while i < self.samples.len() - 1 && self.samples[i + 1] <= offset
            invariant
                self.wf(),
                0 <= i < self.samples@.len(),
                self.samples@[i as int] <= offset,
            decreases self.samples@.len() - i,
        {
            i = i + 1;
        }
        proof {
            let gi = g as int;
            let n = self.samples@.len() as int;
            assert((i as int) * gi <= (n - 1) * gi) by (nonlinear_arith)
                requires
                    i <= n - 1,
                    gi > 0,
            ;
            assert((n - 1) * gi == n * gi - gi) by (nonlinear_arith);
            assert forall|l: int, o: int| self.is_sample(l, o) && (i as int) * gi < l implies offset
                < o by {
                let j = choose|j: int|
                    0 <= j < self.sample_count() && l == self.sample_line(j) && o
                        == self.sample_offset(j);
                if j <= i {
                    assert(j * gi <= (i as int) * gi) by (nonlinear_arith)
                        requires
                            j <= i,
                            gi > 0,
                    ;
                }
                assert(j >= i + 1);
                assert(j * gi <= (n - 1) * gi) by (nonlinear_arith)
                    requires
                        j <= n - 1,
                        gi > 0,
                ;
                assert((i as int + 1) * gi <= j * gi) by (nonlinear_arith)
                    requires
                        i + 1 <= j,
                        gi > 0,
                ;
                lemma_line_start_monotonic(self.lens@, (i as int + 1) * gi, j * gi);
                assert(self.samples@[i as int + 1] as int == line_start(self.lens@, (i as int + 1) * gi));
            }
        }
        let r = ((i as u64) * g, self.samples[i]);
        assert(r.0 == self.sample_line(i as int) && r.1 == self.sample_offset(i as int));
        r
    }
}

/// A lookup never overshoots: any sample at or before a recorded line
/// starts at or before that line.
pub proof fn lemma_lookup_never_overshoots(index: &LinesIndex, sample_line: int, sample_offset: int, line: int)
    requires
        index.wf(),
        index.is_sample(sample_line, sample_offset),
        sample_line <= line <= index.lengths().len(),
    ensures
        sample_offset <= line_start(index.lengths(), line),
{
    index.lemma_samples();
    let i = choose|i: int|
        0 <= i < index.sample_count() && sample_line == index.sample_line(i) && sample_offset
            == index.sample_offset(i);
    assert(i * index.spec_granularity() >= 0) by (nonlinear_arith)
        requires
            i >= 0,
    ;
    lemma_line_start_monotonic(index.lengths(), sample_line, line);
}

/// The index's offsets strictly increase with its line numbers.
pub proof fn lemma_offsets_increase(index: &LinesIndex, l1: int, o1: int, l2: int, o2: int)
    requires
        index.wf(),
        index.is_sample(l1, o1),
        index.is_sample(l2, o2),
        l1 < l2,
    ensures
        o1 < o2,
{
    index.lemma_samples();
    let g = index.spec_granularity() as int;
    let i = choose|i: int|
        0 <= i < index.sample_count() && l1 == index.sample_line(i) && o1 == index.sample_offset(i);
    let j = choose|j: int|
        0 <= j < index.sample_count() && l2 == index.sample_line(j) && o2 == index.sample_offset(j);
    let n = index.sample_count() as int;
    assert(i * g >= 0) by (nonlinear_arith)
        requires
            i >= 0,
            g > 0,
    ;
    assert(j * g <= (n - 1) * g) by (nonlinear_arith)
        requires
            j <= n - 1,
            g > 0,
    ;
    assert((n - 1) * g == n * g - g) by (nonlinear_arith);
    index.lemma_lengths_positive();
    lemma_line_start_strict(index.lengths(), l1, l2);
}

} // verus!
