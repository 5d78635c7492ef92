use vstd::prelude::*;

verus! {

/// The sum of a sequence of counts.
pub open spec fn total(s: Seq<usize>) -> nat
    decreases s.len(),
{
    if s.len() == 0 { 0 } else { total(s.drop_last()) + s.last() as nat }
}

/// `n` spread greedily over bins of capacities `m`: each bin in turn takes as
/// much as it can hold of what is left.
pub open spec fn fill(m: Seq<usize>, n: nat) -> Seq<usize>
    decreases m.len(),
{
    if m.len() == 0 {
        Seq::empty()
    } else {
        let c = if m[0] <= n { m[0] } else { n as usize };
        seq![c] + fill(m.drop_first(), (n - c) as nat)
    }
}

/// Every count is within the capacity of its bin.
pub open spec fn within(v: Seq<usize>, m: Seq<usize>) -> bool {
    &&& v.len() == m.len()
    &&& forall|i: int| 0 <= i < v.len() ==> #[trigger] v[i] <= m[i]
}

/// The first index from `i` on whose count is not zero, or the length.
pub open spec fn first_nonzero(v: Seq<usize>, i: int) -> int
    decreases v.len() - i,
{
    if i >= v.len() { v.len() as int } else if v[i] > 0 { i } else { first_nonzero(v, i + 1) }
}

/// The first index from `i` on whose bin is not full, or the length.
pub open spec fn first_nonfull(v: Seq<usize>, m: Seq<usize>, i: int) -> int
    decreases v.len() - i,
{
    if i >= v.len() { v.len() as int } else if v[i] < m[i] { i } else { first_nonfull(v, m, i + 1) }
}

/// The distribution after `v`: one unit leaves the first non-empty bin and
/// goes to the first bin after it that is not full; what is before that bin
/// is then spread greedily again. None after the last distribution.
pub open spec fn comb_next(v: Seq<usize>, m: Seq<usize>) -> Option<Seq<usize>> {
    let k = first_nonzero(v, 0);
    if k >= v.len() - 1 {
        None
    } else {
        let p = first_nonfull(v, m, k + 1);
        if p >= v.len() {
            None
        } else {
            Some(fill(m.subrange(0, p), (total(v.subrange(0, p)) - 1) as nat) + seq![(v[p] + 1) as usize] + v.subrange(p + 1, v.len() as int))
        }
    }
}

proof fn lemma_total_append(a: Seq<usize>, b: Seq<usize>)
    ensures
        total(a + b) == total(a) + total(b),
    decreases b.len(),
{
    if b.len() > 0 {
        lemma_total_append(a, b.drop_last());
        assert((a + b).drop_last() =~= a + b.drop_last());
    } else {
        assert(a + b =~= a);
    }
}

proof fn lemma_total_first(s: Seq<usize>)
    requires
        s.len() > 0,
    ensures
        total(s) == s[0] + total(s.drop_first()),
    decreases s.len(),
{
    if s.len() > 1 {
        lemma_total_first(s.drop_last());
        assert(s.drop_first().drop_last() =~= s.drop_last().drop_first());
        assert(s.drop_first().last() == s.last());
    } else {
        assert(s.drop_first() =~= Seq::<usize>::empty());
        assert(s.drop_last() =~= Seq::<usize>::empty());
    }
}

proof fn lemma_fill_props(m: Seq<usize>, n: nat)
    requires
        n <= total(m),
    ensures
        within(fill(m, n), m),
        total(fill(m, n)) == n,
    decreases m.len(),
{
    if m.len() > 0 {
        let c = if m[0] <= n { m[0] } else { n as usize };
        lemma_total_first(m);
        lemma_fill_props(m.drop_first(), (n - c) as nat);
        let f = fill(m, n);
        let rest = fill(m.drop_first(), (n - c) as nat);
        assert(f == seq![c] + rest);
        lemma_total_first(f);
        assert(f.drop_first() =~= rest);
        assert forall|i: int| 0 <= i < f.len() implies #[trigger] f[i] <= m[i] by {
            if i > 0 {
                assert(f[i] == rest[i - 1]);
                assert(rest[i - 1] <= m.drop_first()[i - 1]);
            }
        }
    } else {
        assert(n == 0);
    }
}

pub proof fn lemma_total_within(v: Seq<usize>, m: Seq<usize>)
    requires
        within(v, m),
    ensures
        total(v) <= total(m),
    decreases v.len(),
{
    if v.len() > 0 {
        lemma_total_within(v.drop_last(), m.drop_last());
    }
}

proof fn lemma_prefix_zero(v: Seq<usize>, i: int, k: int)
    requires
        0 <= i <= k <= v.len(),
        k == first_nonzero(v, i),
    ensures
        forall|q: int| i <= q < k ==> v[q] == 0,
    decreases v.len() - i,
{
    if i < v.len() && v[i] == 0 {
        lemma_first_nonzero_bounds(v, i + 1);
        lemma_prefix_zero(v, i + 1, k);
    }
}

proof fn lemma_first_nonzero_bounds(v: Seq<usize>, i: int)
    requires
        0 <= i <= v.len(),
    ensures
        i <= first_nonzero(v, i) <= v.len(),
        first_nonzero(v, i) < v.len() ==> v[first_nonzero(v, i)] > 0,
    decreases v.len() - i,
{
    if i < v.len() && v[i] == 0 {
        lemma_first_nonzero_bounds(v, i + 1);
    }
}

proof fn lemma_first_nonfull_bounds(v: Seq<usize>, m: Seq<usize>, i: int)
    requires
        0 <= i <= v.len(),
    ensures
        i <= first_nonfull(v, m, i) <= v.len(),
        first_nonfull(v, m, i) < v.len() ==> v[first_nonfull(v, m, i)] < m[first_nonfull(v, m, i)],
    decreases v.len() - i,
{
    if i < v.len() && v[i] >= m[i] {
        lemma_first_nonfull_bounds(v, m, i + 1);
    }
}

/// The next distribution is again a distribution of the same total within
/// the capacities.
pub proof fn lemma_comb_next_valid(v: Seq<usize>, m: Seq<usize>)
    requires
        within(v, m),
        comb_next(v, m) is Some,
    ensures
        within(comb_next(v, m)->Some_0, m),
        total(comb_next(v, m)->Some_0) == total(v),
{
    let k = first_nonzero(v, 0);
    lemma_first_nonzero_bounds(v, 0);
    let p = first_nonfull(v, m, k + 1);
    lemma_first_nonfull_bounds(v, m, k + 1);
    let n = v.len() as int;
    let a = v.subrange(0, p);
    let ma = m.subrange(0, p);
    assert(within(a, ma));
    lemma_total_within(a, ma);
    assert(a[k] > 0);
    lemma_total_pos(a, k);
    let res = (total(a) - 1) as nat;
    lemma_fill_props(ma, res);
    let f = fill(ma, res);
    let r = f + seq![(v[p] + 1) as usize] + v.subrange(p + 1, n);
    assert forall|i: int| 0 <= i < r.len() implies #[trigger] r[i] <= m[i] by {
        if i < p {
            assert(r[i] == f[i]);
            assert(f[i] <= ma[i]);
        } else if i == p {
        } else {
            assert(r[i] == v[i]);
        }
    }
    assert(v =~= a + seq![v[p]] + v.subrange(p + 1, n));
    lemma_total_append(a + seq![v[p]], v.subrange(p + 1, n));
    lemma_total_append(a, seq![v[p]]);
    lemma_total_append(f + seq![(v[p] + 1) as usize], v.subrange(p + 1, n));
    lemma_total_append(f, seq![(v[p] + 1) as usize]);
    assert(seq![v[p]].drop_last() =~= Seq::<usize>::empty());
    assert(seq![(v[p] + 1) as usize].drop_last() =~= Seq::<usize>::empty());
}

proof fn lemma_total_pos(a: Seq<usize>, k: int)
    requires
        0 <= k < a.len(),
        a[k] > 0,
    ensures
        total(a) >= 1,
    decreases a.len(),
{
    if k < a.len() - 1 {
        lemma_total_pos(a.drop_last(), k);
    }
}

/// Counts spread greedily over bins of capacities `m`.
fn fill_vec(m: &Vec<usize>, n: usize) -> (r: Vec<usize>)
    requires
        n <= total(m@),
    ensures
        r@ == fill(m@, n as nat),
{
    let mut r: Vec<usize> = Vec::new();
    let mut res = n;
    let mut i: usize = 0;
    assert(m@.subrange(0, m@.len() as int) =~= m@);
    assert(r@ + fill(m@, n as nat) =~= fill(m@, n as nat));
    while i < m.len()
        invariant
            i <= m@.len(),
            res <= n,
            fill(m@, n as nat) == r@ + fill(m@.subrange(i as int, m@.len() as int), res as nat),
        decreases m@.len() - i,
    {
        let cur = if m[i] <= res { m[i] } else { res };
        proof {
            let rest = m@.subrange(i as int, m@.len() as int);
            assert(rest[0] == m@[i as int]);
            assert(rest.drop_first() =~= m@.subrange(i + 1, m@.len() as int));
        }
        r.push(cur);
        res = res - cur;
        i += 1;
    }
    proof {
        assert(m@.subrange(m@.len() as int, m@.len() as int) =~= Seq::<usize>::empty());
        assert(r@ + Seq::<usize>::empty() =~= r@);
    }
    r
}

/// Enumerates the ways to spread `n` units over bins of given capacities.
#[derive(Debug, Clone, Ord, PartialOrd, Eq, PartialEq, Hash)]
pub struct Comb {
    max: Vec<usize>,
    state: Vec<usize>,
    first: bool,
    end: bool,
}

impl Comb {
    /// The capacities of the bins.
    pub closed spec fn max_view(&self) -> Seq<usize> {
        self.max@
    }

    /// The current distribution.
    pub closed spec fn state_view(&self) -> Seq<usize> {
        self.state@
    }

    /// No distribution has been handed out yet.
    pub closed spec fn is_first(&self) -> bool {
        self.first
    }

    /// All distributions have been handed out.
    pub closed spec fn is_end(&self) -> bool {
        self.end
    }

    /// The current distribution is within the capacities, and its total
    /// fits in a machine word.
    pub open spec fn wf(&self) -> bool {
        within(self.state_view(), self.max_view()) && total(self.state_view()) <= usize::MAX
    }

    /// Starts at the greedy distribution of `n` units over bins of
    /// capacities `max`.
    pub fn new(n: usize, max: Vec<usize>) -> (r: Comb)
        requires
            n <= total(max@),
        ensures
            r.wf(),
            r.max_view() == max@,
            r.state_view() == fill(max@, n as nat),
            total(r.state_view()) == n,
            r.is_first(),
            !r.is_end(),
    {
        let state = fill_vec(&max, n);
        proof {
            lemma_fill_props(max@, n as nat);
        }
        Comb { max, state, first: true, end: false }
    }

    /// Starts again, for `n` units over bins of capacities `max`.
    pub fn transform(&mut self, n: usize, max: &Vec<usize>)
        requires
            max@.len() == old(self).max_view().len(),
            n <= total(max@),
        ensures
            final(self).wf(),
            final(self).max_view() == max@,
            final(self).state_view() == fill(max@, n as nat),
            total(final(self).state_view()) == n,
            final(self).is_first(),
            !final(self).is_end(),
    {
        let mut i: usize = 0;
        while i < max.len()
            invariant
                i <= max@.len(),
                self.max@.len() == max@.len(),
                forall|q: int| 0 <= q < i ==> self.max@[q] == max@[q],
            decreases max@.len() - i,
        {
            self.max.set(i, max[i]);
            i += 1;
        }
        assert(self.max@ =~= max@);
        self.state = fill_vec(&self.max, n);
        proof {
            lemma_fill_props(max@, n as nat);
        }
        self.first = true;
        self.end = false;
    }

    /// Moves to the next distribution: the first call hands out the starting
    /// one.
    pub fn advance(&mut self)
        requires
            old(self).wf(),
        ensures
            final(self).wf(),
            final(self).max_view() == old(self).max_view(),
            !final(self).is_first(),
            total(final(self).state_view()) == total(old(self).state_view()),
            old(self).is_first() ==> final(self).state_view() == old(self).state_view() && !final(self).is_end(),
            !old(self).is_first() ==> (final(self).is_end() <==> comb_next(old(self).state_view(), old(self).max_view()) is None),
            !old(self).is_first() && !final(self).is_end() ==> final(self).state_view() == comb_next(old(self).state_view(), old(self).max_view())->Some_0,
            final(self).is_end() ==> final(self).state_view() == old(self).state_view(),
    {
        if self.first {
            self.first = false;
            self.end = false;
            return;
        }
        let ghost v = self.state@;
        let ghost m = self.max@;
        let len = self.state.len();
        let mut k: usize = 0;
        while k < len && self.state[k] == 0
            invariant
                k <= len,
                len == v.len(),
                self.state@ == v,
                self.max@ == m,
                m.len() == len,
                first_nonzero(v, 0) == first_nonzero(v, k as int),
            decreases len - k,
        {
            k += 1;
        }
        proof {
            lemma_first_nonzero_bounds(v, 0);
        }
        if len == 0 || k >= len - 1 {
            self.end = true;
            return;
        }
        let mut p: usize = k + 1;
        while p < len && self.state[p] >= self.max[p]
            invariant
                k + 1 <= p <= len,
                len == v.len(),
                m.len() == len,
                self.state@ == v,
                self.max@ == m,
                first_nonfull(v, m, k + 1) == first_nonfull(v, m, p as int),
            decreases len - p,
        {
            p += 1;
        }
        if p >= len {
            self.end = true;
            return;
        }
        proof {
            lemma_comb_next_valid(v, m);
            lemma_first_nonfull_bounds(v, m, k + 1);
            let a = v.subrange(0, p as int);
            assert(within(a, m.subrange(0, p as int)));
            lemma_total_within(a, m.subrange(0, p as int));
            lemma_total_pos(a, k as int);
            lemma_total_prefix_le(v, p as int, len as int);
            assert(v.subrange(0, len as int) =~= v);
        }
        let mut sum: usize = 0;
        let mut i: usize = 0;
        while i < p
            invariant
                i <= p < len,
                len == v.len(),
                self.state@ == v,
                self.max@ == m,
                within(v, m),
                sum == total(v.subrange(0, i as int)),
                total(v.subrange(0, p as int)) <= total(m.subrange(0, p as int)),
                total(v.subrange(0, p as int)) <= total(v),
                total(v) <= usize::MAX,
            decreases p - i,
        {
            proof {
                assert(v.subrange(0, i + 1).drop_last() =~= v.subrange(0, i as int));
                lemma_total_prefix_le(v, i + 1, p as int);
            }
            sum = sum + self.state[i];
            i += 1;
        }
        let prefix_max = slice_prefix(&self.max, p);
        let refill = fill_vec(&prefix_max, sum - 1);
        let mut newstate: Vec<usize> = refill;
        newstate.push(self.state[p] + 1);
        let mut q: usize = p + 1;
        while q < len
            invariant
                p + 1 <= q <= len,
                len == v.len(),
                self.state@ == v,
                newstate@ == fill(m.subrange(0, p as int), (total(v.subrange(0, p as int)) - 1) as nat) + seq![(v[p as int] + 1) as usize] + v.subrange(p + 1, q as int),
            decreases len - q,
        {
            newstate.push(self.state[q]);
            q += 1;
            assert(v.subrange(p + 1, q as int) =~= v.subrange(p + 1, q - 1).push(v[q - 1]));
        }
        self.state = newstate;
        self.end = false;
    }

    /// The current distribution, unless all have been handed out.
    pub fn get(&self) -> (r: Option<&Vec<usize>>)
        ensures
            r is Some <==> !self.is_end(),
            r is Some ==> r->Some_0@ == self.state_view(),
    {
        if self.end { None } else { Some(&self.state) }
    }

    /// The counts of the current distribution.
    pub fn values(&self) -> (r: &Vec<usize>)
        ensures
            r@ == self.state_view(),
    {
        &self.state
    }

    /// Moves to the next distribution and hands it out.
    pub fn next(&mut self) -> (r: Option<&Vec<usize>>)
        requires
            old(self).wf(),
        ensures
            final(self).wf(),
            final(self).max_view() == old(self).max_view(),
            total(final(self).state_view()) == total(old(self).state_view()),
            !final(self).is_first(),
            old(self).is_first() ==> final(self).state_view() == old(self).state_view() && !final(self).is_end(),
            !old(self).is_first() ==> (final(self).is_end() <==> comb_next(old(self).state_view(), old(self).max_view()) is None),
            !old(self).is_first() && !final(self).is_end() ==> final(self).state_view() == comb_next(old(self).state_view(), old(self).max_view())->Some_0,
            final(self).is_end() ==> final(self).state_view() == old(self).state_view(),
            r is Some <==> !final(self).is_end(),
            r is Some ==> r->Some_0@ == final(self).state_view(),
    {
        self.advance();
        self.get()
    }
}

proof fn lemma_total_prefix_le(v: Seq<usize>, i: int, p: int)
    requires
        0 <= i <= p <= v.len(),
    ensures
        total(v.subrange(0, i)) <= total(v.subrange(0, p)),
    decreases p - i,
{
    if i < p {
        lemma_total_prefix_le(v, i, p - 1);
        assert(v.subrange(0, p).drop_last() =~= v.subrange(0, p - 1));
    }
}

/// The first `p` elements of a vector.
fn slice_prefix(v: &Vec<usize>, p: usize) -> (r: Vec<usize>)
    requires
        p <= v@.len(),
    ensures
        r@ == v@.subrange(0, p as int),
{
    let mut r: Vec<usize> = Vec::new();
    let mut i: usize = 0;
    while i < p
        invariant
            i <= p <= v@.len(),
            r@ == v@.subrange(0, i as int),
        decreases p - i,
    {
        r.push(v[i]);
        i += 1;
        assert(r@ =~= v@.subrange(0, i as int));
    }
    r
}

/// What is left of capacities `a` after taking `b`.
pub open spec fn minus(a: Seq<usize>, b: Seq<usize>) -> Seq<usize> {
    Seq::new(a.len(), |k: int| (a[k] - b[k]) as usize)
}

/// The sum of the counts of `v` from index `i` on.
pub open spec fn suffix_total(v: Seq<usize>, i: int) -> nat
    decreases v.len() - i,
{
    if i >= v.len() || i < 0 { 0 } else { v[i] as nat + suffix_total(v, i + 1) }
}

proof fn lemma_total_minus(a: Seq<usize>, b: Seq<usize>)
    requires
        within(b, a),
    ensures
        total(minus(a, b)) + total(b) == total(a),
        minus(a, b).len() == a.len(),
    decreases a.len(),
{
    if a.len() > 0 {
        lemma_total_minus(a.drop_last(), b.drop_last());
        assert(minus(a, b).drop_last() =~= minus(a.drop_last(), b.drop_last()));
    }
}

/// Enumerates the ways to pair two multisets given by their counts: row `i`
/// spreads `v1[i]` units over the columns, within what the rows before it
/// left of the column counts `v2`.
#[derive(Debug, Clone, Ord, PartialOrd, Eq, PartialEq, Hash)]
pub struct Pairings {
    state: Vec<Comb>,
    first: bool,
    v1: Vec<usize>,
    end: bool,
}

impl Pairings {
    /// The rows of the current pairing.
    pub closed spec fn rows(&self) -> Seq<Seq<usize>> {
        self.state@.map_values(|c: Comb| c.state_view())
    }

    /// What each row may take of each column.
    pub closed spec fn maxes(&self) -> Seq<Seq<usize>> {
        self.state@.map_values(|c: Comb| c.max_view())
    }

    /// The row counts.
    pub closed spec fn counts(&self) -> Seq<usize> {
        self.v1@
    }

    /// No pairing has been handed out yet.
    pub closed spec fn is_first(&self) -> bool {
        self.first
    }

    /// All pairings have been handed out.
    pub closed spec fn is_end(&self) -> bool {
        self.end
    }

    /// Every row has handed out its first distribution.
    pub closed spec fn rows_started(&self) -> bool {
        forall|i: int| 0 <= i < self.state@.len() ==> !(#[trigger] self.state@[i]).is_first()
    }

    /// The rows form a pairing: row `i` spreads `counts()[i]` within what
    /// the rows before it left, and what is left suffices for the rows after.
    pub open spec fn wf(&self) -> bool {
        let r = self.rows();
        let m = self.maxes();
        let v1 = self.counts();
        &&& r.len() == v1.len()
        &&& m.len() == v1.len()
        &&& self.rows_started()
        &&& forall|i: int| 0 <= i < r.len() ==> within(#[trigger] r[i], m[i]) && total(r[i]) == v1[i]
        &&& forall|i: int| 1 <= i < r.len() ==> #[trigger] m[i] == minus(m[i - 1], r[i - 1])
        &&& forall|i: int| 0 <= i < r.len() ==> total(#[trigger] m[i]) >= suffix_total(v1, i)
    }

    /// Starts at the greedy pairing: each row in turn takes as much as it can
    /// of the first columns.
    pub fn new(v1: Vec<usize>, v2: Vec<usize>) -> (r: Pairings)
        requires
            suffix_total(v1@, 0) <= total(v2@),
        ensures
            r.wf(),
            r.counts() == v1@,
            r.is_first(),
            !r.is_end(),
            r.rows().len() > 0 ==> r.maxes()[0] == v2@,
    {
        let mut s: Vec<Comb> = Vec::new();
        let mut rest = v2;
        let ghost v2v = rest@;
        let mut i: usize = 0;
        while i < v1.len()
            invariant
                i <= v1@.len(),
                s@.len() == i,
                forall|q: int| 0 <= q < i ==> !(#[trigger] s@[q]).is_first(),
                forall|q: int| 0 <= q < i ==> within((#[trigger] s@[q]).state_view(), s@[q].max_view())
                    && total(s@[q].state_view()) == v1@[q],
                forall|q: int| 1 <= q < i ==> (#[trigger] s@[q]).max_view() == minus(s@[q - 1].max_view(), s@[q - 1].state_view()),
                forall|q: int| 0 <= q < i ==> total((#[trigger] s@[q]).max_view()) >= suffix_total(v1@, q),
                i == 0 ==> rest@ == v2v,
                i > 0 ==> rest@ == minus(s@[i - 1].max_view(), s@[i - 1].state_view()),
                i > 0 ==> s@[0].max_view() == v2v,
                total(rest@) >= suffix_total(v1@, i as int),
                suffix_total(v1@, 0) <= total(v2v),
            decreases v1@.len() - i,
        {
            let x = v1[i];
            let mut c = Comb::new(x, rest.clone());
            c.next();
            proof {
                lemma_total_minus(rest@, c.state_view());
            }
            let mut k: usize = 0;
            let ghost before = rest@;
            while k < rest.len()
                invariant
                    k <= rest@.len(),
                    rest@.len() == before.len(),
                    before == c.max_view(),
                    within(c.state_view(), c.max_view()),
                    forall|q: int| 0 <= q < k ==> rest@[q] == (before[q] - c.state_view()[q]) as usize,
                    forall|q: int| k <= q < rest@.len() ==> rest@[q] == before[q],
                decreases rest@.len() - k,
            {
                let d = c.values()[k];
                rest.set(k, rest[k] - d);
                k += 1;
            }
            proof {
                assert(rest@ =~= minus(before, c.state_view()));
            }
            s.push(c);
            i += 1;
        }
        let r = Pairings { state: s, first: true, v1, end: false };
        proof {
            let rows = r.rows();
            let m = r.maxes();
            assert forall|q: int| 0 <= q < rows.len() implies within(#[trigger] rows[q], m[q]) && total(rows[q]) == r.counts()[q] by {
                assert(rows[q] == r.state@[q].state_view());
                assert(m[q] == r.state@[q].max_view());
            }
            assert forall|q: int| 1 <= q < rows.len() implies #[trigger] m[q] == minus(m[q - 1], rows[q - 1]) by {
                assert(m[q] == r.state@[q].max_view());
            }
            assert forall|q: int| 0 <= q < rows.len() implies total(#[trigger] m[q]) >= suffix_total(r.counts(), q) by {
                assert(m[q] == r.state@[q].max_view());
            }
        }
        r
    }

    /// The distributions of the rows, unless all pairings have been handed
    /// out.
    pub fn get(&self) -> (r: Option<&Vec<Comb>>)
        ensures
            r is Some <==> !self.is_end(),
            r is Some ==> r->Some_0@.map_values(|c: Comb| c.state_view()) == self.rows(),
    {
        if self.end { None } else { Some(&self.state) }
    }

    /// Whether all pairings have been handed out.
    pub fn is_done(&self) -> (r: bool)
        ensures
            r == self.is_end(),
    {
        self.end
    }

    /// The rows of the current pairing.
    pub fn matrix(&self) -> (r: Vec<Vec<usize>>)
        ensures
            r@.map_values(|v: Vec<usize>| v@) == self.rows(),
    {
        let mut r: Vec<Vec<usize>> = Vec::new();
        let mut i: usize = 0;
        while i < self.state.len()
            invariant
                i <= self.state@.len(),
                r@.map_values(|v: Vec<usize>| v@) == self.rows().subrange(0, i as int),
            decreases self.state@.len() - i,
        {
            let row = self.state[i].values();
            let mut v: Vec<usize> = Vec::new();
            let mut k: usize = 0;
            while k < row.len()
                invariant
                    k <= row@.len(),
                    v@ == row@.subrange(0, k as int),
                decreases row@.len() - k,
            {
                v.push(row[k]);
                k += 1;
                assert(v@ =~= row@.subrange(0, k as int));
            }
            assert(row@.subrange(0, row@.len() as int) =~= row@);
            let ghost before = r@;
            r.push(v);
            i += 1;
            assert(r@.map_values(|v: Vec<usize>| v@) =~= before.map_values(|v: Vec<usize>| v@).push(v@));
            assert(r@.map_values(|v: Vec<usize>| v@) =~= self.rows().subrange(0, i as int));
        }
        assert(self.rows().subrange(0, self.rows().len() as int) =~= self.rows());
        r
    }

    /// Moves to the next pairing: the last row that can move to its next
    /// distribution does so, and the rows after it start again from their
    /// greedy distributions. The first call hands out the starting pairing.
    #[verifier::rlimit(80)]
    #[verifier::spinoff_prover]
    pub fn advance(&mut self)
        requires
            old(self).wf(),
        ensures
            final(self).wf(),
            final(self).counts() == old(self).counts(),
            !final(self).is_first(),
            old(self).is_first() ==> final(self).rows() == old(self).rows() && !final(self).is_end(),
            !old(self).is_first() ==> (final(self).is_end() <==>
                forall|i: int| 0 <= i < old(self).rows().len() ==> comb_next(#[trigger] old(self).rows()[i], old(self).maxes()[i]) is None),
            !old(self).is_first() && !final(self).is_end() ==> exists|i: int| 0 <= i < old(self).rows().len() && {
                &&& comb_next(old(self).rows()[i], old(self).maxes()[i]) is Some
                &&& (forall|j: int| i < j < old(self).rows().len() ==> comb_next(#[trigger] old(self).rows()[j], old(self).maxes()[j]) is None)
                &&& (forall|j: int| 0 <= j < i ==> #[trigger] final(self).rows()[j] == old(self).rows()[j])
                &&& final(self).rows()[i] == comb_next(old(self).rows()[i], old(self).maxes()[i])->Some_0
                &&& (forall|j: int| i < j < old(self).rows().len() ==> #[trigger] final(self).rows()[j] == fill(final(self).maxes()[j], old(self).counts()[j] as nat))
            },
    {
        if self.first {
            self.first = false;
            self.end = false;
            return;
        }
        let ghost olds = self.state@;
        let ghost old_rows = self.rows();
        let ghost old_m = self.maxes();
        let ghost v1 = self.v1@;
        let len = self.state.len();
        proof {
            assert forall|q: int| 0 <= q < len implies (#[trigger] olds[q]).state_view() == old_rows[q] && olds[q].max_view() == old_m[q] by {}
        }
        let mut i: usize = len;
        let mut found: Option<Comb> = None;
        while i > 0 && found.is_none()
            invariant
                i <= len,
                len == olds.len(),
                self.state@ == olds,
                self.v1@ == v1,
                self.wf(),
                old_rows == self.rows(),
                old_m == self.maxes(),
                found is None ==> forall|q: int| i <= q < len ==> comb_next(#[trigger] old_rows[q], old_m[q]) is None,
                found is Some ==> i < len && comb_next(old_rows[i as int], old_m[i as int]) is Some
                    && (forall|j: int| i < j < len ==> comb_next(#[trigger] old_rows[j], old_m[j]) is None)
                    && found->Some_0.state_view() == comb_next(old_rows[i as int], old_m[i as int])->Some_0
                    && found->Some_0.max_view() == old_m[i as int]
                    && !found->Some_0.is_first(),
            decreases i + (if found is Some { 0int } else { 1int }),
        {
            i -= 1;
            let mut c = self.state[i].duplicate();
            proof {
                assert(olds[i as int].state_view() == old_rows[i as int]);
                assert(!olds[i as int].is_first());
            }
            if c.next().is_some() {
                found = Some(c);
            }
        }
        let c = match found {
            None => {
                self.end = true;
                return;
            },
            Some(c) => c,
        };
        proof {
            lemma_comb_next_valid(old_rows[i as int], old_m[i as int]);
        }
        let mut newrows: Vec<Comb> = Vec::new();
        let mut q: usize = 0;
        while q < i
            invariant
                q <= i < len,
                len == olds.len(),
                self.state@ == olds,
                newrows@.len() == q,
                forall|w: int| 0 <= w < q ==> (#[trigger] newrows@[w]).state_view() == olds[w].state_view()
                    && newrows@[w].max_view() == olds[w].max_view() && newrows@[w].is_first() == olds[w].is_first(),
            decreases i - q,
        {
            newrows.push(self.state[q].duplicate());
            q += 1;
        }
        newrows.push(c);
        proof {
            assert(total(old_m[i as int]) >= suffix_total(v1, i as int));
        }
        greedy_rows(&mut newrows, &self.v1);
        let ghost nr = newrows@;
        self.state = newrows;
        self.end = false;
        proof {
            let r = self.rows();
            let m = self.maxes();
            assert forall|w: int| 0 <= w < len implies (#[trigger] nr[w]).state_view() == r[w] && nr[w].max_view() == m[w] by {}
            assert forall|w: int| 0 <= w < r.len() implies within(#[trigger] r[w], m[w]) && total(r[w]) == v1[w] by {
                if w < i {
                    assert(olds[w].state_view() == old_rows[w]);
                }
            }
            assert forall|w: int| 1 <= w < r.len() implies #[trigger] m[w] == minus(m[w - 1], r[w - 1]) by {
                if w < i {
                    assert(olds[w].max_view() == old_m[w]);
                    assert(olds[w - 1].max_view() == old_m[w - 1]);
                    assert(olds[w - 1].state_view() == old_rows[w - 1]);
                } else if w == i {
                    assert(olds[w - 1].max_view() == old_m[w - 1]);
                    assert(olds[w - 1].state_view() == old_rows[w - 1]);
                }
            }
            assert forall|w: int| 0 <= w < r.len() implies total(#[trigger] m[w]) >= suffix_total(v1, w) by {
                if w < i {
                    assert(olds[w].max_view() == old_m[w]);
                }
            }
            assert forall|w: int| 0 <= w < len implies !(#[trigger] self.state@[w]).is_first() by {
                if w < i {
                    assert(!olds[w].is_first());
                }
            }
            assert forall|w: int| 0 <= w < i implies #[trigger] r[w] == old_rows[w] by {
                assert(olds[w].state_view() == old_rows[w]);
            }
            assert(r[i as int] == comb_next(old_rows[i as int], old_m[i as int])->Some_0);
            assert forall|w: int| i < w < len implies #[trigger] r[w] == fill(m[w], v1[w] as nat) by {}
            assert(0 <= i < old_rows.len() && {
                &&& comb_next(old_rows[i as int], old_m[i as int]) is Some
                &&& (forall|j: int| i < j < old_rows.len() ==> comb_next(#[trigger] old_rows[j], old_m[j]) is None)
                &&& (forall|j: int| 0 <= j < i ==> #[trigger] r[j] == old_rows[j])
                &&& r[i as int] == comb_next(old_rows[i as int], old_m[i as int])->Some_0
                &&& (forall|j: int| i < j < old_rows.len() ==> #[trigger] r[j] == fill(m[j], v1[j] as nat))
            });
        }
    }
}

/// Appends the remaining rows, each at its greedy distribution within what
/// the rows before it left.
fn greedy_rows(rows: &mut Vec<Comb>, v1: &Vec<usize>)
    requires
        1 <= old(rows)@.len() <= v1@.len(),
        within(old(rows)@.last().state_view(), old(rows)@.last().max_view()),
        total(old(rows)@.last().state_view()) == v1@[old(rows)@.len() - 1],
        total(old(rows)@.last().max_view()) >= suffix_total(v1@, old(rows)@.len() - 1),
    ensures
        final(rows)@.len() == v1@.len(),
        forall|q: int| 0 <= q < old(rows)@.len() ==> #[trigger] final(rows)@[q] == old(rows)@[q],
        forall|q: int| old(rows)@.len() <= q < v1@.len() ==> !(#[trigger] final(rows)@[q]).is_first()
            && final(rows)@[q].max_view() == minus(final(rows)@[q - 1].max_view(), final(rows)@[q - 1].state_view())
            && final(rows)@[q].state_view() == fill(final(rows)@[q].max_view(), v1@[q] as nat)
            && within(final(rows)@[q].state_view(), final(rows)@[q].max_view())
            && total(final(rows)@[q].state_view()) == v1@[q]
            && total(final(rows)@[q].max_view()) >= suffix_total(v1@, q),
{
    let start = rows.len();
    let ghost orig = rows@;
    let mut j: usize = start;
    while j < v1.len()
        invariant
            start == orig.len(),
            1 <= start <= j <= v1@.len(),
            rows@.len() == j,
            forall|q: int| 0 <= q < start ==> #[trigger] rows@[q] == orig[q],
            within(rows@[j - 1].state_view(), rows@[j - 1].max_view()),
            total(rows@[j - 1].state_view()) == v1@[j - 1],
            total(rows@[j - 1].max_view()) >= suffix_total(v1@, j - 1),
            forall|q: int| start <= q < j ==> !(#[trigger] rows@[q]).is_first()
                && rows@[q].max_view() == minus(rows@[q - 1].max_view(), rows@[q - 1].state_view())
                && rows@[q].state_view() == fill(rows@[q].max_view(), v1@[q] as nat)
                && within(rows@[q].state_view(), rows@[q].max_view())
                && total(rows@[q].state_view()) == v1@[q]
                && total(rows@[q].max_view()) >= suffix_total(v1@, q),
        decreases v1@.len() - j,
    {
        let prev = &rows[j - 1];
        let ghost pm = prev.max_view();
        let ghost ps = prev.state_view();
        let pmax = prev.maxes_vec();
        let pst = prev.values();
        let mut rem: Vec<usize> = Vec::new();
        let mut k: usize = 0;
        while k < pmax.len()
            invariant
                k <= pmax@.len(),
                pmax@ == pm,
                pst@ == ps,
                within(ps, pm),
                rem@ == minus(pm, ps).subrange(0, k as int),
            decreases pmax@.len() - k,
        {
            rem.push(pmax[k] - pst[k]);
            k += 1;
            assert(rem@ =~= minus(pm, ps).subrange(0, k as int));
        }
        assert(rem@ =~= minus(pm, ps));
        proof {
            lemma_total_minus(pm, ps);
            assert(suffix_total(v1@, j - 1) == v1@[j - 1] + suffix_total(v1@, j as int));
            lemma_fill_props(rem@, v1@[j as int] as nat);
        }
        let mut c = Comb::new(v1[j], rem);
        c.next();
        let ghost before = rows@;
        rows.push(c);
        proof {
            assert forall|q: int| start <= q < j + 1 implies !(#[trigger] rows@[q]).is_first()
                && rows@[q].max_view() == minus(rows@[q - 1].max_view(), rows@[q - 1].state_view())
                && rows@[q].state_view() == fill(rows@[q].max_view(), v1@[q] as nat)
                && within(rows@[q].state_view(), rows@[q].max_view())
                && total(rows@[q].state_view()) == v1@[q]
                && total(rows@[q].max_view()) >= suffix_total(v1@, q) by {
                if q < j {
                    assert(rows@[q] == before[q]);
                    assert(rows@[q - 1] == before[q - 1]);
                }
            }
        }
        j += 1;
    }
}

impl Comb {
    /// An equal copy.
    pub fn duplicate(&self) -> (r: Comb)
        ensures
            r.max_view() == self.max_view(),
            r.state_view() == self.state_view(),
            r.is_first() == self.is_first(),
            r.is_end() == self.is_end(),
    {
        Comb { max: copy_counts(&self.max), state: copy_counts(&self.state), first: self.first, end: self.end }
    }

    /// The capacities.
    pub fn maxes_vec(&self) -> (r: &Vec<usize>)
        ensures
            r@ == self.max_view(),
    {
        &self.max
    }
}

/// A copy of a vector of counts.
pub fn copy_counts(v: &Vec<usize>) -> (r: Vec<usize>)
    ensures
        r@ == v@,
{
    let mut r: Vec<usize> = Vec::new();
    let mut i: usize = 0;
    while i < v.len()
        invariant
            i <= v@.len(),
            r@ == v@.subrange(0, i as int),
        decreases v@.len() - i,
    {
        r.push(v[i]);
        i += 1;
        assert(r@ =~= v@.subrange(0, i as int));
    }
    assert(v@.subrange(0, v@.len() as int) =~= v@);
    r
}


/// `v` comes before `w` in the order in which distributions are handed out,
/// decided at position `i`: they agree after `i`, and `w` holds more at `i`.
pub open spec fn colex_at(v: Seq<usize>, w: Seq<usize>, i: int) -> bool {
    &&& v.len() == w.len()
    &&& 0 <= i < v.len()
    &&& v[i] < w[i]
    &&& forall|j: int| i < j < v.len() ==> v[j] == w[j]
}

/// `v` comes before `w`: at the last position where they differ, `w` holds
/// more.
pub open spec fn colex_lt(v: Seq<usize>, w: Seq<usize>) -> bool {
    exists|i: int| colex_at(v, w, i)
}

/// Two distributions of the same length are equal or one comes first.
pub proof fn lemma_colex_total(v: Seq<usize>, w: Seq<usize>)
    requires
        v.len() == w.len(),
    ensures
        v == w || colex_lt(v, w) || colex_lt(w, v),
    decreases v.len(),
{
    if v.len() == 0 {
        assert(v =~= w);
    } else {
        let l = v.len() - 1;
        if v[l] < w[l] {
            assert(colex_at(v, w, l));
        } else if w[l] < v[l] {
            assert(colex_at(w, v, l));
        } else {
            let v2 = v.drop_last();
            let w2 = w.drop_last();
            lemma_colex_total(v2, w2);
            if v2 == w2 {
                assert forall|j: int| 0 <= j < v.len() implies v[j] == w[j] by {
                    if j < l {
                        assert(v2[j] == w2[j]);
                    }
                }
                assert(v =~= w);
            } else if colex_lt(v2, w2) {
                let i = choose|i: int| colex_at(v2, w2, i);
                assert forall|j: int| i < j < v.len() implies v[j] == w[j] by {
                    if j < l {
                        assert(v2[j] == w2[j]);
                    }
                }
                assert(v[i] == v2[i] && w[i] == w2[i]);
                assert(colex_at(v, w, i));
            } else {
                let i = choose|i: int| colex_at(w2, v2, i);
                assert forall|j: int| i < j < v.len() implies v[j] == w[j] by {
                    if j < l {
                        assert(v2[j] == w2[j]);
                    }
                }
                assert(v[i] == v2[i] && w[i] == w2[i]);
                assert(colex_at(w, v, i));
            }
        }
    }
}

/// No distribution comes both before and after another, nor before itself.
pub proof fn lemma_colex_asym(v: Seq<usize>, w: Seq<usize>)
    requires
        colex_lt(v, w),
    ensures
        !colex_lt(w, v),
        v != w,
{
    let i = choose|i: int| colex_at(v, w, i);
    if colex_lt(w, v) {
        let j = choose|j: int| colex_at(w, v, j);
        if i < j {
            assert(v[j] == w[j]);
        } else if j < i {
            assert(w[i] == v[i]);
        }
    }
    assert(v[i] != w[i]);
}

/// The greedy distribution comes first among those within the capacities
/// that hold at least as much.
pub proof fn lemma_fill_least(w: Seq<usize>, m: Seq<usize>, n: nat)
    requires
        within(w, m),
        total(w) >= n,
        n <= total(m),
        w != fill(m, n),
    ensures
        colex_lt(fill(m, n), w),
    decreases m.len(),
{
    let f = fill(m, n);
    if m.len() == 0 {
        assert(w =~= f);
    } else {
        let c = if m[0] <= n { m[0] } else { n as usize };
        let m2 = m.drop_first();
        let w2 = w.drop_first();
        let n2 = (n - c) as nat;
        let f2 = fill(m2, n2);
        assert(f == seq![c] + f2);
        lemma_total_first(w);
        lemma_total_first(m);
        lemma_fill_props(m2, n2);
        assert(within(w2, m2)) by {
            assert forall|q: int| 0 <= q < w2.len() implies #[trigger] w2[q] <= m2[q] by {
                assert(w[q + 1] <= m[q + 1]);
            }
        }
        if w2 != f2 {
            lemma_fill_least(w2, m2, n2);
            let i = choose|i: int| colex_at(f2, w2, i);
            assert forall|j: int| i + 1 < j < f.len() implies f[j] == w[j] by {
                assert(f[j] == f2[j - 1]);
                assert(w[j] == w2[j - 1]);
            }
            assert(f[i + 1] == f2[i] && w[i + 1] == w2[i]);
            assert(colex_at(f, w, i + 1));
        } else {
            if w[0] == c {
                assert forall|j: int| 0 <= j < w.len() implies w[j] == f[j] by {
                    if j > 0 {
                        assert(w[j] == w2[j - 1]);
                        assert(f[j] == f2[j - 1]);
                    }
                }
                assert(w =~= f);
            }
            assert forall|j: int| 0 < j < f.len() implies f[j] == w[j] by {
                assert(f[j] == f2[j - 1]);
                assert(w[j] == w2[j - 1]);
            }
            assert(colex_at(f, w, 0));
        }
    }
}

proof fn lemma_prefix_full(v: Seq<usize>, m: Seq<usize>, i: int, p: int)
    requires
        0 <= i <= p <= v.len(),
        p == first_nonfull(v, m, i),
    ensures
        forall|q: int| i <= q < p ==> v[q] >= m[q],
    decreases v.len() - i,
{
    if i < v.len() && v[i] >= m[i] {
        lemma_first_nonfull_bounds(v, m, i + 1);
        lemma_prefix_full(v, m, i + 1, p);
    }
}

/// Distributions of the same total that agree after `i` hold the same up to
/// and including `i`.
proof fn lemma_prefix_totals(v: Seq<usize>, w: Seq<usize>, i: int)
    requires
        v.len() == w.len(),
        0 <= i < v.len(),
        forall|j: int| i < j < v.len() ==> v[j] == w[j],
        total(v) == total(w),
    ensures
        total(v.subrange(0, i + 1)) == total(w.subrange(0, i + 1)),
        total(v.subrange(0, i + 1)) == total(v.subrange(0, i)) + v[i],
        total(w.subrange(0, i + 1)) == total(w.subrange(0, i)) + w[i],
{
    let n = v.len() as int;
    assert(v =~= v.subrange(0, i + 1) + v.subrange(i + 1, n));
    assert(w =~= w.subrange(0, i + 1) + w.subrange(i + 1, n));
    assert(v.subrange(i + 1, n) =~= w.subrange(i + 1, n));
    lemma_total_append(v.subrange(0, i + 1), v.subrange(i + 1, n));
    lemma_total_append(w.subrange(0, i + 1), w.subrange(i + 1, n));
    assert(v.subrange(0, i + 1).drop_last() =~= v.subrange(0, i));
    assert(w.subrange(0, i + 1).drop_last() =~= w.subrange(0, i));
}

proof fn lemma_zero_prefix_total(v: Seq<usize>, i: int)
    requires
        0 <= i <= v.len(),
        forall|q: int| 0 <= q < i ==> v[q] == 0,
    ensures
        total(v.subrange(0, i)) == 0,
    decreases i,
{
    if i > 0 {
        lemma_zero_prefix_total(v, i - 1);
        assert(v.subrange(0, i).drop_last() =~= v.subrange(0, i - 1));
    }
}

/// A distribution of the same total as `v` cannot come after `v` by holding
/// more at a position up to the first non-empty one, or at a full position
/// right after it.
proof fn lemma_no_rise_early(v: Seq<usize>, m: Seq<usize>, w: Seq<usize>, i: int)
    requires
        within(v, m),
        within(w, m),
        total(v) == total(w),
        colex_at(v, w, i),
    ensures
        first_nonzero(v, 0) < i,
        first_nonzero(v, 0) + 1 <= v.len() ==> first_nonfull(v, m, first_nonzero(v, 0) + 1) <= i,
{
    let k = first_nonzero(v, 0);
    lemma_first_nonzero_bounds(v, 0);
    lemma_prefix_zero(v, 0, k);
    lemma_prefix_totals(v, w, i);
    if i <= k {
        lemma_zero_prefix_total(v, i);
    } else if first_nonfull(v, m, k + 1) <= i {
    } else {
        let p = first_nonfull(v, m, k + 1);
        lemma_first_nonfull_bounds(v, m, k + 1);
        lemma_prefix_full(v, m, k + 1, p);
        assert(v[i] >= m[i]);
        assert(w[i] <= m[i]);
    }
}

/// Nothing of the same total comes after the last distribution.
pub proof fn lemma_comb_next_last(v: Seq<usize>, m: Seq<usize>, w: Seq<usize>)
    requires
        within(v, m),
        within(w, m),
        total(w) == total(v),
        comb_next(v, m) is None,
    ensures
        !colex_lt(v, w),
{
    if colex_lt(v, w) {
        let i = choose|i: int| colex_at(v, w, i);
        let k = first_nonzero(v, 0);
        lemma_first_nonzero_bounds(v, 0);
        if k < v.len() - 1 {
            lemma_first_nonfull_bounds(v, m, k + 1);
        }
        lemma_no_rise_early(v, m, w, i);
    }
}

/// The next distribution comes right after `v`: after it, and no
/// distribution of the same total lies between the two.
pub proof fn lemma_comb_next_least(v: Seq<usize>, m: Seq<usize>, w: Seq<usize>)
    requires
        within(v, m),
        comb_next(v, m) is Some,
    ensures
        colex_lt(v, comb_next(v, m)->Some_0),
        within(w, m) && total(w) == total(v) && colex_lt(v, w) ==>
            w == comb_next(v, m)->Some_0 || colex_lt(comb_next(v, m)->Some_0, w),
{
    let s = comb_next(v, m)->Some_0;
    let k = first_nonzero(v, 0);
    lemma_first_nonzero_bounds(v, 0);
    let p = first_nonfull(v, m, k + 1);
    lemma_first_nonfull_bounds(v, m, k + 1);
    let n = v.len() as int;
    let a = v.subrange(0, p);
    let ma = m.subrange(0, p);
    assert(within(a, ma));
    lemma_total_within(a, ma);
    lemma_total_pos(a, k);
    let t1 = (total(a) - 1) as nat;
    lemma_fill_props(ma, t1);
    let f = fill(ma, t1);
    assert(s == f + seq![(v[p] + 1) as usize] + v.subrange(p + 1, n));
    assert(s.len() == n);
    assert(s[p] == v[p] + 1);
    assert forall|j: int| p < j < n implies s[j] == v[j] by {
        assert(s[j] == v.subrange(p + 1, n)[j - p - 1]);
    }
    assert(colex_at(v, s, p));
    if within(w, m) && total(w) == total(v) && colex_lt(v, w) {
        let i = choose|i: int| colex_at(v, w, i);
        if i < p {
            lemma_no_rise_early(v, m, w, i);
        }
        if i > p {
            assert(colex_at(s, w, i));
        } else if w[p] > v[p] + 1 {
            assert(colex_at(s, w, p));
        } else {
            let b = w.subrange(0, p);
            lemma_prefix_totals(v, w, p);
            assert(within(b, ma));
            if b == f {
                assert forall|j: int| 0 <= j < n implies w[j] == s[j] by {
                    if j < p {
                        assert(w[j] == b[j]);
                        assert(s[j] == f[j]);
                    }
                }
                assert(w =~= s);
            } else {
                lemma_fill_least(b, ma, t1);
                let i2 = choose|i2: int| colex_at(f, b, i2);
                assert forall|j: int| i2 < j < n implies s[j] == w[j] by {
                    if j < p {
                        assert(s[j] == f[j]);
                        assert(w[j] == b[j]);
                    }
                }
                assert(s[i2] == f[i2] && w[i2] == b[i2]);
                assert(colex_at(s, w, i2));
            }
        }
    }
}

/// Powers of `b`.
pub open spec fn pw(b: nat, e: nat) -> nat
    decreases e,
{
    if e == 0 { 1 } else { b * pw(b, (e - 1) as nat) }
}

/// A distribution read as a number in base `b`, its last count the most
/// significant digit.
pub open spec fn rank(v: Seq<usize>, b: nat) -> nat
    decreases v.len(),
{
    if v.len() == 0 { 0 } else { rank(v.drop_last(), b) + (v.last() as nat) * pw(b, (v.len() - 1) as nat) }
}

/// All counts are below `b`.
pub open spec fn digits_below(v: Seq<usize>, b: nat) -> bool {
    forall|i: int| 0 <= i < v.len() ==> #[trigger] v[i] < b
}

pub proof fn lemma_rank_bound(v: Seq<usize>, b: nat)
    requires
        digits_below(v, b),
    ensures
        rank(v, b) < pw(b, v.len()),
    decreases v.len(),
{
    if v.len() > 0 {
        let v2 = v.drop_last();
        lemma_rank_bound(v2, b);
        let pp = pw(b, (v.len() - 1) as nat);
        let x = v.last() as nat;
        let r2 = rank(v2, b);
        assert(x < b);
        assert(x * pp <= (b - 1) * pp) by (nonlinear_arith)
            requires x < b;
        assert(b * pp == (b - 1) * pp + pp) by (nonlinear_arith)
            requires b >= 1;
        assert(rank(v, b) == r2 + x * pp);
    }
}

/// A distribution that comes first reads as a smaller number.
pub proof fn lemma_rank_lt(v: Seq<usize>, w: Seq<usize>, b: nat, i: int)
    requires
        colex_at(v, w, i),
        digits_below(v, b),
        digits_below(w, b),
    ensures
        rank(v, b) < rank(w, b),
    decreases v.len(),
{
    let l = v.len() - 1;
    let v2 = v.drop_last();
    let w2 = w.drop_last();
    let pp = pw(b, l as nat);
    if i == l {
        lemma_rank_bound(v2, b);
        let x = v.last() as nat;
        let y = w.last() as nat;
        assert((x + 1) * pp <= y * pp) by (nonlinear_arith)
            requires x + 1 <= y;
        assert((x + 1) * pp == x * pp + pp) by (nonlinear_arith);
        assert(rank(v, b) == rank(v2, b) + x * pp);
        assert(rank(w, b) == rank(w2, b) + y * pp);
    } else {
        assert(colex_at(v2, w2, i));
        lemma_rank_lt(v2, w2, b, i);
        assert(v.last() == w.last());
    }
}

} // verus!
