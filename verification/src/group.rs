use vstd::prelude::*;
use std::collections::HashSet;

verus! {

broadcast use vstd::set::group_set_axioms;

/// A label of a problem.
pub type Label = u32;

/// How many times a group of labels is repeated in a configuration.
pub type Exponent = u8;

/// `s` is strictly increasing: sorted, without repetitions.
pub open spec fn strictly_sorted(s: Seq<u32>) -> bool {
    forall|i: int, j: int| 0 <= i < j < s.len() ==> s[i] < s[j]
}

/// A set of labels, stored as a strictly increasing vector.
#[derive(Clone, Debug, Eq, PartialEq, Ord, PartialOrd, Hash)]
pub struct Group(pub Vec<Label>);

impl View for Group {
    type V = Seq<Label>;

    open spec fn view(&self) -> Seq<Label> {
        self.0@
    }
}

impl Group {
    /// The group is strictly increasing.
    pub open spec fn wf(&self) -> bool {
        strictly_sorted(self@)
    }

    /// The labels of the group, as a set.
    pub open spec fn labels(&self) -> Set<Label> {
        self@.to_set()
    }

    pub fn len(&self) -> (r: usize)
        ensures
            r == self@.len(),
    {
        self.0.len()
    }

    pub fn is_empty(&self) -> (r: bool)
        ensures
            r == (self@.len() == 0),
    {
        self.0.len() == 0
    }

    /// Whether `l` belongs to the group.
    pub fn contains(&self, l: Label) -> (r: bool)
        ensures
            r == self@.contains(l),
    {
        let mut i: usize = 0;
        while i < self.0.len()
            invariant
                i <= self@.len(),
                forall|k: int| 0 <= k < i ==> self@[k] != l,
            decreases self@.len() - i,
        {
            if self.0[i] == l {
                return true;
            }
            i += 1;
        }
        false
    }

    /// The smallest label of a non-empty group.
    pub fn first(&self) -> (r: Label)
        requires
            self@.len() > 0,
        ensures
            r == self@[0],
    {
        self.0[0]
    }

    /// A copy of the labels of the group.
    pub fn as_vec(&self) -> (r: Vec<Label>)
        ensures
            r@ == self@,
    {
        copy_labels(&self.0)
    }

    /// An equal copy of the group.
    pub fn duplicate(&self) -> (r: Group)
        ensures
            r@ == self@,
    {
        Group(copy_labels(&self.0))
    }

    /// Whether the two groups hold the same labels in the same order.
    pub fn same_as(&self, other: &Group) -> (r: bool)
        ensures
            r == (self@ == other@),
    {
        labels_equal(&self.0, &other.0)
    }
}

/// A copy of a vector of labels.
pub fn copy_labels(v: &Vec<Label>) -> (r: Vec<Label>)
    ensures
        r@ == v@,
{
    let mut r: Vec<Label> = Vec::new();
    let mut i: usize = 0;
    while i < v.len()
        invariant
            i <= v@.len(),
            r@ == v@.subrange(0, i as int),
        decreases v@.len() - i,
    {
        r.push(v[i]);
        i += 1;
    }
    assert(r@ == v@.subrange(0, v@.len() as int));
    r
}

/// Whether two vectors of labels are equal.
pub fn labels_equal(a: &Vec<Label>, b: &Vec<Label>) -> (r: bool)
    ensures
        r == (a@ == b@),
{
    if a.len() != b.len() {
        return false;
    }
    let mut i: usize = 0;
    while i < a.len()
        invariant
            a@.len() == b@.len(),
            i <= a@.len(),
            forall|k: int| 0 <= k < i ==> a@[k] == b@[k],
        decreases a@.len() - i,
    {
        if a[i] != b[i] {
            return false;
        }
        i += 1;
    }
    assert(a@ =~= b@);
    true
}


impl Group {
    /// Whether every label of `other` belongs to `self`; both groups are
    /// strictly increasing.
    pub fn is_superset(&self, other: &Group) -> (r: bool)
        requires
            self.wf(),
            other.wf(),
        ensures
            r == other.labels().subset_of(self.labels()),
    {
        let a = &self.0;
        let b = &other.0;
        let mut i: usize = 0;
        let mut j: usize = 0;
        while j < b.len()
            invariant
                a@ == self@,
                b@ == other@,
                strictly_sorted(a@),
                strictly_sorted(b@),
                i <= a@.len(),
                j <= b@.len(),
                forall|k: int| 0 <= k < j ==> a@.contains(#[trigger] b@[k]),
                j == 0 ==> i == 0,
                j > 0 ==> i > 0 && a@[i - 1] == b@[j - 1],
            decreases b@.len() - j,
        {
            let elem = b[j];
            proof {
                if j > 0 {
                    assert(b@[j - 1] < b@[j as int]);
                    assert forall|k: int| 0 <= k < i implies a@[k] != elem by {
                        if k < i - 1 {
                            assert(a@[k] < a@[i - 1]);
                        }
                    }
                }
            }
            while i < a.len() && a[i] != elem
                invariant
                    a@ == self@,
                    b@ == other@,
                    strictly_sorted(a@),
                    strictly_sorted(b@),
                    i <= a@.len(),
                    j < b@.len(),
                    elem == b@[j as int],
                    forall|k: int| 0 <= k < i ==> a@[k] != elem,
                decreases a@.len() - i,
            {
                i += 1;
            }
            if i == a.len() {
                assert(!a@.contains(elem));
                assert(!other.labels().subset_of(self.labels())) by {
                    assert(b@.contains(elem));
                    assert(other.labels().contains(elem));
                    assert(!self.labels().contains(elem));
                }
                return false;
            }
            assert(a@.contains(elem));
            i += 1;
            j += 1;
        }
        assert(other.labels().subset_of(self.labels())) by {
            assert forall|x: u32| other.labels().contains(x) implies self.labels().contains(x) by {
                let k = choose|k: int| 0 <= k < b@.len() && b@[k] == x;
                assert(a@.contains(b@[k]));
            }
        }
        true
    }

    /// The labels of `self` that do not belong to `other`, in increasing order.
    pub fn difference(&self, other: &Group) -> (r: Group)
        requires
            self.wf(),
            other.wf(),
        ensures
            r.wf(),
            r.labels() == self.labels().difference(other.labels()),
    {
        let r = Group(merge_sorted(&self.0, &other.0, false));
        proof {
            assert forall|x: u32| r.labels().contains(x) <==> self.labels().difference(other.labels()).contains(x) by {
                lemma_in_prefix_full(self@, x);
            }
            assert(r.labels() =~= self.labels().difference(other.labels()));
        }
        r
    }

    /// The labels that belong to both groups, in increasing order.
    pub fn intersection(&self, other: &Group) -> (r: Group)
        requires
            self.wf(),
            other.wf(),
        ensures
            r.wf(),
            r.labels() == self.labels().intersect(other.labels()),
    {
        let r = Group(merge_sorted(&self.0, &other.0, true));
        proof {
            assert forall|x: u32| r.labels().contains(x) <==> self.labels().intersect(other.labels()).contains(x) by {
                lemma_in_prefix_full(self@, x);
            }
            assert(r.labels() =~= self.labels().intersect(other.labels()));
        }
        r
    }
}

impl Group {
    /// The union of the two groups, as a strictly increasing group.
    pub fn union(&self, other: &Group) -> (r: Group)
        ensures
            r.wf(),
            r.labels() == self.labels().union(other.labels()),
    {
        let mut all = copy_labels(&self.0);
        let mut i: usize = 0;
        while i < other.0.len()
            invariant
                i <= other@.len(),
                all@ == self@ + other@.subrange(0, i as int),
            decreases other@.len() - i,
        {
            all.push(other.0[i]);
            i += 1;
            assert(all@ =~= self@ + other@.subrange(0, i as int));
        }
        assert(other@.subrange(0, other@.len() as int) =~= other@);
        let r = Group(sorted_unique(&all));
        proof {
            lemma_concat_to_set(self@, other@);
        }
        r
    }

    /// The labels of the group, as a hash set.
    pub fn as_set(&self) -> (r: HashSet<Label>)
        ensures
            r@ == self.labels(),
    {
        broadcast use vstd::std_specs::hash::group_hash_axioms;
        let mut h: HashSet<Label> = HashSet::new();
        let mut i: usize = 0;
        while i < self.0.len()
            invariant
                i <= self@.len(),
                h@ == self@.subrange(0, i as int).to_set(),
            decreases self@.len() - i,
        {
            h.insert(self.0[i]);
            i += 1;
            assert(h@ =~= self@.subrange(0, i as int).to_set()) by {
                assert(self@.subrange(0, i as int) =~= self@.subrange(0, i - 1).push(self@[i - 1]));
                self@.subrange(0, i - 1).lemma_push_to_set_commute(self@[i - 1]);
            }
        }
        assert(self@.subrange(0, self@.len() as int) =~= self@);
        h
    }

    /// The group holding the labels of a set, in increasing order.
    pub fn from_set(h: &HashSet<Label>) -> (r: Group)
        ensures
            r.wf(),
            r.labels() == h@,
    {
        let v = hash_set_elements(h);
        Group(sorted_unique(&v))
    }

    /// The group holding the labels of `v`, in increasing order and without
    /// repetitions.
    pub fn from_labels(v: &Vec<Label>) -> (r: Group)
        ensures
            r.wf(),
            r.labels() == v@.to_set(),
    {
        Group(sorted_unique(v))
    }
}

/// The elements of a hash set, in the order in which `HashSet::iter` visits
/// them. The contract claims only what the documentation of `iter` states:
/// every element is visited, and nothing else; the order is left unsaid, as
/// it depends on the hasher's random seed.
#[verifier::external_body]
fn hash_set_elements(h: &HashSet<Label>) -> (r: Vec<Label>)
    ensures
        r@.to_set() == h@,
{
    h.iter().copied().collect()
}

/// The labels of `v` in increasing order, each once.
pub fn sorted_unique(v: &Vec<Label>) -> (r: Vec<Label>)
    ensures
        strictly_sorted(r@),
        r@.to_set() == v@.to_set(),
{
    let mut r: Vec<Label> = Vec::new();
    let mut i: usize = 0;
    while i < v.len()
        invariant
            i <= v@.len(),
            strictly_sorted(r@),
            forall|x: u32| #[trigger] r@.contains(x) <==> in_prefix(v@, i as int, x),
        decreases v@.len() - i,
    {
        let x = v[i];
        let mut p: usize = 0;
        while p < r.len() && r[p] < x
            invariant
                p <= r@.len(),
                strictly_sorted(r@),
                forall|k: int| 0 <= k < p ==> r@[k] < x,
            decreases r@.len() - p,
        {
            p += 1;
        }
        let ghost old_r = r@;
        if p < r.len() && r[p] == x {
        } else {
            r.insert(p, x);
            proof {
                assert forall|a: int, b: int| 0 <= a < b < r@.len() implies r@[a] < r@[b] by {
                    if b < p {
                    } else if b == p {
                    } else if a < p {
                        assert(old_r[a] < x);
                        assert(r@[b] == old_r[b - 1]);
                        assert(x <= old_r[p as int]);
                        if b - 1 > p {
                            assert(old_r[p as int] < old_r[b - 1]);
                        }
                    } else if a == p {
                        assert(r@[b] == old_r[b - 1]);
                        assert(x < old_r[p as int]);
                        if b - 1 > p {
                            assert(old_r[p as int] < old_r[b - 1]);
                        }
                    } else {
                        assert(r@[a] == old_r[a - 1]);
                        assert(r@[b] == old_r[b - 1]);
                    }
                }
            }
        }
        proof {
            assert forall|y: u32| #[trigger] r@.contains(y) <==> in_prefix(v@, i + 1, y) by {
                lemma_in_prefix_step(v@, i as int, y);
                if r@ != old_r {
                    if r@.contains(y) && y != x {
                        let k = choose|k: int| 0 <= k < r@.len() && r@[k] == y;
                        if k < p {
                            assert(old_r[k] == y);
                        } else {
                            assert(k > p);
                            assert(old_r[k - 1] == y);
                        }
                        assert(old_r.contains(y));
                    }
                    if old_r.contains(y) {
                        let k = choose|k: int| 0 <= k < old_r.len() && old_r[k] == y;
                        if k < p {
                            assert(r@[k] == y);
                        } else {
                            assert(r@[k + 1] == y);
                        }
                    }
                    assert(r@[p as int] == x);
                } else {
                    assert(r@[p as int] == x);
                }
            }
        }
        i += 1;
    }
    proof {
        assert forall|x: u32| r@.to_set().contains(x) <==> v@.to_set().contains(x) by {
            lemma_in_prefix_full(v@, x);
        }
        assert(r@.to_set() =~= v@.to_set());
    }
    r
}

/// How many times a group occurs in a configuration: a fixed number of times,
/// or any number of times (`Star`).
#[derive(Copy, Clone, Debug, Eq, PartialEq, Structural, Ord, PartialOrd, Hash)]
pub enum GroupType {
    Many(Exponent),
    Star,
}

impl GroupType {
    /// A group that occurs exactly once.
    pub fn one() -> (r: GroupType)
        ensures
            r == GroupType::Many(1),
    {
        GroupType::Many(1)
    }

    /// The number of occurrences of a group that does not carry a star.
    pub fn value(&self) -> (r: usize)
        requires
            self is Many,
        ensures
            r == self->Many_0,
    {
        match self {
            GroupType::Many(n) => *n as usize,
            GroupType::Star => 0,
        }
    }
}

impl From<Vec<Label>> for Group {
    fn from(v: Vec<Label>) -> (r: Group) {
        Group(v)
    }
}

impl vstd::std_specs::convert::FromSpecImpl<Vec<Label>> for Group {
    open spec fn obeys_from_spec() -> bool {
        true
    }

    open spec fn from_spec(v: Vec<Label>) -> Group {
        Group(v)
    }
}

/// The labels of a concatenation are those of either part.
pub proof fn lemma_concat_to_set(a: Seq<u32>, b: Seq<u32>)
    ensures
        (a + b).to_set() == a.to_set().union(b.to_set()),
{
    assert forall|x: u32| (a + b).to_set().contains(x) <==> a.to_set().union(b.to_set()).contains(x) by {
        if (a + b).contains(x) {
            let k = choose|k: int| 0 <= k < (a + b).len() && (a + b)[k] == x;
            if k < a.len() {
                assert(a[k] == x);
            } else {
                assert(b[k - a.len()] == x);
            }
        }
        if a.contains(x) {
            let k = choose|k: int| 0 <= k < a.len() && a[k] == x;
            assert((a + b)[k] == x);
        }
        if b.contains(x) {
            let k = choose|k: int| 0 <= k < b.len() && b[k] == x;
            assert((a + b)[k + a.len()] == x);
        }
    }
    assert((a + b).to_set() =~= a.to_set().union(b.to_set()));
}

/// `x` occurs among the first `n` elements of `s`.
pub open spec fn in_prefix(s: Seq<u32>, n: int, x: u32) -> bool {
    exists|k: int| 0 <= k < n && s[k] == x
}

proof fn lemma_in_prefix_step(s: Seq<u32>, n: int, x: u32)
    requires
        0 <= n < s.len(),
    ensures
        in_prefix(s, n + 1, x) <==> (in_prefix(s, n, x) || s[n] == x),
{
    if in_prefix(s, n + 1, x) && s[n] != x {
        let k = choose|k: int| 0 <= k < n + 1 && s[k] == x;
        assert(0 <= k < n && s[k] == x);
    }
    if in_prefix(s, n, x) {
        let k = choose|k: int| 0 <= k < n && s[k] == x;
        assert(0 <= k < n + 1 && s[k] == x);
    }
    if s[n] == x {
        assert(0 <= n < n + 1 && s[n] == x);
    }
}

proof fn lemma_in_prefix_full(s: Seq<u32>, x: u32)
    ensures
        in_prefix(s, s.len() as int, x) <==> s.contains(x),
{
    if s.contains(x) {
        let k = choose|k: int| 0 <= k < s.len() && s[k] == x;
        assert(0 <= k < s.len() && s[k] == x);
    }
}

/// Walks two strictly increasing vectors together and keeps the labels of `a`
/// that belong to `b` (`keep_common`) or that do not (`!keep_common`).
fn merge_sorted(a: &Vec<Label>, b: &Vec<Label>, keep_common: bool) -> (v: Vec<Label>)
    requires
        strictly_sorted(a@),
        strictly_sorted(b@),
    ensures
        strictly_sorted(v@),
        forall|x: u32| v@.contains(x) <==> (in_prefix(a@, a@.len() as int, x) && (b@.contains(x) == keep_common)),
{
    let mut i: usize = 0;
    let mut j: usize = 0;
    let mut v: Vec<Label> = Vec::new();
    while i < a.len()
        invariant
            strictly_sorted(a@),
            strictly_sorted(b@),
            strictly_sorted(v@),
            i <= a@.len(),
            j <= b@.len(),
            forall|k: int, m: int| 0 <= k < i && j <= m < b@.len() ==> a@[k] < b@[m],
            forall|k: int, m: int| 0 <= k < j && i <= m < a@.len() ==> b@[k] < a@[m],
            forall|x: u32| v@.contains(x) <==> (#[trigger] in_prefix(a@, i as int, x) && (b@.contains(x) == keep_common)),
            forall|k: int, m: int| 0 <= k < v@.len() && i <= m < a@.len() ==> v@[k] < a@[m],
        decreases a@.len() + b@.len() - i - j,
    {
        let ghost x0 = a@[i as int];
        let ghost old_v = v@;
        if j < b.len() && b[j] < a[i] {
            j += 1;
        } else {
            let common = j < b.len() && a[i] == b[j];
            proof {
                if !common {
                    assert(!b@.contains(x0)) by {
                        if b@.contains(x0) {
                            let m = choose|m: int| 0 <= m < b@.len() && b@[m] == x0;
                            if m < j {
                                assert(b@[m] < a@[i as int]);
                            } else {
                                assert(b@[j as int] <= b@[m]);
                            }
                        }
                    }
                } else {
                    assert(b@.contains(x0)) by { assert(b@[j as int] == x0); }
                }
            }
            if common == keep_common {
                v.push(a[i]);
            }
            proof {
                assert forall|x: u32| #[trigger] v@.contains(x) == (in_prefix(a@, i + 1, x) && (b@.contains(x) == keep_common)) by {
                    lemma_in_prefix_step(a@, i as int, x);
                    if common == keep_common {
                        if v@.contains(x) && x != x0 {
                            let k = choose|k: int| 0 <= k < v@.len() && v@[k] == x;
                            assert(old_v[k] == x);
                            assert(old_v.contains(x));
                        }
                        if old_v.contains(x) {
                            let k = choose|k: int| 0 <= k < old_v.len() && old_v[k] == x;
                            assert(v@[k] == x);
                        }
                        assert(v@[v@.len() - 1] == x0);
                    } else {
                        assert(v@ == old_v);
                        if old_v.contains(x0) {
                            let k = choose|k: int| 0 <= k < old_v.len() && old_v[k] == x0;
                            assert(old_v[k] < a@[i as int]);
                        }
                    }
                }
            }
            if common {
                j += 1;
            }
            i += 1;
        }
    }
    v
}

} // verus!
