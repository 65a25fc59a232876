//! Folded stacks: the aggregation of identical call-stacks into a single
//! accumulated value (an occurrence count or a net byte total).
//!
//! A call-stack is an ordered list of frame names, innermost frame first;
//! two stacks are the same key only if they agree in order and length.
//! Accumulation wraps around on `u64` overflow.

use vstd::prelude::*;
use vstd::seq_lib::commutative_foldl;
use vstd::seq_lib::lemma_fold_left_permutation;

verus! {

/// Wrap-around accumulation on `u64`.
pub open spec fn wadd(a: u64, b: u64) -> u64 {
    vstd::wrapping::u64_specs::wrapping_add(a, b)
}

/// One accumulation step: add `d` to the value at key `k`, inserting the
/// key with value `d` when it is absent.
pub open spec fn spec_fold(
    m: Map<Seq<Seq<char>>, u64>,
    k: Seq<Seq<char>>,
    d: u64,
) -> Map<Seq<Seq<char>>, u64> {
    if m.contains_key(k) {
        m.insert(k, wadd(m[k], d))
    } else {
        m.insert(k, d)
    }
}

/// Many accumulation steps, in sequence order.
pub open spec fn fold_many(
    m: Map<Seq<Seq<char>>, u64>,
    entries: Seq<(Seq<Seq<char>>, u64)>,
) -> Map<Seq<Seq<char>>, u64> {
    entries.fold_left(
        m,
        |acc: Map<Seq<Seq<char>>, u64>, e: (Seq<Seq<char>>, u64)| spec_fold(acc, e.0, e.1),
    )
}

/// Law: folding is commutative. The same contributions, folded in any
/// order, yield the same folded-stacks mapping.
pub proof fn lemma_fold_commutative(
    m: Map<Seq<Seq<char>>, u64>,
    e1: Seq<(Seq<Seq<char>>, u64)>,
    e2: Seq<(Seq<Seq<char>>, u64)>,
)
    requires
        e1.to_multiset() == e2.to_multiset(),
    ensures
        fold_many(m, e1) == fold_many(m, e2),
{
    let f = |acc: Map<Seq<Seq<char>>, u64>, e: (Seq<Seq<char>>, u64)| spec_fold(acc, e.0, e.1);
    assert forall|x: (Seq<Seq<char>>, u64), y: (Seq<Seq<char>>, u64), v: Map<Seq<Seq<char>>, u64>|
        #[trigger] f(f(v, x), y) == f(f(v, y), x) by {
        lemma_spec_fold_commutes(v, x.0, x.1, y.0, y.1);
    }
    assert(commutative_foldl(f));
    lemma_fold_left_permutation(e1, e2, f, m);
}

/// Folding many contributions can be stepped from the front.
pub proof fn lemma_fold_many_step(m: Map<Seq<Seq<char>>, u64>, s: Seq<(Seq<Seq<char>>, u64)>)
    requires
        s.len() > 0,
    ensures
        fold_many(m, s) == fold_many(spec_fold(m, s[0].0, s[0].1), s.drop_first()),
{
    let f = |acc: Map<Seq<Seq<char>>, u64>, e: (Seq<Seq<char>>, u64)| spec_fold(acc, e.0, e.1);
    s.lemma_fold_left_alt(m, f);
    assert(s.fold_left_alt(m, f) == s.subrange(1, s.len() as int).fold_left_alt(f(m, s[0]), f));
    assert(s.subrange(1, s.len() as int) =~= s.drop_first());
    s.drop_first().lemma_fold_left_alt(f(m, s[0]), f);
}

/// Two single accumulation steps commute.
pub proof fn lemma_spec_fold_commutes(
    m: Map<Seq<Seq<char>>, u64>,
    k1: Seq<Seq<char>>,
    d1: u64,
    k2: Seq<Seq<char>>,
    d2: u64,
)
    ensures
        spec_fold(spec_fold(m, k1, d1), k2, d2) == spec_fold(spec_fold(m, k2, d2), k1, d1),
{
    if k1 == k2 {
        assert(spec_fold(spec_fold(m, k1, d1), k2, d2) =~= spec_fold(spec_fold(m, k2, d2), k1, d1));
    } else {
        assert(spec_fold(spec_fold(m, k1, d1), k2, d2) =~= spec_fold(spec_fold(m, k2, d2), k1, d1));
    }
}

/// One folded entry: a call-stack key (frame names, innermost first) and
/// its accumulated value.
#[derive(Debug)]
pub struct FoldEntry {
    pub stack: Vec<String>,
    pub value: u64,
}

impl View for FoldEntry {
    type V = (Seq<Seq<char>>, u64);

    open spec fn view(&self) -> (Seq<Seq<char>>, u64) {
        (self.stack.deep_view(), self.value)
    }
}

/// The mathematical image of an entry list.
pub open spec fn entries_view(s: Seq<FoldEntry>) -> Seq<(Seq<Seq<char>>, u64)> {
    Seq::new(s.len(), |i: int| s[i]@)
}

/// No two entries share a call-stack key.
pub open spec fn distinct_keys(s: Seq<(Seq<Seq<char>>, u64)>) -> bool {
    forall|i: int, j: int| 0 <= i < j < s.len() ==> (#[trigger] s[i]).0 != (#[trigger] s[j]).0
}

/// The mapping an entry list stands for. A later entry would shadow an
/// earlier one with the same key; with distinct keys every entry shows.
pub open spec fn entries_map(s: Seq<(Seq<Seq<char>>, u64)>) -> Map<Seq<Seq<char>>, u64>
    decreases s.len(),
{
    if s.len() == 0 {
        Map::empty()
    } else {
        entries_map(s.drop_last()).insert(s.last().0, s.last().1)
    }
}

proof fn lemma_entries_map_index(s: Seq<(Seq<Seq<char>>, u64)>, i: int)
    requires
        distinct_keys(s),
        0 <= i < s.len(),
    ensures
        entries_map(s).contains_key(s[i].0),
        entries_map(s)[s[i].0] == s[i].1,
    decreases s.len(),
{
    if i < s.len() - 1 {
        assert(s.drop_last()[i] == s[i]);
        lemma_entries_map_index(s.drop_last(), i);
    }
}

proof fn lemma_entries_map_contains(s: Seq<(Seq<Seq<char>>, u64)>, k: Seq<Seq<char>>)
    ensures
        entries_map(s).contains_key(k) <==> exists|i: int| 0 <= i < s.len() && (#[trigger] s[i]).0 == k,
    decreases s.len(),
{
    if s.len() > 0 {
        lemma_entries_map_contains(s.drop_last(), k);
        if s.last().0 == k {
            assert(s[s.len() - 1].0 == k);
        } else if entries_map(s).contains_key(k) {
            let i = choose|i: int| 0 <= i < s.drop_last().len() && (#[trigger] s.drop_last()[i]).0 == k;
            assert(s[i].0 == k);
        } else {
            if exists|i: int| 0 <= i < s.len() && (#[trigger] s[i]).0 == k {
                let i = choose|i: int| 0 <= i < s.len() && (#[trigger] s[i]).0 == k;
                assert(i < s.len() - 1);
                assert(s.drop_last()[i].0 == k);
            }
        }
    }
}

proof fn lemma_entries_map_update(s: Seq<(Seq<Seq<char>>, u64)>, i: int, v: u64)
    requires
        distinct_keys(s),
        0 <= i < s.len(),
    ensures
        entries_map(s.update(i, (s[i].0, v))) == entries_map(s).insert(s[i].0, v),
    decreases s.len(),
{
    let t = s.update(i, (s[i].0, v));
    if i == s.len() - 1 {
        assert(t.drop_last() =~= s.drop_last());
        assert(t.last() == (s[i].0, v));
        assert(entries_map(t) =~= entries_map(s).insert(s[i].0, v));
    } else {
        assert(t.drop_last() =~= s.drop_last().update(i, (s[i].0, v)));
        assert(t.last() == s.last());
        assert(s.drop_last()[i] == s[i]);
        lemma_entries_map_update(s.drop_last(), i, v);
        assert(s[i].0 != s.last().0);
        assert(entries_map(t) =~= entries_map(s).insert(s[i].0, v));
    }
}

/// The aggregation from call-stack keys to accumulated values.
#[derive(Debug)]
pub struct FoldedStacks {
    pub entries: Vec<FoldEntry>,
}

/// Whether two stacks are equal as key values: same length, same names in
/// the same order.
pub fn stack_eq(a: &Vec<String>, b: &Vec<String>) -> (r: bool)
    ensures
        r == (a.deep_view() == b.deep_view()),
{
    if a.len() != b.len() {
        assert(a.deep_view().len() != b.deep_view().len());
        return false;
    }
    let n = a.len();
    let mut i: usize = 0;
    while i < n
        invariant
            0 <= i <= n,
            n == a@.len() == b@.len(),
            forall|k: int| 0 <= k < i ==> #[trigger] a.deep_view()[k] == b.deep_view()[k],
        decreases n - i,
    {
        if !a[i].eq(&b[i]) {
            assert(a.deep_view()[i as int] != b.deep_view()[i as int]);
            return false;
        }
        assert(a.deep_view()[i as int] == b.deep_view()[i as int]);
        i += 1;
    }
    assert(a.deep_view() =~= b.deep_view());
    true
}

impl View for FoldedStacks {
    type V = Map<Seq<Seq<char>>, u64>;

    open spec fn view(&self) -> Map<Seq<Seq<char>>, u64> {
        entries_map(entries_view(self.entries@))
    }
}

impl FoldedStacks {
    /// The entry list behind the mapping, as a mathematical sequence.
    pub open spec fn entries_seq(&self) -> Seq<(Seq<Seq<char>>, u64)> {
        entries_view(self.entries@)
    }

    /// Well-formedness: one entry per call-stack key.
    pub open spec fn wf(&self) -> bool {
        distinct_keys(self.entries_seq())
    }

    /// An empty aggregation.
    pub fn new() -> (r: FoldedStacks)
        ensures
            r.wf(),
            r@ == Map::<Seq<Seq<char>>, u64>::empty(),
            r.entries_seq().len() == 0,
    {
        let r = FoldedStacks { entries: Vec::new() };
        proof {
            assert(entries_view(r.entries@) =~= Seq::<(Seq<Seq<char>>, u64)>::empty());
        }
        r
    }

    /// How many distinct call-stack keys are held.
    pub fn len(&self) -> (n: usize)
        ensures
            n == self.entries_seq().len(),
    {
        self.entries.len()
    }

    /// The entry at a position: its stack and its accumulated value.
    pub fn entry_at(&self, i: usize) -> (r: (&Vec<String>, u64))
        requires
            i < self.entries_seq().len(),
        ensures
            (r.0.deep_view(), r.1) == self.entries_seq()[i as int],
    {
        let e = &self.entries[i];
        (&e.stack, e.value)
    }

    /// The value accumulated for one call-stack, if the key is present.
    pub fn value_of(&self, stack: &Vec<String>) -> (r: Option<u64>)
        requires
            self.wf(),
        ensures
            match r {
                Some(v) => self@.contains_key(stack.deep_view()) && self@[stack.deep_view()] == v,
                None => !self@.contains_key(stack.deep_view()),
            },
    {
        let ghost key = stack.deep_view();
        let ghost s = self.entries_seq();
        let n = self.entries.len();
        let mut i: usize = 0;
        while i < n
            invariant
                0 <= i <= n,
                n == self.entries@.len(),
                s == self.entries_seq(),
                distinct_keys(s),
                key == stack.deep_view(),
                forall|k: int| 0 <= k < i ==> (#[trigger] s[k]).0 != key,
            decreases n - i,
        {
            if stack_eq(&self.entries[i].stack, stack) {
                assert(s[i as int].0 == key);
                proof {
                    lemma_entries_map_index(s, i as int);
                }
                return Some(self.entries[i].value);
            }
            assert(s[i as int].0 != key);
            i += 1;
        }
        proof {
            lemma_entries_map_contains(s, key);
        }
        None
    }

    /// One fold step (the stack-folder operation): add `delta` to the value
    /// for this exact ordered call-stack, inserting the key when absent.
    pub fn fold(&mut self, stack: Vec<String>, delta: u64)
        requires
            old(self).wf(),
        ensures
            final(self).wf(),
            final(self)@ == spec_fold(old(self)@, stack.deep_view(), delta),
    {
        let ghost key = stack.deep_view();
        let ghost s0 = self.entries_seq();
        let n = self.entries.len();
        let mut i: usize = 0;
        while i < n
            invariant
                0 <= i <= n,
                n == self.entries@.len(),
                s0 == self.entries_seq(),
                s0 == old(self).entries_seq(),
                distinct_keys(s0),
                key == stack.deep_view(),
                forall|k: int| 0 <= k < i ==> (#[trigger] s0[k]).0 != key,
            decreases n - i,
        {
            if stack_eq(&self.entries[i].stack, &stack) {
                assert(s0[i as int].0 == key);
                proof {
                    lemma_entries_map_index(s0, i as int);
                }
                let ghost pre = self.entries@;
                let e = &mut self.entries[i];
                e.value = e.value.wrapping_add(delta);
                proof {
                    assert(self.entries@ == pre.update(i as int, self.entries@[i as int]));
                    assert(self.entries@[i as int].stack == pre[i as int].stack);
                    assert(self.entries@[i as int]@ == (key, wadd(s0[i as int].1, delta)));
                    assert(self.entries_seq() =~= s0.update(i as int, (key, wadd(s0[i as int].1, delta))));
                    lemma_entries_map_update(s0, i as int, wadd(s0[i as int].1, delta));
                    assert(distinct_keys(self.entries_seq()));
                }
                return;
            }
            assert(s0[i as int].0 != key);
            i += 1;
        }
        proof {
            lemma_entries_map_contains(s0, key);
            assert(!entries_map(s0).contains_key(key));
        }
        self.entries.push(FoldEntry { stack, value: delta });
        proof {
            assert(self.entries_seq() =~= s0.push((key, delta)));
            assert(self.entries_seq().drop_last() =~= s0);
            assert(entries_map(self.entries_seq()) == entries_map(s0).insert(key, delta));
            assert(distinct_keys(self.entries_seq()));
        }
    }
}

} // verus!
