use crate::tree::DT;
use core::cmp::Ordering;
use vstd::laws_cmp::obeys_partial_cmp_spec_properties;
use vstd::prelude::*;
use vstd::std_specs::cmp::{PartialEqSpec, PartialOrdSpec};

verus! {

/// Comparison rule used to pick the next child during a traversal.
///
/// The first five test each child in turn, `value <op> decision`, and the
/// first child that passes is taken. `Min` takes the child with the
/// smallest decision if the value lies strictly below it, `Max` the child
/// with the largest decision if the value lies strictly above it, and
/// `Median` sorts the children by decision and takes the one at position
/// `len / 2` if the value equals its decision.
#[derive(Debug, Clone, Copy, PartialEq, Eq, Structural)]
pub enum Op {
    Equal,
    Greater,
    GreaterEqual,
    Less,
    LessEqual,
    Min,
    Max,
    Median,
}

/// The operators that look at all the children together.
pub open spec fn is_aggregate(op: Op) -> bool {
    op is Min || op is Max || op is Median
}

/// `value <op> d` for the operators that test one child at a time.
pub open spec fn satisfies<U: PartialOrd>(op: Op, value: U, d: U) -> bool {
    match op {
        Op::Equal => value.eq_spec(&d),
        Op::Greater => value.partial_cmp_spec(&d) == Some(Ordering::Greater),
        Op::GreaterEqual => value.partial_cmp_spec(&d) matches Some(
            Ordering::Greater
            | Ordering::Equal,
        ),
        Op::Less => value.partial_cmp_spec(&d) == Some(Ordering::Less),
        Op::LessEqual => value.partial_cmp_spec(&d) matches Some(Ordering::Less | Ordering::Equal),
        _ => false,
    }
}

/// The decisions of the children of `n`, in order.
pub open spec fn child_decisions<T, U>(t: &DT<T, U>, n: int) -> Seq<Option<U>> {
    t.children_of(n).map_values(|c: usize| t.decision_of(c as int))
}

/// Child `k` has a decision, and `value` passes the test against it.
pub open spec fn hit<U: PartialOrd>(ds: Seq<Option<U>>, k: int, op: Op, value: U) -> bool {
    ds[k] matches Some(d) && satisfies(op, value, d)
}

/// Child `k` is the first child that passes the test.
pub open spec fn first_hit<U: PartialOrd>(ds: Seq<Option<U>>, k: int, op: Op, value: U) -> bool {
    &&& 0 <= k < ds.len()
    &&& hit(ds, k, op, value)
    &&& forall|j: int| 0 <= j < k ==> !hit(ds, j, op, value)
}

/// `a` beats `b`: strictly larger when looking for the maximum, strictly
/// smaller when looking for the minimum.
pub open spec fn beats<U: PartialOrd>(max: bool, a: U, b: U) -> bool {
    if max {
        a.partial_cmp_spec(&b) == Some(Ordering::Greater)
    } else {
        a.partial_cmp_spec(&b) == Some(Ordering::Less)
    }
}

/// Position of the extreme decision among the first `len` entries of `ds`,
/// scanning left to right and keeping the earlier entry on a tie; entries
/// without a decision are passed over.
pub open spec fn extreme_in<U: PartialOrd>(ds: Seq<Option<U>>, len: nat, max: bool) -> Option<int>
    decreases len,
{
    if len == 0 {
        None
    } else {
        let j = len - 1;
        let b = extreme_in(ds, (len - 1) as nat, max);
        match ds[j] {
            None => b,
            Some(dj) => match b {
                None => Some(j),
                Some(bi) => if beats(max, dj, ds[bi]->0) {
                    Some(j)
                } else {
                    b
                },
            },
        }
    }
}

/// The scan of `extreme_in` finds an entry exactly when some entry has a
/// decision, and no decision beats the one it finds.
pub proof fn lemma_extreme_in_is_extreme<U: PartialOrd>(ds: Seq<Option<U>>, len: nat, max: bool)
    requires
        len <= ds.len(),
        obeys_partial_cmp_spec_properties::<U>(),
    ensures
        extreme_in(ds, len, max) is None <==> forall|j: int| 0 <= j < len ==> ds[j] is None,
        extreme_in(ds, len, max) matches Some(k) ==> {
            &&& 0 <= k < len
            &&& ds[k] is Some
            &&& forall|j: int|
                0 <= j < len && ds[j] is Some ==> !beats(max, #[trigger] ds[j]->0, ds[k]->0)
        },
    decreases len,
{
    reveal(obeys_partial_cmp_spec_properties);
    if len > 0 {
        let j = len - 1;
        lemma_extreme_in_is_extreme(ds, (len - 1) as nat, max);
        let b = extreme_in(ds, (len - 1) as nat, max);
        if let Some(dj) = ds[j] {
            if let Some(bi) = b {
                if beats(max, dj, ds[bi]->0) {
                    assert forall|i: int| 0 <= i < len && ds[i] is Some implies !beats(
                        max,
                        #[trigger] ds[i]->0,
                        dj,
                    ) by {
                        if i < j && beats(max, ds[i]->0, dj) {
                            assert(beats(max, ds[i]->0, ds[bi]->0));
                        }
                        if i == j && max {
                            assert(dj.partial_cmp_spec(&dj) == Some(core::cmp::Ordering::Greater)
                                ==> dj.partial_cmp_spec(&dj) == Some(core::cmp::Ordering::Less));
                        }
                    }
                } else {
                    assert(!beats(max, ds[j]->0, ds[bi]->0));
                }
            } else {
                assert forall|i: int| 0 <= i < len && ds[i] is Some implies !beats(
                    max,
                    #[trigger] ds[i]->0,
                    dj,
                ) by {
                    if i == j && max {
                        assert(dj.partial_cmp_spec(&dj) == Some(core::cmp::Ordering::Greater)
                            ==> dj.partial_cmp_spec(&dj) == Some(core::cmp::Ordering::Less));
                    }
                }
            }
        }
    }
}

/// The child that `Min` (or, with `max`, `Max`) takes from node `n`.
pub open spec fn extreme_pick<T, U: PartialOrd>(t: &DT<T, U>, n: int, max: bool, value: U) -> Option<
    usize,
> {
    let ds = child_decisions(t, n);
    match extreme_in(ds, ds.len(), max) {
        Some(k) => if beats(max, value, ds[k]->0) {
            Some(t.children_of(n)[k])
        } else {
            None
        },
        None => None,
    }
}

/// The child that `Median` takes from node `n`, whose children are sorted.
pub open spec fn median_pick<T, U: PartialOrd>(t: &DT<T, U>, n: int, value: U) -> Option<usize> {
    let ch = t.children_of(n);
    if ch.len() == 0 {
        None
    } else {
        let k = (ch.len() / 2) as int;
        match t.decision_of(ch[k] as int) {
            Some(d) => if value.eq_spec(&d) {
                Some(ch[k])
            } else {
                None
            },
            None => None,
        }
    }
}

/// Any two decisions among the children of `n` can be compared.
pub open spec fn comparable_children<T, U: PartialOrd>(t: &DT<T, U>, n: int) -> bool {
    let ds = child_decisions(t, n);
    forall|j: int, k: int|
        #![trigger ds[j], ds[k]]
        0 <= j < ds.len() && 0 <= k < ds.len() && ds[j] is Some && ds[k] is Some ==> (
        ds[j]->0).partial_cmp_spec(&ds[k]->0) is Some
}

/// Tests `value <op> d` for one of the operators that test one child at a time.
fn test<U: PartialOrd + Copy>(op: Op, value: U, d: U) -> (r: bool)
    requires
        U::obeys_eq_spec(),
        U::obeys_partial_cmp_spec(),
    ensures
        r == satisfies(op, value, d),
{
    match op {
        Op::Equal => value == d,
        Op::Greater => value > d,
        Op::GreaterEqual => value >= d,
        Op::Less => value < d,
        Op::LessEqual => value <= d,
        _ => false,
    }
}

/// The first child of `n` whose decision passes the test.
fn pick_first<T, U: PartialOrd + Copy>(t: &DT<T, U>, n: usize, op: Op, value: U) -> (r: Option<
    usize,
>)
    requires
        t.wf(),
        t.valid(n as int),
        U::obeys_eq_spec(),
        U::obeys_partial_cmp_spec(),
    ensures
        r is None <==> forall|k: int|
            0 <= k < t.children_of(n as int).len() ==> !hit(child_decisions(t, n as int), k, op, value),
        r matches Some(c) ==> exists|k: int|
            first_hit(child_decisions(t, n as int), k, op, value) && t.children_of(n as int)[k] == c,
        r matches Some(c) ==> t.valid(c as int),
{
    let ghost ds = child_decisions(t, n as int);
    let len = t.len(n);
    let mut k: usize = 0;
    while k < len
        invariant
            t.wf(),
            t.valid(n as int),
            len == t.children_of(n as int).len(),
            ds == child_decisions(t, n as int),
            k <= len,
            forall|j: int| 0 <= j < k ==> !hit(ds, j, op, value),
            U::obeys_eq_spec(),
            U::obeys_partial_cmp_spec(),
        decreases len - k,
    {
        let c = t.child_index(n, k).unwrap();
        proof {
            t.lemma_child_valid(n as int, k as int);
        }
        if let Some(d) = t.decision(c) {
            if test(op, value, d) {
                proof {
                    assert(first_hit(ds, k as int, op, value));
                }
                return Some(c);
            }
        }
        k = k + 1;
    }
    None
}

/// The child of `n` that `Min` (or, with `max`, `Max`) takes.
fn pick_extreme<T, U: PartialOrd + Copy>(t: &DT<T, U>, n: usize, max: bool, value: U) -> (r: Option<
    usize,
>)
    requires
        t.wf(),
        t.valid(n as int),
        U::obeys_partial_cmp_spec(),
    ensures
        r == extreme_pick(t, n as int, max, value),
        r matches Some(c) ==> t.valid(c as int),
{
    let ghost ds = child_decisions(t, n as int);
    let len = t.len(n);
    let mut best: Option<usize> = None;
    let mut best_d: Option<U> = None;
    let mut k: usize = 0;
    while k < len
        invariant
            t.wf(),
            t.valid(n as int),
            len == t.children_of(n as int).len(),
            ds == child_decisions(t, n as int),
            k <= len,
            extreme_in(ds, k as nat, max) == (match best {
                Some(b) => Some(b as int),
                None => None::<int>,
            }),
            best matches Some(b) ==> b < k && ds[b as int] is Some && best_d == ds[b as int],
            best is None ==> best_d is None,
            U::obeys_partial_cmp_spec(),
        decreases len - k,
    {
        let c = t.child_index(n, k).unwrap();
        proof {
            t.lemma_child_valid(n as int, k as int);
            assert(ds[k as int] == t.decision_of(c as int));
        }
        if let Some(d) = t.decision(c) {
            match best_d {
                Some(bd) => {
                    let wins = if max {
                        d > bd
                    } else {
                        d < bd
                    };
                    if wins {
                        best = Some(k);
                        best_d = Some(d);
                    }
                },
                None => {
                    best = Some(k);
                    best_d = Some(d);
                },
            }
        }
        k = k + 1;
    }
    proof {
        assert(ds.len() == len);
        if let Some(b) = best {
            t.lemma_child_valid(n as int, b as int);
        }
    }
    match best {
        Some(b) => {
            let bd = best_d.unwrap();
            let passes = if max {
                value > bd
            } else {
                value < bd
            };
            if passes {
                t.child_index(n, b)
            } else {
                None
            }
        },
        None => None,
    }
}

/// The child of `n` that `Median` takes, once the children are sorted.
fn pick_median<T, U: PartialOrd + Copy>(t: &DT<T, U>, n: usize, value: U) -> (r: Option<usize>)
    requires
        t.wf(),
        t.valid(n as int),
        U::obeys_eq_spec(),
    ensures
        r == median_pick(t, n as int, value),
        r matches Some(c) ==> t.valid(c as int),
{
    let len = t.len(n);
    if len == 0 {
        return None;
    }
    let c = t.child_index(n, len / 2).unwrap();
    proof {
        t.lemma_child_valid(n as int, (len / 2) as int);
    }
    match t.decision(c) {
        Some(d) => if value == d {
            Some(c)
        } else {
            None
        },
        None => None,
    }
}

/// A cursor that walks a tree downwards, one edge at a time.
pub struct Traverse<T, U> {
    tree: DT<T, U>,
    current: usize,
}

impl<T, U> Traverse<T, U> {
    /// The tree walked by the cursor.
    pub closed spec fn spec_tree(&self) -> DT<T, U> {
        self.tree
    }

    /// The node the cursor stands on.
    pub closed spec fn position(&self) -> usize {
        self.current
    }

    pub open spec fn wf(&self) -> bool {
        &&& self.spec_tree().wf()
        &&& self.spec_tree().valid(self.position() as int)
    }

    /// A cursor on `tree`, standing on `node`.
    pub fn start(tree: DT<T, U>, node: usize) -> (r: Self)
        requires
            tree.wf(),
            tree.valid(node as int),
        ensures
            r.wf(),
            r.spec_tree() == tree,
            r.position() == node,
    {
        Traverse { tree, current: node }
    }

    /// The node the cursor stands on.
    pub fn dt(&self) -> (r: usize)
        ensures
            r == self.position(),
    {
        self.current
    }

    /// The tree walked by the cursor.
    pub fn tree(&self) -> (r: &DT<T, U>)
        ensures
            *r == self.spec_tree(),
    {
        &self.tree
    }

    /// Gives the tree back.
    pub fn into_tree(self) -> (r: DT<T, U>)
        ensures
            r == self.spec_tree(),
    {
        self.tree
    }
}

impl<T, U: PartialOrd + Copy> Traverse<T, U> {
    /// Moves to the child of the current node that `op` selects for
    /// `value`, and returns it; returns `None` and stays put when no child
    /// qualifies. `Median` leaves the children of the current node sorted
    /// by decision.
    pub fn traverse(&mut self, value: U, op: Op) -> (r: Option<usize>)
        requires
            old(self).wf(),
            U::obeys_eq_spec(),
            U::obeys_partial_cmp_spec(),
            op is Median ==> obeys_partial_cmp_spec_properties::<U>(),
            is_aggregate(op) ==> comparable_children(
                &old(self).spec_tree(),
                old(self).position() as int,
            ),
        ensures
            final(self).wf(),
            final(self).position() == (match r {
                Some(c) => c,
                None => old(self).position(),
            }),
            !(op is Median) ==> final(self).spec_tree() == old(self).spec_tree(),
            ({
                let t = old(self).spec_tree();
                let n = old(self).position() as int;
                let ds = child_decisions(&t, n);
                &&& !is_aggregate(op) ==> (r is None <==> forall|k: int|
                    0 <= k < ds.len() ==> !hit(ds, k, op, value))
                &&& !is_aggregate(op) ==> (r matches Some(c) ==> exists|k: int|
                    first_hit(ds, k, op, value) && t.children_of(n)[k] == c)
                &&& op is Min ==> r == extreme_pick(&t, n, false, value)
                &&& op is Max ==> r == extreme_pick(&t, n, true, value)
                &&& op is Median ==> {
                    &&& final(self).spec_tree().reordered_at(&t, n)
                    &&& final(self).spec_tree().children_sorted(n)
                    &&& r == median_pick(&final(self).spec_tree(), n, value)
                }
            }),
    {
        let n = self.current;
        let picked = match op {
            Op::Min => pick_extreme(&self.tree, n, false, value),
            Op::Max => pick_extreme(&self.tree, n, true, value),
            Op::Median => {
                self.tree.sort_children(n);
                pick_median(&self.tree, n, value)
            },
            _ => pick_first(&self.tree, n, op, value),
        };
        if let Some(c) = picked {
            self.current = c;
        }
        picked
    }
}

} // verus!
