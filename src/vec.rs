use vstd::laws_eq::obeys_concrete_eq;
use vstd::prelude::*;
use vstd::std_specs::cmp::PartialEqSpec;

verus! {

/// The items of `a` that also occur in `b`, in the order of `a`.
pub open spec fn common<T>(a: Seq<T>, b: Seq<T>) -> Seq<T> {
    a.filter(|x: T| b.contains(x))
}

/// The items of the last of `sets` that occur in every other one, in the
/// order of the last; empty when there are no sets.
pub open spec fn common_all<T>(sets: Seq<Seq<T>>) -> Seq<T> {
    if sets.len() == 0 {
        Seq::empty()
    } else {
        sets.last().filter(|x: T| forall|i: int| 0 <= i < sets.len() - 1 ==> #[trigger] sets[i].contains(x))
    }
}

/// Filtering twice is filtering by both predicates.
pub proof fn lemma_filter_filter<T>(s: Seq<T>, p: spec_fn(T) -> bool, q: spec_fn(T) -> bool)
    ensures
        s.filter(p).filter(q) == s.filter(|x: T| p(x) && q(x)),
    decreases s.len(),
{
    reveal(Seq::filter);
    let pq = |x: T| p(x) && q(x);
    if s.len() == 0 {
        assert(s.filter(p).filter(q) =~= s.filter(pq));
    } else {
        let t = s.drop_last();
        lemma_filter_filter(t, p, q);
        let x = s.last();
        assert(s.filter(p) == if p(x) { t.filter(p).push(x) } else { t.filter(p) });
        if p(x) {
            assert(t.filter(p).push(x).drop_last() =~= t.filter(p));
        }
    }
}

/// Filtering keeps a sequence free of duplicates.
pub proof fn lemma_filter_no_duplicates<T>(s: Seq<T>, p: spec_fn(T) -> bool)
    requires
        s.no_duplicates(),
    ensures
        s.filter(p).no_duplicates(),
    decreases s.len(),
{
    reveal(Seq::filter);
    if s.len() > 0 {
        let t = s.drop_last();
        assert(t.no_duplicates());
        lemma_filter_no_duplicates(t, p);
        if p(s.last()) {
            if t.filter(p).contains(s.last()) {
                t.lemma_filter_contains_rev(p, s.last());
                let j = choose|j: int| 0 <= j < t.len() && t[j] == s.last();
                assert(s[j] == s[s.len() - 1]);
            }
        }
    }
}

/// Whether `item` occurs in `v`.
pub fn contains_item<T: PartialEq>(v: &Vec<T>, item: &T) -> (r: bool)
    requires
        obeys_concrete_eq::<T>(),
    ensures
        r == v@.contains(*item),
{
    proof {
        reveal(obeys_concrete_eq);
    }
    let mut i: usize = 0;
    while i < v.len()
        invariant
            0 <= i <= v@.len(),
            obeys_concrete_eq::<T>(),
            T::obeys_eq_spec(),
            forall|x: T, y: T| x.eq_spec(&y) <==> (x == y),
            forall|j: int| 0 <= j < i ==> v@[j] != *item,
        decreases v@.len() - i,
    {
        if v[i].eq(item) {
            return true;
        }
        i = i + 1;
    }
    false
}

/// The items of `vec1` that also occur in `vec2`, in the order of `vec1`.
pub fn intersection<T: PartialEq>(vec1: Vec<T>, vec2: Vec<T>) -> (r: Vec<T>)
    requires
        obeys_concrete_eq::<T>(),
    ensures
        r@ == common(vec1@, vec2@),
{
    let ghost orig = vec1@;
    let total = vec1.len();
    let ghost pred = |x: T| vec2@.contains(x);
    let mut rest = vec1;
    let mut out: Vec<T> = Vec::new();
    let mut k: usize = 0;
    while rest.len() > 0
        invariant
            obeys_concrete_eq::<T>(),
            pred == (|x: T| vec2@.contains(x)),
            k + rest@.len() == orig.len(),
            orig.len() == total,
            rest@ == orig.subrange(k as int, orig.len() as int),
            out@ == orig.subrange(0, k as int).filter(pred),
        decreases rest@.len(),
    {
        let item = rest.remove(0);
        let ghost pre = orig.subrange(0, k as int);
        let ghost next = orig.subrange(0, k + 1);
        assert(next.drop_last() =~= pre);
        assert(next.last() == item);
        proof {
            reveal(Seq::filter);
        }
        if contains_item(&vec2, &item) {
            out.push(item);
        }
        k = k + 1;
        assert(rest@ =~= orig.subrange(k as int, orig.len() as int));
    }
    assert(orig.subrange(0, k as int) =~= orig);
    out
}

/// The items of the last vector that occur in every other one, in the order
/// of the last; empty when `sets` is empty.
pub fn intersections<T: PartialEq>(sets: Vec<Vec<T>>) -> (r: Vec<T>)
    requires
        obeys_concrete_eq::<T>(),
    ensures
        r@ == common_all(sets@.map_values(|v: Vec<T>| v@)),
{
    let ghost all = sets@.map_values(|v: Vec<T>| v@);
    let mut sets = sets;
    let n = sets.len();
    if n == 0 {
        return Vec::new();
    }
    let mut acc = sets.pop().unwrap();
    let ghost last = all.last();
    assert(acc@ == last);
    proof {
        let p0 = |x: T| forall|i: int| (n - 1) <= i < n - 1 ==> #[trigger] all[i].contains(x);
        assert(last.filter(p0) =~= last) by {
            let t = |x: T| true;
            assert(p0 =~= t);
            filter_true(last);
        }
    }
    while sets.len() > 0
        invariant
            obeys_concrete_eq::<T>(),
            sets@.len() < n,
            all.len() == n,
            all.last() == last,
            forall|i: int| 0 <= i < sets@.len() ==> #[trigger] sets@[i]@ == all[i],
            acc@ == last.filter(
                |x: T| forall|i: int| sets@.len() <= i < n - 1 ==> #[trigger] all[i].contains(x),
            ),
        decreases sets@.len(),
    {
        let ghost k = sets@.len() - 1;
        let s = sets.pop().unwrap();
        assert(s@ == all[k]);
        let ghost p = |x: T| forall|i: int| k + 1 <= i < n - 1 ==> #[trigger] all[i].contains(x);
        let ghost q = |x: T| all[k].contains(x);
        acc = intersection(acc, s);
        proof {
            lemma_filter_filter(last, p, q);
            let pq = |x: T| p(x) && q(x);
            let target = |x: T| forall|i: int| k <= i < n - 1 ==> #[trigger] all[i].contains(x);
            assert(pq =~= target) by {
                assert forall|x: T| #[trigger] pq(x) == target(x) by {
                    if pq(x) {
                        assert forall|i: int| k <= i < n - 1 implies #[trigger] all[i].contains(x) by {
                            if i > k {
                                assert(p(x));
                            }
                        }
                    }
                }
            }
        }
    }
    acc
}

proof fn filter_true<T>(s: Seq<T>)
    ensures
        s.filter(|x: T| true) == s,
    decreases s.len(),
{
    reveal(Seq::filter);
    if s.len() > 0 {
        filter_true(s.drop_last());
        assert(s.drop_last().push(s.last()) =~= s);
    } else {
        assert(s.filter(|x: T| true) =~= s);
    }
}

} // verus!
