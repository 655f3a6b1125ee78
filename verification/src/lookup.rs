use vstd::prelude::*;

verus! {

/// Index of the first element satisfying `p`, or -1.
pub open spec fn first_match<T>(s: Seq<T>, p: spec_fn(T) -> bool) -> int
    decreases s.len(),
{
    if s.len() == 0 {
        -1
    } else if p(s[0]) {
        0
    } else {
        let k = first_match(s.drop_first(), p);
        if k < 0 {
            -1
        } else {
            k + 1
        }
    }
}

pub proof fn lemma_first_match<T>(s: Seq<T>, p: spec_fn(T) -> bool)
    ensures
        -1 <= first_match(s, p) < s.len(),
        first_match(s, p) >= 0 ==> p(s[first_match(s, p)]),
        forall|j: int|
            0 <= j < s.len() && (first_match(s, p) < 0 || j < first_match(s, p)) ==> !p(
                #[trigger] s[j],
            ),
    decreases s.len(),
{
    if s.len() > 0 && !p(s[0]) {
        lemma_first_match(s.drop_first(), p);
        assert forall|j: int|
            0 <= j < s.len() && (first_match(s, p) < 0 || j < first_match(s, p)) implies !p(
                #[trigger] s[j],
            ) by {
            if j > 0 {
                assert(s[j] == s.drop_first()[j - 1]);
            }
        }
    }
}

/// The first match is found by scanning: if index `i` matches and no earlier
/// index does, it is the first match.
pub proof fn lemma_first_match_at<T>(s: Seq<T>, p: spec_fn(T) -> bool, i: int)
    requires
        0 <= i < s.len(),
        p(s[i]),
        forall|j: int| 0 <= j < i ==> !p(#[trigger] s[j]),
    ensures
        first_match(s, p) == i,
{
    lemma_first_match(s, p);
    let k = first_match(s, p);
    if 0 <= k < i {
        assert(!p(s[k]));
    }
    if k < 0 || k > i {
        assert(!p(s[i]));
    }
}

/// No index matches, so there is no first match.
pub proof fn lemma_first_match_none<T>(s: Seq<T>, p: spec_fn(T) -> bool)
    requires
        forall|j: int| 0 <= j < s.len() ==> !p(#[trigger] s[j]),
    ensures
        first_match(s, p) == -1,
{
    lemma_first_match(s, p);
    let k = first_match(s, p);
    if k >= 0 {
        assert(!p(s[k]));
    }
}

/// Replacing an element by one that `p` judges the same keeps the first match.
pub proof fn lemma_first_match_update<T>(s: Seq<T>, p: spec_fn(T) -> bool, r: int, x: T)
    requires
        0 <= r < s.len(),
        p(x) == p(s[r]),
    ensures
        first_match(s.update(r, x), p) == first_match(s, p),
    decreases s.len(),
{
    if r == 0 {
        assert(s.update(r, x).drop_first() =~= s.drop_first());
    } else {
        assert(s.update(r, x).drop_first() =~= s.drop_first().update(r - 1, x));
        assert(s.update(r, x)[0] == s[0]);
        lemma_first_match_update(s.drop_first(), p, r - 1, x);
    }
}

/// Where the first match is after an element joins the end.
pub proof fn lemma_first_match_push<T>(s: Seq<T>, p: spec_fn(T) -> bool, x: T)
    ensures
        first_match(s.push(x), p) == if first_match(s, p) >= 0 {
            first_match(s, p)
        } else if p(x) {
            s.len() as int
        } else {
            -1
        },
    decreases s.len(),
{
    if s.len() > 0 {
        assert(s.push(x).drop_first() =~= s.drop_first().push(x));
        assert(s.push(x)[0] == s[0]);
        lemma_first_match_push(s.drop_first(), p, x);
    } else {
        assert(s.push(x).drop_first() =~= Seq::<T>::empty());
        assert(s.push(x)[0] == x);
        assert(first_match(Seq::<T>::empty(), p) == -1);
    }
}

} // verus!
