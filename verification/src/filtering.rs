use vstd::prelude::*;

verus! {

/// A sequence is sorted in nonincreasing order of `key`: rows with the
/// largest key come first, which is how every listing of this library is
/// ordered.
pub open spec fn sorted_desc_by<T>(s: Seq<T>, key: spec_fn(T) -> int) -> bool {
    forall|i: int, j: int| 0 <= i < j < s.len() ==> key(#[trigger] s[i]) >= key(#[trigger] s[j])
}

/// Every row the filter keeps comes from the source sequence.
pub proof fn lemma_filter_in<T>(s: Seq<T>, pred: spec_fn(T) -> bool)
    ensures
        forall|x: T| #[trigger] s.filter(pred).contains(x) ==> s.contains(x),
    decreases s.len(),
{
    reveal(Seq::filter);
    if s.len() > 0 {
        let dl = s.drop_last();
        lemma_filter_in(dl, pred);
        assert forall|x: T| #[trigger] s.filter(pred).contains(x) implies s.contains(x) by {
            let f = s.filter(pred);
            let i = choose|i: int| 0 <= i < f.len() && f[i] == x;
            if pred(s.last()) && i == f.len() - 1 {
                assert(s[s.len() - 1] == x);
            } else {
                assert(dl.filter(pred)[i] == x);
                assert(dl.filter(pred).contains(x));
                let j = choose|j: int| 0 <= j < dl.len() && dl[j] == x;
                assert(s[j] == x);
            }
        }
    }
}

/// A row stands in the filtered sequence exactly when it stands in the
/// source and satisfies the predicate.
pub proof fn lemma_filter_membership<T>(s: Seq<T>, pred: spec_fn(T) -> bool)
    ensures
        forall|x: T| #[trigger] s.filter(pred).contains(x) <==> (s.contains(x) && pred(x)),
{
    lemma_filter_in(s, pred);
    assert forall|x: T| #[trigger] s.filter(pred).contains(x) implies (s.contains(x) && pred(
        x,
    )) by {
        let f = s.filter(pred);
        let i = choose|i: int| 0 <= i < f.len() && f[i] == x;
        s.lemma_filter_pred(pred, i);
    }
    assert forall|x: T| s.contains(x) && pred(x) implies #[trigger] s.filter(pred).contains(
        x,
    ) by {
        let i = choose|i: int| 0 <= i < s.len() && s[i] == x;
        s.lemma_filter_contains(pred, i);
    }
}

/// Filtering keeps the source's order: a nonincreasing sequence stays
/// nonincreasing.
pub proof fn lemma_filter_sorted_desc<T>(
    s: Seq<T>,
    pred: spec_fn(T) -> bool,
    key: spec_fn(T) -> int,
)
    requires
        sorted_desc_by(s, key),
    ensures
        sorted_desc_by(s.filter(pred), key),
    decreases s.len(),
{
    reveal(Seq::filter);
    if s.len() > 0 {
        let dl = s.drop_last();
        assert(sorted_desc_by(dl, key)) by {
            assert forall|i: int, j: int| 0 <= i < j < dl.len() implies key(#[trigger] dl[i])
                >= key(#[trigger] dl[j]) by {
                assert(dl[i] == s[i] && dl[j] == s[j]);
            }
        }
        lemma_filter_sorted_desc(dl, pred, key);
        if pred(s.last()) {
            let fd = dl.filter(pred);
            let f = s.filter(pred);
            assert forall|i: int, j: int| 0 <= i < j < f.len() implies key(#[trigger] f[i])
                >= key(#[trigger] f[j]) by {
                if j < f.len() - 1 {
                    assert(f[i] == fd[i] && f[j] == fd[j]);
                } else {
                    assert(f[i] == fd[i]);
                    assert(fd.contains(fd[i]));
                    lemma_filter_in(dl, pred);
                    assert(dl.contains(fd[i]));
                    let j0 = choose|j0: int| 0 <= j0 < dl.len() && dl[j0] == fd[i];
                    assert(s[j0] == fd[i]);
                    assert(key(s[j0]) >= key(s[s.len() - 1]));
                    assert(f[j] == s.last());
                }
            }
        }
    }
}

/// A sequence none of whose rows satisfies the predicate filters to
/// nothing.
pub proof fn lemma_filter_none<T>(s: Seq<T>, pred: spec_fn(T) -> bool)
    requires
        forall|k: int| 0 <= k < s.len() ==> !pred(#[trigger] s[k]),
    ensures
        s.filter(pred).len() == 0,
    decreases s.len(),
{
    reveal(Seq::filter);
    if s.len() > 0 {
        let dl = s.drop_last();
        assert(forall|k: int| 0 <= k < dl.len() ==> !pred(#[trigger] dl[k])) by {
            assert(forall|k: int| 0 <= k < dl.len() ==> dl[k] == #[trigger] s[k]);
        }
        lemma_filter_none(dl, pred);
    }
}

/// The first row of the source that satisfies the predicate heads the
/// filtered sequence.
pub proof fn lemma_first_match<T>(s: Seq<T>, pred: spec_fn(T) -> bool, i: int)
    requires
        0 <= i < s.len(),
        pred(s[i]),
        forall|k: int| 0 <= k < i ==> !pred(#[trigger] s[k]),
    ensures
        s.filter(pred).len() > 0,
        s.filter(pred)[0] == s[i],
    decreases s.len(),
{
    reveal(Seq::filter);
    let dl = s.drop_last();
    if i == s.len() - 1 {
        assert(forall|k: int| 0 <= k < dl.len() ==> !pred(#[trigger] dl[k])) by {
            assert(forall|k: int| 0 <= k < dl.len() ==> dl[k] == #[trigger] s[k]);
        }
        lemma_filter_none(dl, pred);
        assert(s.filter(pred) == dl.filter(pred).push(s.last()));
        assert(s.filter(pred)[0] == s.last());
    } else {
        assert(dl[i] == s[i]);
        assert(forall|k: int| 0 <= k < i ==> dl[k] == #[trigger] s[k]);
        lemma_first_match(dl, pred, i);
        assert(s.filter(pred)[0] == dl.filter(pred)[0]);
    }
}

/// The step an element-by-element scan takes: extending the scanned prefix
/// by one row extends its filtered form exactly when the row satisfies the
/// predicate.
pub proof fn lemma_filter_take_step<T>(s: Seq<T>, pred: spec_fn(T) -> bool, i: int)
    requires
        0 <= i < s.len(),
    ensures
        s.take(i + 1).filter(pred) == if pred(s[i]) {
            s.take(i).filter(pred).push(s[i])
        } else {
            s.take(i).filter(pred)
        },
{
    assert(s.take(i + 1) =~= s.take(i).push(s[i]));
    s.take(i).lemma_filter_push(s[i], pred);
}

/// Scanning the whole sequence scans every row.
pub proof fn lemma_take_all<T>(s: Seq<T>)
    ensures
        s.take(s.len() as int) == s,
{
    assert(s.take(s.len() as int) =~= s);
}

} // verus!
