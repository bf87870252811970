use crate::errors::Error;
use vstd::arithmetic::div_mod::{lemma_fundamental_div_mod, lemma_fundamental_div_mod_converse};
use vstd::arithmetic::mul::lemma_mul_inequality;
use vstd::prelude::*;

verus! {

/// Number of rows each page holds throughout this system.
pub const ITEMS_PER_PAGE: i64 = 4;

/// A bounded slice of an ordered result set, plus the total number of such
/// slices at the fixed page size.
#[derive(Debug)]
pub struct Page<T> {
    pub items: Vec<T>,
    pub total_pages: i64,
}

/// The smaller of two integers.
pub open spec fn min_int(a: int, b: int) -> int {
    if a <= b {
        a
    } else {
        b
    }
}

/// How many pages a result set of `n` rows fills at `per` rows per page:
/// the ceiling of `n / per`, and in particular zero exactly when the result
/// set is empty.
pub open spec fn total_pages_of(n: int, per: int) -> int
    recommends
        n >= 0,
        per >= 1,
{
    (n + per - 1) / per
}

/// The rows standing on 1-indexed page `page` of `rows` at `per` rows per
/// page.  A page past the end of the result set is empty, not an error.
pub open spec fn page_items<T>(rows: Seq<T>, page: int, per: int) -> Seq<T>
    recommends
        page >= 1,
        per >= 1,
{
    let off = (page - 1) * per;
    if off >= rows.len() {
        Seq::empty()
    } else {
        rows.subrange(off, min_int(off + per, rows.len() as int))
    }
}

/// All pages `1..=k` laid end to end.
pub open spec fn concat_pages<T>(rows: Seq<T>, per: int, k: int) -> Seq<T>
    recommends
        per >= 1,
    decreases k,
{
    if k <= 0 {
        Seq::empty()
    } else {
        concat_pages(rows, per, k - 1) + page_items(rows, k, per)
    }
}

/// The facts the page count rests on: the ceiling of `n / per` is
/// nonnegative, never larger than `n`, covers all `n` rows, wastes less
/// than one page, and vanishes exactly on an empty result set.
proof fn lemma_ceil_div_props(n: int, per: int)
    requires
        n >= 0,
        per >= 1,
    ensures
        0 <= total_pages_of(n, per) <= n,
        per * total_pages_of(n, per) >= n,
        per * total_pages_of(n, per) <= n + per - 1,
        total_pages_of(n, per) == 0 <==> n == 0,
{
    let t = total_pages_of(n, per);
    lemma_fundamental_div_mod(n + per - 1, per);
    let r = (n + per - 1) % per;
    assert(n + per - 1 == per * t + r);
    assert(0 <= r < per);
    if n == 0 {
        lemma_fundamental_div_mod_converse(per - 1, per, 0, per - 1);
    } else {
        if t <= 0 {
            assert(per * t <= 0) by (nonlinear_arith)
                requires
                    t <= 0,
                    per >= 1,
            ;
            assert(false);
        }
    }
    if t > n {
        lemma_mul_inequality(n + 1, t, per);
        assert((n + 1) * per <= t * per);
        assert(t * per == per * t) by (nonlinear_arith);
        assert((n + 1) * per == n * per + per) by (nonlinear_arith);
        assert(n * per >= n) by (nonlinear_arith)
            requires
                per >= 1,
                n >= 0,
        ;
        assert(false);
    }
}

/// Turns an ordered, already-filtered result set into the requested page
/// and the total page count.  The page number is 1-indexed; a page number
/// below 1 is rejected, while a page number past the last page yields an
/// empty item list with the correct total, not an error.
pub fn paginate<T>(rows: Vec<T>, page: i64, per_page: i64) -> (r: Result<Page<T>, Error>)
    requires
        per_page >= 1,
        rows@.len() <= i64::MAX as int,
    ensures
        page < 1 <==> r matches Err(Error::InvalidPage),
        page >= 1 <==> r is Ok,
        r matches Ok(p) ==> {
            &&& p.total_pages == total_pages_of(rows@.len() as int, per_page as int)
            &&& (p.total_pages == 0 <==> rows@.len() == 0)
            &&& p.items@ == page_items(rows@, page as int, per_page as int)
            &&& (page as int > p.total_pages ==> p.items@.len() == 0)
        },
{
    if page < 1 {
        return Err(Error::InvalidPage);
    }
    let ghost orig = rows@;
    let ghost n = rows@.len() as int;
    let ghost peri = per_page as int;
    proof {
        lemma_ceil_div_props(n, peri);
    }
    let len: usize = rows.len();
    let tp_wide: u128 = ((len as u128) + (per_page as u128) - 1) / (per_page as u128);
    let total_pages: i64 = tp_wide as i64;
    proof {
        assert((page as int - 1) * (per_page as int) <= 0x4000_0000_0000_0000_0000_0000_0000_0000)
            by (nonlinear_arith)
            requires
                0 <= page as int - 1 <= 0x7fff_ffff_ffff_ffff,
                1 <= per_page as int <= 0x7fff_ffff_ffff_ffff,
        ;
    }
    let off_wide: i128 = (page as i128 - 1) * (per_page as i128);
    proof {
        assert(off_wide == (page as int - 1) * peri);
        assert(off_wide >= 0) by (nonlinear_arith)
            requires
                off_wide == (page as int - 1) * peri,
                page as int >= 1,
                peri >= 1,
        ;
        if page as int > total_pages as int {
            lemma_mul_inequality(total_pages as int, page as int - 1, peri);
            assert(total_pages as int * peri == peri * (total_pages as int))
                by (nonlinear_arith);
        }
    }
    let mut source = rows;
    let mut items: Vec<T> = Vec::new();
    if off_wide < len as i128 {
        let start: usize = off_wide as usize;
        let rem: usize = len - start;
        let take: usize = if (rem as u128) <= (per_page as u128) {
            rem
        } else {
            per_page as usize
        };
        let mut j: usize = 0;
        while j < take
            invariant
                j <= take,
                start + take <= orig.len(),
                source@ == orig.subrange(0, start as int) + orig.subrange(
                    (start + j) as int,
                    orig.len() as int,
                ),
                items@ == orig.subrange(start as int, (start + j) as int),
            decreases take - j,
        {
            proof {
                assert(source@.len() == orig.len() - j);
            }
            let x = source.remove(start);
            items.push(x);
            j = j + 1;
            proof {
                assert(source@ =~= orig.subrange(0, start as int) + orig.subrange(
                    (start + j) as int,
                    orig.len() as int,
                ));
                assert(items@ =~= orig.subrange(start as int, (start + j) as int));
            }
        }
        proof {
            assert(items@ =~= page_items(orig, page as int, peri));
        }
    } else {
        proof {
            assert(items@ =~= page_items(orig, page as int, peri));
        }
    }
    Ok(Page { items, total_pages })
}

/// Laying pages `1..=total_pages` end to end reproduces the whole ordered
/// result set: no row is duplicated and none is left out.
pub proof fn lemma_pages_partition<T>(rows: Seq<T>, per: int)
    requires
        per >= 1,
    ensures
        concat_pages(rows, per, total_pages_of(rows.len() as int, per)) == rows,
{
    let n = rows.len() as int;
    let t = total_pages_of(n, per);
    lemma_ceil_div_props(n, per);
    lemma_concat_pages_prefix(rows, per, t);
    assert(min_int(t * per, n) == n) by {
        assert(t * per == per * t) by (nonlinear_arith);
    };
    assert(rows.take(n) =~= rows);
}

/// Pages `1..=k` laid end to end are exactly the first `k * per` rows,
/// clipped to the result set's length.
proof fn lemma_concat_pages_prefix<T>(rows: Seq<T>, per: int, k: int)
    requires
        per >= 1,
        k >= 0,
    ensures
        concat_pages(rows, per, k) == rows.take(min_int(k * per, rows.len() as int)),
    decreases k,
{
    let n = rows.len() as int;
    if k == 0 {
        assert(concat_pages(rows, per, 0) =~= rows.take(min_int(0, n)));
    } else {
        lemma_concat_pages_prefix(rows, per, k - 1);
        let off = (k - 1) * per;
        assert(k * per == off + per) by (nonlinear_arith)
            requires
                off == (k - 1) * per,
        ;
        assert(off >= 0) by (nonlinear_arith)
            requires
                k >= 1,
                per >= 1,
                off == (k - 1) * per,
        ;
        if off >= n {
            assert(min_int(off, n) == n);
            assert(concat_pages(rows, per, k) =~= rows.take(min_int(k * per, n)));
        } else {
            assert(concat_pages(rows, per, k) =~= rows.take(min_int(k * per, n)));
        }
    }
}

} // verus!
