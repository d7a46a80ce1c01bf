//! Uniform pagination over a result sequence: page `p` at `limit` records
//! per page holds the records `p * limit` up to `(p + 1) * limit`, clamped
//! to the end. The pages in index order partition the sequence, so paging a
//! fixed record set yields every record exactly once.

use vstd::prelude::*;

use vstd::arithmetic::div_mod::lemma_fundamental_div_mod;

verus! {

/// One page of a larger result: the records of the page, the paging
/// parameters it was cut with, and the totals of the whole result.
pub struct PagedResponse<T> {
    pub page: usize,
    pub limit: usize,
    pub total: usize,
    pub number_of_pages: usize,
    pub data: Vec<T>,
}

/// The slice of `s` that page `p` holds at `limit` records per page.
pub open spec fn spec_page_slice<T>(s: Seq<T>, limit: int, p: int) -> Seq<T> {
    let len = s.len() as int;
    let start = if p * limit < len {
        p * limit
    } else {
        len
    };
    let end = if start + limit < len {
        start + limit
    } else {
        len
    };
    s.subrange(start, end)
}

/// How many pages a result of `len` records has at `limit` per page.
pub open spec fn spec_number_of_pages(len: int, limit: int) -> int {
    if limit <= 0 {
        0
    } else if len % limit == 0 {
        len / limit
    } else {
        len / limit + 1
    }
}

/// The first `n` pages, concatenated in index order.
pub open spec fn concat_pages<T>(s: Seq<T>, n: int, limit: int) -> Seq<T>
    decreases n,
{
    if n <= 0 {
        Seq::empty()
    } else {
        concat_pages(s, n - 1, limit) + spec_page_slice(s, limit, n - 1)
    }
}

/// The first `n` pages cover exactly the first `n * limit` records.
pub proof fn lemma_concat_pages_covers<T>(s: Seq<T>, n: int, limit: int)
    requires
        limit >= 1,
        n >= 0,
    ensures
        concat_pages(s, n, limit) == s.take(
            if n * limit < s.len() {
                n * limit
            } else {
                s.len() as int
            },
        ),
    decreases n,
{
    let len = s.len() as int;
    if n == 0 {
        assert(concat_pages(s, 0, limit) =~= s.take(0));
    } else {
        lemma_concat_pages_covers(s, n - 1, limit);
        assert((n - 1) * limit == n * limit - limit) by (nonlinear_arith);
        assert(concat_pages(s, n, limit) =~= s.take(
            if n * limit < len {
                n * limit
            } else {
                len
            },
        ));
    }
}

/// Pagination partitions a fixed record set: the pages `0` through
/// `number_of_pages - 1`, concatenated in index order, are exactly the
/// underlying records — every record appears exactly once, none is dropped
/// and none is repeated, whatever the page size.
pub proof fn lemma_pagination_partition<T>(s: Seq<T>, limit: int)
    requires
        limit >= 1,
    ensures
        concat_pages(s, spec_number_of_pages(s.len() as int, limit), limit) == s,
{
    let len = s.len() as int;
    let q = len / limit;
    let r = len % limit;
    lemma_fundamental_div_mod(len, limit);
    let n = spec_number_of_pages(len, limit);
    assert(n * limit >= len && n >= 0) by (nonlinear_arith)
        requires
            len == q * limit + r,
            0 <= r < limit,
            len >= 0,
            n == if r == 0 {
                q
            } else {
                q + 1
            },
    ;
    lemma_concat_pages_covers(s, n, limit);
    assert(s.take(len) =~= s);
}

/// Cut one page out of a full result. A page size of zero yields an empty
/// page and no page count.
pub fn get_paged_data<T>(data: Vec<T>, limit: usize, page: usize) -> (r: PagedResponse<T>)
    ensures
        r.page == page,
        r.limit == limit,
        r.total == data@.len(),
        r.number_of_pages == spec_number_of_pages(data@.len() as int, limit as int),
        limit >= 1 ==> r.data@ == spec_page_slice(data@, limit as int, page as int),
        limit == 0 ==> r.data@ == Seq::<T>::empty(),
{
    let mut data = data;
    let total = data.len();
    if limit == 0 {
        return PagedResponse { page, limit, total, number_of_pages: 0, data: Vec::new() };
    }
    let number_of_pages = if total % limit == 0 {
        total / limit
    } else {
        proof {
            assert(total / limit < total) by (nonlinear_arith)
                requires
                    limit >= 1,
                    total % limit != 0,
            ;
        }
        total / limit + 1
    };
    let wide: u128 = {
        let p: u128 = page as u64 as u128;
        let l: u128 = limit as u64 as u128;
        proof {
            assert(p * l <= u128::MAX) by (nonlinear_arith)
                requires
                    p <= u64::MAX,
                    l <= u64::MAX,
            ;
        }
        p * l
    };
    let start: usize = if wide >= total as u128 {
        total
    } else {
        wide as usize
    };
    let end: usize = if limit < total - start {
        start + limit
    } else {
        total
    };
    let mut tail = data.split_off(start);
    tail.truncate(end - start);
    PagedResponse { page, limit, total, number_of_pages, data: tail }
}

} // verus!
