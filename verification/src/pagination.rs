//! Pagination policy shared by every listing: pages are 1-based, each page
//! holds `PAGE_LIMIT` rows, and the page count is the ceiling of the row
//! count divided by the page size.

use vstd::prelude::*;

verus! {

/// Number of rows on one listing page.
pub const PAGE_LIMIT: u32 = 10;

/// Mathematical ceiling of `count / limit`.
pub open spec fn spec_ceil_div(count: int, limit: int) -> int
    recommends
        limit >= 1,
{
    (count + limit - 1) / limit
}

/// A position clamped to a length.
pub open spec fn clamp_at(x: int, len: int) -> int {
    if x < len {
        x
    } else {
        len
    }
}

/// One page of a listing: the rows from `offset` (clamped to the end)
/// through at most `limit` more.
pub open spec fn page_of<A>(s: Seq<A>, limit: int, offset: int) -> Seq<A>
    recommends
        limit >= 0,
        offset >= 0,
{
    s.subrange(clamp_at(offset, s.len() as int), clamp_at(offset + limit, s.len() as int))
}

/// A requested page number: absent means the first page.
pub struct PaginationQuery {
    pub page: Option<u32>,
}

/// The page to serve when the request carries no explicit page number.
pub fn resolve_page(requested: &PaginationQuery) -> (page: u32)
    ensures
        match requested.page {
            Some(p) => page == p,
            None => page == 1,
        },
{
    match requested.page {
        Some(p) => p,
        None => 1,
    }
}

/// Offset of the first row of a 1-based page.
pub fn page_offset(page: u32, limit: u32) -> (offset: u64)
    requires
        page >= 1,
    ensures
        offset == (page - 1) * limit,
{
    proof {
        vstd::arithmetic::mul::lemma_mul_upper_bound(
            (page - 1) as int,
            u32::MAX as int,
            limit as int,
            u32::MAX as int,
        );
    }
    (page as u64 - 1) * (limit as u64)
}

/// Total number of pages needed for `count` rows at `limit` rows a page.
pub fn total_pages(count: i64, limit: u32) -> (pages: u32)
    requires
        0 <= count <= i32::MAX,
        limit >= 1,
    ensures
        pages == spec_ceil_div(count as int, limit as int),
{
    let c = count as u64;
    let l = limit as u64;
    let q = c / l;
    let r = c % l;
    proof {
        let ci = c as int;
        let li = l as int;
        vstd::arithmetic::div_mod::lemma_fundamental_div_mod(ci, li);
        if ci % li == 0 {
            vstd::arithmetic::div_mod::lemma_fundamental_div_mod_converse(
                ci + li - 1,
                li,
                ci / li,
                li - 1,
            );
        } else {
            vstd::arithmetic::mul::lemma_mul_is_distributive_add_other_way(li, ci / li, 1);
            vstd::arithmetic::mul::lemma_mul_is_commutative(li, ci / li);
            vstd::arithmetic::div_mod::lemma_fundamental_div_mod_converse(
                ci + li - 1,
                li,
                ci / li + 1,
                ci % li - 1,
            );
        }
        vstd::arithmetic::div_mod::lemma_div_nonincreasing(ci, li);
    }
    if r == 0 {
        q as u32
    } else {
        (q + 1) as u32
    }
}

} // verus!
