//! Shared listing types the collaborating handlers consume: pagination
//! parameters with their validation rule, and small closed enums.

use vstd::prelude::*;

use crate::roles::Role;

verus! {

/// A biological gender marker used by collaborating domain records.
#[derive(Clone, Copy, Debug, PartialEq, Eq, Structural)]
pub enum Gender {
    M,
    F,
}

/// A page of results, described for the client.
#[derive(Clone, Debug)]
pub struct Pagination {
    pub page: i64,
    pub page_size: i64,
    pub total: i64,
    pub total_pages: i64,
}

impl Pagination {
    /// Describe a page: `total_pages` is the number of `page_size`-sized
    /// pages needed for `total` rows, rounded up.
    pub fn new(page: i64, page_size: i64, total: i64) -> (r: Pagination)
        requires
            page_size >= 1,
            0 <= total <= i64::MAX - page_size,
        ensures
            r.page == page,
            r.page_size == page_size,
            r.total == total,
            r.total_pages == (total as int + page_size as int - 1) / (page_size as int),
    {
        let total_pages = (total + page_size - 1) / page_size;
        Pagination { page, page_size, total, total_pages }
    }
}

/// Client-supplied paging, before validation.
#[derive(Clone, Debug)]
pub struct PaginationParams {
    pub page: i64,
    pub page_size: i64,
}

impl PaginationParams {
    /// The rule every listing enforces.
    pub open spec fn spec_valid(&self) -> bool {
        self.page >= 1 && 1 <= self.page_size <= 100
    }

    /// Check the paging: pages start at 1 and a page holds 1 to 100 rows.
    pub fn validate(&self) -> (r: Result<(), String>)
        ensures
            r is Ok <==> self.spec_valid(),
            r matches Err(m) ==> (self.page < 1 ==> m@ == "Page must be at least 1"@) && (self.page
                >= 1 ==> m@ == "Page size must be between 1 and 100"@),
    {
        if self.page < 1 {
            return Err(String::from_str("Page must be at least 1"));
        }
        if self.page_size < 1 || self.page_size > 100 {
            return Err(String::from_str("Page size must be between 1 and 100"));
        }
        Ok(())
    }
}

/// Filters for the administrative user listing.
#[derive(Clone, Debug)]
pub struct UserQueryParams {
    pub pagination: PaginationParams,
    pub role: Option<Role>,
    pub active: Option<bool>,
}

} // verus!
