use vstd::prelude::*;

verus! {

/// A pagination request: a start row and a number of rows.
///
/// `Counted` also asks for the two auxiliary totals.
#[derive(Debug, Clone, Copy, PartialEq, Eq, Structural)]
pub enum Page {
    Uncounted(u64, u64),
    Counted(u64, u64),
}

/// The two totals of a counted page.
#[derive(Debug, Clone, Copy, PartialEq, Eq, Structural)]
pub struct PageCounts {
    /// Rows that match the query, ignoring the LIMIT.
    pub unpaged_total: u32,
    /// Rows that the count-only statement reports.
    pub filtered_total: u32,
}

/// The LIMIT that a paged select carries, as (start, number of rows).
pub open spec fn limit_spec(page: Option<Page>) -> Option<(u64, u64)> {
    match page {
        None => None,
        Some(Page::Uncounted(s, n)) => Some((s, n)),
        Some(Page::Counted(s, n)) => Some((s, n)),
    }
}

/// Whether the page asks for the auxiliary totals.
pub open spec fn wants_counts_spec(page: Option<Page>) -> bool {
    page matches Some(Page::Counted(_, _))
}

/// The LIMIT to append to a root select: none without a page.
pub fn select_limit(page: Option<Page>) -> (r: Option<(u64, u64)>)
    ensures
        r == limit_spec(page),
{
    match page {
        None => None,
        Some(Page::Uncounted(s, n)) => Some((s, n)),
        Some(Page::Counted(s, n)) => Some((s, n)),
    }
}

/// The LIMIT of a count-only statement: never any, whatever the page.
pub fn count_limit(page: Option<Page>) -> (r: Option<(u64, u64)>)
    ensures
        r.is_none(),
{
    None
}

/// Whether the page asks for the auxiliary totals.
pub fn wants_counts(page: Option<Page>) -> (r: bool)
    ensures
        r == wants_counts_spec(page),
{
    match page {
        Some(Page::Counted(_, _)) => true,
        _ => false,
    }
}

/// The select modifier that makes the store remember the unpaged row count.
pub fn select_modifier(page: Option<Page>) -> (r: &'static str)
    ensures
        wants_counts_spec(page) ==> r@ == "SQL_CALC_FOUND_ROWS"@,
        !wants_counts_spec(page) ==> r@.len() == 0,
{
    if wants_counts(page) {
        "SQL_CALC_FOUND_ROWS"
    } else {
        proof {
            reveal_strlit("");
        }
        ""
    }
}

/// The counts that a load returns: present exactly for a counted page.
pub fn page_counts(page: Option<Page>, unpaged_total: u32, filtered_total: u32) -> (r: Option<PageCounts>)
    ensures
        wants_counts_spec(page) ==> r == Some(PageCounts { unpaged_total, filtered_total }),
        !wants_counts_spec(page) ==> r.is_none(),
{
    if wants_counts(page) {
        Some(PageCounts { unpaged_total, filtered_total })
    } else {
        None
    }
}

} // verus!
