//! The decisions of the log page that do not depend on the widget toolkit:
//! which entries a page shows, the paging line, and the texts of the search box.

use vstd::prelude::*;
use crate::text::{decimal, push_decimal, push_str};

verus! {

/// The last page number for `count` entries and `per_page` entries per
/// page (pages count from 0).
pub open spec fn last_page_for(count: nat, per_page: nat) -> nat {
    if count == 0 {
        0
    } else {
        ((count - 1) as nat) / per_page
    }
}

/// The last page number: `count.saturating_sub(1) / per_page`.
pub fn max_page(count: usize, per_page: usize) -> (r: usize)
    requires
        per_page > 0,
    ensures
        r == last_page_for(count as nat, per_page as nat),
        count > 0 ==> r < count,
{
    if count == 0 {
        0
    } else {
        let c: usize = count - 1;
        let r = c / per_page;
        assert(r <= c) by (nonlinear_arith)
            requires
                r == c / per_page,
                per_page > 0,
        ;
        r
    }
}

/// Whether cutting page `page` out of `count` entries panics: the first
/// position overflows, or lies past the entries.
pub open spec fn page_range_panics(count: nat, page: nat, per_page: nat) -> bool {
    page * per_page > usize::MAX || (count > 0 && page * per_page > count)
}

/// The positions `start..end` of the entries that page `page` shows: none
/// when there are no entries, otherwise from `page * per_page` to
/// `per_page` further or the end.
pub open spec fn page_range_of(count: nat, page: nat, per_page: nat) -> (nat, nat) {
    if count == 0 {
        (0, 0)
    } else {
        let start = page * per_page;
        (start, if start + per_page < count {
            (start + per_page) as nat
        } else {
            count
        })
    }
}

/// Decides [`page_range_panics`].
pub fn page_range_would_panic(count: usize, page: usize, per_page: usize) -> (b: bool)
    ensures
        b == page_range_panics(count as nat, page as nat, per_page as nat),
{
    match page.checked_mul(per_page) {
        None => true,
        Some(start) => count > 0 && start > count,
    }
}

/// The positions of the entries that page `page` shows.
pub fn page_range(count: usize, page: usize, per_page: usize) -> (r: (usize, usize))
    requires
        !page_range_panics(count as nat, page as nat, per_page as nat),
    ensures
        (r.0 as nat, r.1 as nat) == page_range_of(count as nat, page as nat, per_page as nat),
        r.0 <= r.1 <= count,
{
    if count == 0 {
        return (0, 0);
    }
    let start = page * per_page;
    let end = if per_page < count - start {
        start + per_page
    } else {
        count
    };
    (start, end)
}

/// The paging line: the page shown (counted from 1, or 0 when nothing is
/// shown), the number of pages, and the numbers of cached and shown entries.
pub open spec fn page_info(count: nat, page: nat, per_page: nat, total: nat) -> Seq<char> {
    "Page "@ + decimal(if count == 0 {
        0
    } else {
        page + 1
    }) + " of "@ + decimal(last_page_for(count, per_page) + 1) + "   |   Total Logs: "@ + decimal(
        total,
    ) + "   |   Filtered: "@ + decimal(count)
}

/// Writes the paging line.
pub fn page_info_text(count: usize, page: usize, per_page: usize, total: usize) -> (r: String)
    requires
        per_page > 0,
        count > 0 ==> page < usize::MAX,
    ensures
        r@ == page_info(count as nat, page as nat, per_page as nat, total as nat),
{
    let shown_page: usize = if count == 0 {
        0
    } else {
        page + 1
    };
    let pages = max_page(count, per_page);
    let mut r = String::new();
    push_str(&mut r, "Page ");
    push_decimal(&mut r, shown_page);
    push_str(&mut r, " of ");
    push_decimal(&mut r, pages + 1);
    push_str(&mut r, "   |   Total Logs: ");
    push_decimal(&mut r, total);
    push_str(&mut r, "   |   Filtered: ");
    push_decimal(&mut r, count);
    r
}

/// The hint in the empty search box.
pub fn filter_placeholder(regex_enabled: bool) -> (r: &'static str)
    ensures
        r@ == (if regex_enabled {
            "Search by regex..."@
        } else {
            "Search by message..."@
        }),
{
    if regex_enabled {
        "Search by regex..."
    } else {
        "Search by message..."
    }
}

/// The label of the button that turns regular expressions on and off.
pub fn regex_control_label(has_error: bool) -> (r: &'static str)
    ensures
        r@ == (if has_error {
            "!"@
        } else {
            ".*"@
        }),
{
    if has_error {
        "!"
    } else {
        ".*"
    }
}

/// The tooltip of that button: the error, if any, or whether regular
/// expressions are on.
pub fn regex_tooltip_text<'a>(error: Option<&'a str>, regex_enabled: bool) -> (r: &'a str)
    ensures
        r@ == match error {
            Some(e) => e@,
            None => if regex_enabled {
                "Regex search enabled"@
            } else {
                "Regex search disabled"@
            },
        },
{
    match error {
        Some(e) => e,
        None => if regex_enabled {
            "Regex search enabled"
        } else {
            "Regex search disabled"
        },
    }
}

} // verus!
