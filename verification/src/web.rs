//! The decisions of the request handlers, apart from HTTP itself: what the
//! edit page shows, what an update writes, and where a keyword redirects.

use vstd::prelude::*;

use crate::models::{placeholder_v, Shortlink, ShortlinkV};

verus! {

/// What the edit page works on for a keyword: the record found for it, or
/// a fresh placeholder, in either case carrying the keyword from the
/// request path; and whether the page creates a new record (no redirect
/// target configured yet).
pub fn edit_view(found: Option<Shortlink>, keyword: String) -> (r: (Shortlink, bool))
    ensures
        ({
            let base = match found {
                Some(rec) => rec@,
                None => placeholder_v(keyword@),
            };
            r.0@ == ShortlinkV { keyword: keyword@, ..base } && r.1 == (base.url.len() == 0)
        }),
{
    let mut record = match found {
        Some(rec) => rec,
        None => Shortlink::placeholder(String::new()),
    };
    record.keyword = keyword;
    let create = record.url.as_str().is_empty();
    (record, create)
}

/// The record an update submits: the fields from the form, the keyword from
/// the request path, and the hit count of whatever record was found for it
/// (zero for a fresh one).
pub fn apply_update(
    found: Option<Shortlink>,
    keyword: String,
    url: String,
    owner: String,
    description: String,
    private: bool,
) -> (r: Shortlink)
    ensures
        r@ == (ShortlinkV {
            keyword: keyword@,
            url: url@,
            owner: owner@,
            hits: match found {
                Some(rec) => rec@.hits,
                None => 0,
            },
            private: private,
            description: description@,
        }),
{
    let mut record = match found {
        Some(rec) => rec,
        None => Shortlink::placeholder(String::new()),
    };
    record.keyword = keyword;
    record.url = url;
    record.private = private;
    record.owner = owner;
    record.description = description;
    record
}

/// Where a keyword sends the visitor: the configured redirect target, or
/// the edit page for a keyword that has no record yet.
pub fn redirect_target(found: &Option<Shortlink>, keyword: &str) -> (r: String)
    ensures
        match found {
            Some(rec) => r@ == rec.url@,
            None => r@ == "/edit/"@ + keyword@,
        },
{
    match found {
        Some(rec) => rec.url.clone(),
        None => {
            let mut path = String::from_str("/edit/");
            path.append(keyword);
            path
        },
    }
}

} // verus!
