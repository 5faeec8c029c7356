//! The in-memory cache: a concurrent map from keyword to record.
//!
//! The map itself comes from the lockfree crate; what it holds is named by
//! [`lf_contents`], and the handful of methods the cache needs are wrapped
//! with contracts over that name. [`Cache`] is the verified surface the
//! coordinator works against: get, insert-with-replace, and a snapshot of
//! every entry. Entries live until the cache itself is dropped; there is no
//! eviction.

use vstd::prelude::*;

use crate::models::{Shortlink, ShortlinkV};

verus! {

#[verifier::external_type_specification]
#[verifier::external_body]
#[verifier::reject_recursive_types(K)]
#[verifier::reject_recursive_types(V)]
#[verifier::reject_recursive_types(H)]
pub struct ExLockfreeMap<K, V, H>(lockfree::map::Map<K, V, H>);

/// The entries a lockfree map holds: keyword to record value.
pub uninterp spec fn lf_contents(m: lockfree::map::Map<String, Shortlink>) -> Map<
    Seq<char>,
    ShortlinkV,
>;

/// Cache contents with no entries at all.
pub open spec fn no_entries() -> Map<Seq<char>, ShortlinkV> {
    Map::empty()
}

/// Relies on lockfree::map::Map::new: a freshly created map holds no
/// entries.
#[verifier::external_body]
fn lf_new() -> (r: lockfree::map::Map<String, Shortlink>)
    ensures
        lf_contents(r) == no_entries(),
{
    lockfree::map::Map::new()
}

/// Relies on lockfree::map::Map::get: the entry stored under the key, if
/// there is one. The map sits in a private field and every write to it
/// goes through an exclusive borrow, so no concurrent mutation can run
/// under this read.
#[verifier::external_body]
fn lf_get(m: &lockfree::map::Map<String, Shortlink>, k: &str) -> (r: Option<Shortlink>)
    ensures
        match r {
            Some(v) => lf_contents(*m).contains_key(k@) && v@ == lf_contents(*m)[k@],
            None => !lf_contents(*m).contains_key(k@),
        },
{
    m.get(k).map(|g| g.val().clone())
}

/// Relies on lockfree::map::Map::insert: stores the value under the key,
/// replacing any previous entry for it.
#[verifier::external_body]
fn lf_insert(m: &mut lockfree::map::Map<String, Shortlink>, k: String, v: Shortlink)
    ensures
        lf_contents(*final(m)) == lf_contents(*old(m)).insert(k@, v@),
{
    m.insert(k, v);
}

/// Relies on lockfree::map::Map::iter: over a map that no one is mutating
/// it yields every entry exactly once, in no particular order. The map
/// sits in a private field and every write to it goes through an exclusive
/// borrow, so no mutation can run under the traversal.
#[verifier::external_body]
fn lf_pairs(m: &lockfree::map::Map<String, Shortlink>) -> (r: Vec<(String, Shortlink)>)
    ensures
        forall|q: int|
            0 <= q < r@.len() ==> lf_contents(*m).contains_key((#[trigger] r@[q]).0@) && r@[q].1@
                == lf_contents(*m)[r@[q].0@],
        forall|q1: int, q2: int|
            0 <= q1 < q2 < r@.len() ==> (#[trigger] r@[q1]).0@ != (#[trigger] r@[q2]).0@,
        forall|k: Seq<char>|
            #[trigger] lf_contents(*m).contains_key(k) ==> exists|q: int|
                0 <= q < r@.len() && (#[trigger] r@[q]).0@ == k,
{
    let mut out = Vec::new();
    for g in m.iter() {
        out.push((g.key().clone(), g.val().clone()));
    }
    out
}

/// The in-memory cache of shortlink records, keyed by keyword.
pub struct Cache {
    map: lockfree::map::Map<String, Shortlink>,
}

impl View for Cache {
    type V = Map<Seq<char>, ShortlinkV>;

    closed spec fn view(&self) -> Map<Seq<char>, ShortlinkV> {
        lf_contents(self.map)
    }
}

impl Cache {
    /// An empty cache.
    pub fn new() -> (r: Cache)
        ensures
            r@ == Map::<Seq<char>, ShortlinkV>::empty(),
    {
        Cache { map: lf_new() }
    }

    /// The record cached under `keyword`, if any.
    pub fn get(&self, keyword: &str) -> (r: Option<Shortlink>)
        ensures
            match r {
                Some(v) => self@.contains_key(keyword@) && v@ == self@[keyword@],
                None => !self@.contains_key(keyword@),
            },
    {
        lf_get(&self.map, keyword)
    }

    /// Caches `value` under `keyword`, replacing any previous entry.
    pub fn insert(&mut self, keyword: String, value: Shortlink)
        ensures
            final(self)@ == old(self)@.insert(keyword@, value@),
    {
        lf_insert(&mut self.map, keyword, value)
    }

    /// A snapshot of every cached entry: each exactly once, in no
    /// particular order.
    pub fn entries(&self) -> (r: Vec<(String, Shortlink)>)
        ensures
            forall|q: int|
                0 <= q < r@.len() ==> self@.contains_key((#[trigger] r@[q]).0@) && r@[q].1@
                    == self@[r@[q].0@],
            forall|q1: int, q2: int|
                0 <= q1 < q2 < r@.len() ==> (#[trigger] r@[q1]).0@ != (#[trigger] r@[q2]).0@,
            forall|k: Seq<char>|
                #[trigger] self@.contains_key(k) ==> exists|q: int|
                    0 <= q < r@.len() && (#[trigger] r@[q]).0@ == k,
    {
        lf_pairs(&self.map)
    }
}

} // verus!
