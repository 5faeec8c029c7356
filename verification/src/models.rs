//! The cached/stored entity: a shortlink record keyed by its keyword.

use vstd::prelude::*;

verus! {

/// A shortlink record. The `keyword` is the unique identifier under which
/// the record is cached and stored; the empty string is not a valid key.
/// `url` is the redirect target, where an empty string marks a placeholder
/// record that is not yet configured. `hits` is a monotonically
/// non-decreasing counter, the only field mutated purely in memory between
/// flushes.
#[derive(Debug, PartialEq, Eq)]
pub struct Shortlink {
    pub keyword: String,
    pub url: String,
    pub owner: String,
    pub hits: usize,
    pub private: bool,
    pub description: String,
}

/// The mathematical value of a [`Shortlink`]: each text field as its
/// sequence of characters.
#[verifier::ext_equal]
pub ghost struct ShortlinkV {
    pub keyword: Seq<char>,
    pub url: Seq<char>,
    pub owner: Seq<char>,
    pub hits: usize,
    pub private: bool,
    pub description: Seq<char>,
}

impl View for Shortlink {
    type V = ShortlinkV;

    open spec fn view(&self) -> ShortlinkV {
        ShortlinkV {
            keyword: self.keyword@,
            url: self.url@,
            owner: self.owner@,
            hits: self.hits,
            private: self.private,
            description: self.description@,
        }
    }
}

impl Clone for Shortlink {
    fn clone(&self) -> (r: Self)
        ensures
            r == *self,
    {
        Shortlink {
            keyword: self.keyword.clone(),
            url: self.url.clone(),
            owner: self.owner.clone(),
            hits: self.hits,
            private: self.private,
            description: self.description.clone(),
        }
    }
}

/// The value of a placeholder record for `keyword`: empty redirect target
/// (meaning "not yet configured"), empty metadata, no hits.
pub open spec fn placeholder_v(keyword: Seq<char>) -> ShortlinkV {
    ShortlinkV {
        keyword: keyword,
        url: Seq::empty(),
        owner: Seq::empty(),
        hits: 0,
        private: false,
        description: Seq::empty(),
    }
}

impl Shortlink {
    /// A placeholder record for a keyword that has no stored entry yet.
    pub fn placeholder(keyword: String) -> (r: Shortlink)
        ensures
            r@ == placeholder_v(keyword@),
    {
        Shortlink {
            keyword: keyword,
            url: String::new(),
            owner: String::new(),
            hits: 0,
            private: false,
            description: String::new(),
        }
    }
}

} // verus!
