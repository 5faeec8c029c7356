//! The store's key namespace.
//!
//! Entity keys are namespaced with a fixed prefix before they are sent to
//! the remote store, so that the entity key space and the store's raw key
//! space are related by a pure, invertible transform.

use vstd::prelude::*;

verus! {

/// The fixed prefix put in front of every entity key in the store.
pub open spec fn store_prefix() -> Seq<char> {
    "sl::"@
}

/// The store key for the entity key `k`.
pub open spec fn namespaced(k: Seq<char>) -> Seq<char> {
    store_prefix() + k
}

/// Whether a store key lies in this namespace.
pub open spec fn in_namespace(nk: Seq<char>) -> bool {
    nk.len() >= store_prefix().len() && nk.subrange(0, store_prefix().len() as int)
        == store_prefix()
}

/// The entity key inside a namespaced store key.
pub open spec fn entity_of(nk: Seq<char>) -> Seq<char> {
    nk.skip(store_prefix().len() as int)
}

/// Namespacing is invertible: distinct entity keys map to distinct store
/// keys.
pub proof fn lemma_namespaced_injective(a: Seq<char>, b: Seq<char>)
    requires
        namespaced(a) == namespaced(b),
    ensures
        a == b,
{
    assert(a =~= namespaced(a).skip(store_prefix().len() as int));
    assert(b =~= namespaced(b).skip(store_prefix().len() as int));
}

/// A namespaced key lies in the namespace, and stripping it gives back the
/// entity key.
pub proof fn lemma_namespaced_round_trip(k: Seq<char>)
    ensures
        in_namespace(namespaced(k)),
        entity_of(namespaced(k)) == k,
{
    assert(namespaced(k).subrange(0, store_prefix().len() as int) =~= store_prefix());
    assert(entity_of(namespaced(k)) =~= k);
}

/// Builds the store key for an entity key.
pub fn namespace_key(k: &str) -> (r: String)
    ensures
        r@ == namespaced(k@),
{
    let mut r = String::from_str("sl::");
    r.append(k);
    r
}

/// Recovers the entity key from a store key, or reports that the store key
/// does not lie in this namespace.
pub fn strip_namespace(k: &str) -> (r: Option<String>)
    ensures
        match r {
            Some(t) => k@ == namespaced(t@) && in_namespace(k@) && t@ == entity_of(k@),
            None => !in_namespace(k@) && forall|t: Seq<char>| k@ != namespaced(t),
        },
{
    proof {
        reveal_strlit("sl::");
    }
    let n = k.unicode_len();
    if n < 4 {
        proof {
            assert forall|t: Seq<char>| k@ != namespaced(t) by {
                assert(namespaced(t).len() >= 4);
            }
        }
        return None;
    }
    if k.get_char(0) == 's' && k.get_char(1) == 'l' && k.get_char(2) == ':' && k.get_char(3) == ':'
    {
        let rest = k.substring_char(4, n);
        let out = String::from_str(rest);
        proof {
            assert(k@ =~= namespaced(out@));
            assert(k@.subrange(0, store_prefix().len() as int) =~= store_prefix());
            assert(out@ =~= entity_of(k@));
        }
        Some(out)
    } else {
        proof {
            assert forall|t: Seq<char>| k@ != namespaced(t) by {
                if k@ == namespaced(t) {
                    assert(k@[0] == 's' && k@[1] == 'l' && k@[2] == ':' && k@[3] == ':');
                }
            }
            assert(!in_namespace(k@)) by {
                if in_namespace(k@) {
                    assert(k@.subrange(0, store_prefix().len() as int)[0] == k@[0]);
                    assert(k@.subrange(0, store_prefix().len() as int)[1] == k@[1]);
                    assert(k@.subrange(0, store_prefix().len() as int)[2] == k@[2]);
                    assert(k@.subrange(0, store_prefix().len() as int)[3] == k@[3]);
                }
            }
        }
        None
    }
}

} // verus!
