//! The cache-store coordinator and the background flusher's decisions.
//!
//! The coordinator owns the in-memory cache and decides everything around
//! the remote store: which command a miss sends, what a reply does to the
//! cache, what an upsert writes, and what a flush sweep sends. The network
//! round trips themselves happen outside; each operation that needs one is
//! split into the part before the round trip and the part that applies the
//! reply, and both parts carry exact contracts. The policies are the ones
//! the layer exists for: cache-first lookup with read-through population
//! and no negative caching, write-back hit counting, and write-through
//! upserts that preserve unflushed hit counts.

use vstd::prelude::*;

use crate::cache::Cache;
use crate::cache::no_entries;
use crate::codec::{decode_shortlink, encode_shortlink, encoded, lemma_encoded_injective};
use crate::errors::DatabaseError;
use crate::keyspace::{entity_of, in_namespace, lemma_namespaced_round_trip, namespace_key, namespaced, strip_namespace};
use crate::models::{placeholder_v, Shortlink, ShortlinkV};

verus! {

/// What the store answered to a GET for one key, as the transport saw it.
#[derive(Debug)]
pub enum FetchOutcome {
    /// The key is absent from the store.
    Missing,
    /// The key is present, with this raw text value.
    Value(String),
    /// The transport or the protocol failed.
    Unavailable,
}

/// What one tick of the background flusher does.
pub enum FlushStep {
    /// Both owners are still alive: send these SET commands, one per cached
    /// entry (namespaced key, encoded record), then sleep until the next
    /// tick.
    Sweep(Vec<(String, String)>),
    /// An owner is gone: write nothing, now or ever again.
    Terminate,
}

/// The record an upsert writes: the incoming one, except that an
/// already-cached record's hit count survives — accumulated hits that have
/// not been flushed yet must not be reset by whatever the caller supplied.
pub open spec fn upserted_record(
    cache: Map<Seq<char>, ShortlinkV>,
    incoming: ShortlinkV,
) -> ShortlinkV {
    if cache.contains_key(incoming.keyword) {
        ShortlinkV { hits: cache[incoming.keyword].hits, ..incoming }
    } else {
        incoming
    }
}

/// A record after one more hit: the counter one higher, saturating at its
/// maximum, so that it never decreases.
pub open spec fn bumped(v: ShortlinkV) -> ShortlinkV {
    ShortlinkV {
        hits: if v.hits < usize::MAX {
            (v.hits + 1) as usize
        } else {
            usize::MAX
        },
        ..v
    }
}

/// The text of an optional raw store value.
pub open spec fn opt_view(o: Option<String>) -> Option<Seq<char>> {
    match o {
        Some(s) => Some(s@),
        None => None,
    }
}

/// What one multi-get position decodes to: an absent store value stands for
/// the default, empty record (the store does not distinguish absent from
/// default); a present one must decode, else the position poisons the whole
/// query.
pub open spec fn decoded_at(rv: Option<Seq<char>>) -> Option<ShortlinkV> {
    match rv {
        None => Some(placeholder_v(Seq::empty())),
        Some(text) => if exists|w: ShortlinkV| text == encoded(w) {
            Some(choose|w: ShortlinkV| text == encoded(w))
        } else {
            None
        },
    }
}

/// The commands of a flush sweep, as text: key and payload of each.
pub open spec fn flush_pairs(cmds: Seq<(String, String)>) -> Seq<(Seq<char>, Seq<char>)> {
    cmds.map_values(|p: (String, String)| (p.0@, p.1@))
}

/// What a flush sweep must send: one SET per cached entry, carrying the
/// entry's current encoded record, and nothing else.
pub open spec fn flush_post(
    cache: Map<Seq<char>, ShortlinkV>,
    cmds: Seq<(String, String)>,
) -> bool {
    &&& forall|k: Seq<char>|
        #[trigger] cache.contains_key(k) ==> flush_pairs(cmds).contains(
            (namespaced(k), encoded(cache[k])),
        )
    &&& forall|q: int|
        0 <= q < cmds.len() ==> {
            let nk = (#[trigger] cmds[q]).0@;
            in_namespace(nk) && cache.contains_key(entity_of(nk)) && cmds[q].1@ == encoded(
                cache[entity_of(nk)],
            )
        }
}

/// The object request handlers share: the cache, and the policies that
/// relate it to the store.
pub struct Coordinator {
    cache: Cache,
}

impl View for Coordinator {
    type V = Map<Seq<char>, ShortlinkV>;

    closed spec fn view(&self) -> Map<Seq<char>, ShortlinkV> {
        self.cache@
    }
}

impl Coordinator {
    /// A coordinator over an empty cache. Establishing the store connection
    /// and spawning the flusher happen at the transport, around this.
    pub fn new() -> (r: Coordinator)
        ensures
            r@ == no_entries(),
    {
        Coordinator { cache: Cache::new() }
    }

    /// The fast path of a lookup: the cached record, if there is one. No
    /// store access is needed, or allowed, for a cached keyword.
    pub fn lookup_cached(&self, keyword: &str) -> (r: Option<Shortlink>)
        ensures
            match r {
                Some(v) => self@.contains_key(keyword@) && v@ == self@[keyword@],
                None => !self@.contains_key(keyword@),
            },
    {
        self.cache.get(keyword)
    }

    /// The store key a lookup miss queries: the namespaced keyword.
    pub fn lookup_command(keyword: &str) -> (r: String)
        ensures
            r@ == namespaced(keyword@),
    {
        namespace_key(keyword)
    }

    /// Applies the store's reply to a lookup that missed the cache. A hit
    /// populates the cache before returning (read-through); a miss returns
    /// nothing and caches nothing (no negative caching); a transport or
    /// decode failure is surfaced and leaves the cache untouched.
    pub fn lookup_fetched(&mut self, keyword: &str, fetched: FetchOutcome) -> (r: Result<
        Option<Shortlink>,
        DatabaseError,
    >)
        ensures
            fetched is Unavailable ==> final(self)@ == old(self)@ && (r matches Err(e) && e
                == DatabaseError::StoreUnavailable),
            fetched is Missing ==> final(self)@ == old(self)@ && (r matches Ok(v) && v is None),
            forall|w: ShortlinkV| #![trigger encoded(w)]
                (fetched matches FetchOutcome::Value(text) && text@ == encoded(w)) ==> final(self)@ == old(self)@.insert(keyword@, w) && (r matches Ok(v) && v matches Some(rec)
                    && rec@ == w),
            (fetched matches FetchOutcome::Value(text) && (forall|w: ShortlinkV|
                text@ != encoded(w))) ==> final(self)@ == old(self)@ && (r matches Err(e) && e
                == DatabaseError::DecodeFailure),
    {
        match fetched {
            FetchOutcome::Unavailable => Err(DatabaseError::StoreUnavailable),
            FetchOutcome::Missing => Ok(None),
            FetchOutcome::Value(text) => match decode_shortlink(text.as_str()) {
                Ok(rec) => {
                    let copy = rec.clone();
                    self.cache.insert(String::from_str(keyword), copy);
                    proof {
                        assert forall|w: ShortlinkV| #![trigger encoded(w)] text@ == encoded(w)
                            implies w == rec@ by {
                            lemma_encoded_injective(w, rec@);
                        }
                    }
                    Ok(Some(rec))
                },
                Err(_) => Err(DatabaseError::DecodeFailure),
            },
        }
    }

    /// Records one hit against the cache alone (write-back): a cached
    /// record's counter is bumped in place, and the store learns of it only
    /// at the next flush sweep — hit counting must not add store latency to
    /// the redirect hot path. Returns whether a cached record was found; on
    /// false the caller resolves the record through the store first.
    pub fn increment_hits_cached(&mut self, keyword: &str) -> (r: bool)
        ensures
            r == old(self)@.contains_key(keyword@),
            r ==> final(self)@ == old(self)@.insert(keyword@, bumped(old(self)@[keyword@])),
            !r ==> final(self)@ == old(self)@,
    {
        match self.cache.get(keyword) {
            Some(mut rec) => {
                if rec.hits < usize::MAX {
                    rec.hits = rec.hits + 1;
                }
                self.cache.insert(String::from_str(keyword), rec);
                true
            },
            None => false,
        }
    }

    /// Applies the store's reply to a hit for an uncached keyword: the
    /// fetched record enters the cache with its counter bumped. A keyword
    /// missing everywhere is a recoverable NotFound, surfaced to the
    /// caller; transport and decode failures are surfaced likewise, and in
    /// every failure the cache is untouched.
    pub fn increment_hits_fetched(&mut self, keyword: &str, fetched: FetchOutcome) -> (r: Result<
        (),
        DatabaseError,
    >)
        ensures
            fetched is Unavailable ==> final(self)@ == old(self)@ && (r matches Err(e) && e
                == DatabaseError::StoreUnavailable),
            fetched is Missing ==> final(self)@ == old(self)@ && (r matches Err(e) && e
                == DatabaseError::NotFound),
            forall|w: ShortlinkV| #![trigger encoded(w)]
                (fetched matches FetchOutcome::Value(text) && text@ == encoded(w)) ==> final(self)@ == old(self)@.insert(keyword@, bumped(w)) && r is Ok,
            (fetched matches FetchOutcome::Value(text) && (forall|w: ShortlinkV|
                text@ != encoded(w))) ==> final(self)@ == old(self)@ && (r matches Err(e) && e
                == DatabaseError::DecodeFailure),
    {
        match fetched {
            FetchOutcome::Unavailable => Err(DatabaseError::StoreUnavailable),
            FetchOutcome::Missing => Err(DatabaseError::NotFound),
            FetchOutcome::Value(text) => match decode_shortlink(text.as_str()) {
                Ok(mut rec) => {
                    if rec.hits < usize::MAX {
                        rec.hits = rec.hits + 1;
                    }
                    proof {
                        assert forall|w: ShortlinkV| #![trigger encoded(w)] text@ == encoded(w)
                            implies bumped(w) == rec@ by {
                            let ghost prior = choose|p: ShortlinkV| text@ == encoded(p);
                            lemma_encoded_injective(w, prior);
                        }
                    }
                    self.cache.insert(String::from_str(keyword), rec);
                    Ok(())
                },
                Err(_) => Err(DatabaseError::DecodeFailure),
            },
        }
    }

    /// The first half of an upsert: fixes the record to write — an
    /// already-cached keyword keeps its accumulated hit count in place of
    /// the incoming one — and prepares the store command: the namespaced
    /// key and the encoded payload the caller sends as a SET.
    pub fn upsert_prepare(&self, incoming: Shortlink) -> (r: (Shortlink, String, String))
        ensures
            r.0@ == upserted_record(self@, incoming@),
            r.1@ == namespaced(incoming.keyword@),
            r.2@ == encoded(upserted_record(self@, incoming@)),
    {
        let mut record = incoming;
        match self.cache.get(record.keyword.as_str()) {
            Some(existing) => {
                record.hits = existing.hits;
            },
            None => {},
        }
        let key = namespace_key(record.keyword.as_str());
        let payload = encode_shortlink(&record);
        (record, key, payload)
    }

    /// The second half of an upsert, after the store acknowledged — or
    /// failed — the synchronous write-through. Only on success does the
    /// written record enter the cache, so the cache is never ahead of a
    /// successful upsert; on failure the whole operation fails and the
    /// cache is untouched.
    pub fn upsert_commit(&mut self, prepared: Shortlink, store_ok: bool) -> (r: Result<
        (),
        DatabaseError,
    >)
        ensures
            store_ok ==> final(self)@ == old(self)@.insert(prepared.keyword@, prepared@) && r is Ok,
            !store_ok ==> final(self)@ == old(self)@ && (r matches Err(e) && e
                == DatabaseError::StoreUnavailable),
    {
        if store_ok {
            let key = prepared.keyword.clone();
            self.cache.insert(key, prepared);
            Ok(())
        } else {
            Err(DatabaseError::StoreUnavailable)
        }
    }

    /// Merges a full store listing with the cache: `keys` is the store's
    /// key scan over the namespace, `raw` the multi-get reply aligned
    /// positionally with it, an absent value standing for the default
    /// record. For every keyword the cache holds, the cached record wins
    /// (it is assumed fresher than the store); otherwise the store record
    /// is used. A reply of the wrong shape is a store failure; a value that
    /// does not decode fails the whole query.
    pub fn lookup_all_merge(&self, keys: &Vec<String>, raw: &Vec<Option<String>>) -> (r: Result<
        Vec<Shortlink>,
        DatabaseError,
    >)
        ensures
            r is Ok <==> (keys@.len() == raw@.len() && (forall|q: int|
                0 <= q < keys@.len() ==> in_namespace((#[trigger] keys@[q])@)) && (forall|q: int|
                0 <= q < raw@.len() ==> decoded_at(opt_view(#[trigger] raw@[q])) is Some)),
            r matches Ok(out) ==> out@.len() == keys@.len() && (forall|q: int|
                0 <= q < keys@.len() ==> (#[trigger] out@[q])@ == (
                if self@.contains_key(entity_of(keys@[q]@)) {
                    self@[entity_of(keys@[q]@)]
                } else {
                    decoded_at(opt_view(raw@[q])).unwrap()
                })),
            (r matches Err(e) && e == DatabaseError::StoreUnavailable) ==> keys@.len()
                != raw@.len() || exists|q: int|
                0 <= q < keys@.len() && !in_namespace((#[trigger] keys@[q])@),
            (r matches Err(e) && e == DatabaseError::DecodeFailure) ==> exists|q: int|
                0 <= q < raw@.len() && decoded_at(opt_view(#[trigger] raw@[q])) is None,
            r matches Err(e) ==> e == DatabaseError::StoreUnavailable || e
                == DatabaseError::DecodeFailure,
            keys@.len() != raw@.len() ==> (r matches Err(e) && e
                == DatabaseError::StoreUnavailable),
    {
        if keys.len() != raw.len() {
            return Err(DatabaseError::StoreUnavailable);
        }
        let n = keys.len();
        let mut out: Vec<Shortlink> = Vec::new();
        let mut q: usize = 0;
        while q < n
            invariant
                q <= n,
                n == keys@.len(),
                keys@.len() == raw@.len(),
                out@.len() == q,
                forall|t: int| 0 <= t < q ==> in_namespace((#[trigger] keys@[t])@),
                forall|t: int| 0 <= t < q ==> decoded_at(opt_view(#[trigger] raw@[t])) is Some,
                forall|t: int|
                    0 <= t < q ==> (#[trigger] out@[t])@ == (
                    if self@.contains_key(entity_of(keys@[t]@)) {
                        self@[entity_of(keys@[t]@)]
                    } else {
                        decoded_at(opt_view(raw@[t])).unwrap()
                    }),
            decreases n - q,
        {
            let entity_key = match strip_namespace(keys[q].as_str()) {
                Some(k) => k,
                None => {
                    return Err(DatabaseError::StoreUnavailable);
                },
            };
            let from_store = match &raw[q] {
                None => Shortlink::placeholder(String::new()),
                Some(text) => match decode_shortlink(text.as_str()) {
                    Ok(rec) => {
                        proof {
                            assert forall|w: ShortlinkV| text@ == encoded(w) implies w == rec@ by {
                                lemma_encoded_injective(w, rec@);
                            }
                            assert(decoded_at(opt_view(raw@[q as int])) == Some(rec@));
                        }
                        rec
                    },
                    Err(_) => {
                        proof {
                            assert(opt_view(raw@[q as int]) == Some(text@));
                            assert(decoded_at(opt_view(raw@[q as int])) is None);
                        }
                        return Err(DatabaseError::DecodeFailure);
                    },
                },
            };
            let chosen = match self.cache.get(entity_key.as_str()) {
                Some(cached) => cached,
                None => from_store,
            };
            out.push(chosen);
            q = q + 1;
        }
        Ok(out)
    }

    /// The SET commands of one flush sweep: for every cached entry, its
    /// namespaced key and its encoded current record.
    pub fn flush_commands(&self) -> (r: Vec<(String, String)>)
        ensures
            flush_post(self@, r@),
    {
        let entries = self.cache.entries();
        let n = entries.len();
        let mut cmds: Vec<(String, String)> = Vec::new();
        let mut q: usize = 0;
        while q < n
            invariant
                q <= n,
                n == entries@.len(),
                cmds@.len() == q,
                forall|t: int|
                    0 <= t < entries@.len() ==> self@.contains_key((#[trigger] entries@[t]).0@)
                        && entries@[t].1@ == self@[entries@[t].0@],
                forall|k: Seq<char>|
                    #[trigger] self@.contains_key(k) ==> exists|t: int|
                        0 <= t < entries@.len() && (#[trigger] entries@[t]).0@ == k,
                forall|t: int|
                    0 <= t < q ==> (#[trigger] cmds@[t]).0@ == namespaced(entries@[t].0@)
                        && cmds@[t].1@ == encoded(self@[entries@[t].0@]),
            decreases n - q,
        {
            let entry_key = entries[q].0.as_str();
            let command = (namespace_key(entry_key), encode_shortlink(&entries[q].1));
            cmds.push(command);
            q = q + 1;
        }
        proof {
            let ghost cache = self@;
            let ghost sent = cmds@;
            assert forall|k: Seq<char>| #[trigger] cache.contains_key(k) implies flush_pairs(
                sent,
            ).contains((namespaced(k), encoded(cache[k]))) by {
                let t = choose|t: int|
                    0 <= t < entries@.len() && (#[trigger] entries@[t]).0@ == k;
                assert(flush_pairs(sent)[t] == (namespaced(k), encoded(cache[k])));
            }
            assert forall|q2: int| 0 <= q2 < sent.len() implies {
                let nk = (#[trigger] sent[q2]).0@;
                in_namespace(nk) && cache.contains_key(entity_of(nk)) && sent[q2].1@ == encoded(
                    cache[entity_of(nk)],
                )
            } by {
                lemma_namespaced_round_trip(entries@[q2].0@);
            }
        }
        cmds
    }

    /// Read-after-write: after an upsert succeeds, the record it wrote sits
    /// in the cache under its keyword, so a lookup of that keyword is
    /// served by the cache-first path — no store access — and returns
    /// exactly the upserted record.
    pub proof fn lemma_read_after_write(cache: Map<Seq<char>, ShortlinkV>, incoming: ShortlinkV)
        ensures
            ({
                let written = upserted_record(cache, incoming);
                let after = cache.insert(written.keyword, written);
                after.contains_key(incoming.keyword) && after[incoming.keyword] == written
            }),
    {
    }

    /// Hit preservation: an upsert over an already-cached keyword writes
    /// the cached hit count, not the incoming one; every other field comes
    /// from the incoming record.
    pub proof fn lemma_hit_preservation(cache: Map<Seq<char>, ShortlinkV>, incoming: ShortlinkV)
        requires
            cache.contains_key(incoming.keyword),
        ensures
            upserted_record(cache, incoming).hits == cache[incoming.keyword].hits,
            upserted_record(cache, incoming).keyword == incoming.keyword,
            upserted_record(cache, incoming).url == incoming.url,
            upserted_record(cache, incoming).owner == incoming.owner,
            upserted_record(cache, incoming).private == incoming.private,
            upserted_record(cache, incoming).description == incoming.description,
    {
    }

    /// Read-through population and cache-first lookup: the record a store
    /// hit inserts is afterwards held by the cache under the looked-up
    /// keyword, so every repeated lookup is served from the cache, with no
    /// further store access.
    pub proof fn lemma_read_through(
        cache: Map<Seq<char>, ShortlinkV>,
        keyword: Seq<char>,
        fetched: ShortlinkV,
    )
        ensures
            cache.insert(keyword, fetched).contains_key(keyword),
            cache.insert(keyword, fetched)[keyword] == fetched,
    {
    }

    /// Eventual flush: once a hit is recorded for a cached keyword, the
    /// next flush sweep over that cache sends a SET for the keyword
    /// carrying the bumped record.
    pub proof fn lemma_eventual_flush(
        cache: Map<Seq<char>, ShortlinkV>,
        k: Seq<char>,
        cmds: Seq<(String, String)>,
    )
        requires
            cache.contains_key(k),
            flush_post(cache.insert(k, bumped(cache[k])), cmds),
        ensures
            flush_pairs(cmds).contains((namespaced(k), encoded(bumped(cache[k])))),
    {
        let after = cache.insert(k, bumped(cache[k]));
        assert(after.contains_key(k));
        assert(after[k] == bumped(cache[k]));
    }

    /// One tick of the background flusher. The flusher holds no owning
    /// handle to the cache or the store: it is handed what its observation
    /// could still reach. While both owners are alive it sweeps — one SET
    /// per cached entry; the moment either is gone it terminates, writing
    /// nothing, so it never outlives or keeps alive what it serves.
    pub fn flusher_tick(cache: Option<&Coordinator>, store_alive: bool) -> (r: FlushStep)
        ensures
            (cache is None || !store_alive) <==> r is Terminate,
            forall|c: &Coordinator|
                cache == Some(c) && store_alive ==> (r matches FlushStep::Sweep(cmds)
                    && flush_post(c@, cmds@)),
    {
        match cache {
            Some(coordinator) if store_alive => FlushStep::Sweep(coordinator.flush_commands()),
            _ => FlushStep::Terminate,
        }
    }
}

} // verus!
