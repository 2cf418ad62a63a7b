//! IP-to-ASN lookup engine: parse a gzip-compressed TSV snapshot of
//! `[first_ip, last_ip] -> AS number` intervals into a sorted in-memory
//! table, answer point lookups by binary search, and support replacing
//! the table from a refreshed snapshot without touching it on failure.

use vstd::prelude::*;
use vstd::string::StringSliceAdditionalSpecFns;
use vstd::utf8::{decode_utf8, valid_utf8};

pub mod error;
pub mod fetcher;
pub mod ip;
pub mod ip_text;
pub mod parser;
pub mod store;
pub mod text;
pub mod updater;

pub use error::AppError;
pub use fetcher::{
    classify_status, classify_url, resolve_fetch, updated_metadata, CacheMetadata, FetchOutcome,
    StatusAction, UrlScheme,
};
pub use ip::IpAddress;
pub use ip_text::{ip_to_text, parse_ip};
pub use parser::{AsnRecord, Database};
pub use store::AsnStore;
pub use updater::{UpdaterControl, UpdaterError};

use ip_text::{ip_chars, spec_parse_ip};
use parser::{gunzip_utf8, spec_parse_content};
use store::{covers, disjoint_intervals};

verus! {

/// The answer to one lookup, in the shape handed to embedders: the
/// queried text echoed back, whether some AS announces it, and the
/// covering record's fields when one does.
#[derive(Debug, Clone)]
pub struct AsnInfo {
    pub ip: String,
    pub announced: bool,
    pub first_ip: Option<String>,
    pub last_ip: Option<String>,
    pub as_number: Option<u32>,
    pub as_country_code: Option<String>,
    pub as_description: Option<String>,
}

/// Database statistics: how many records are loaded, and the wall
/// clock of the last successful load in Unix seconds, absent before
/// the first one.
#[derive(Debug, Clone)]
pub struct DbStats {
    pub record_count: usize,
    pub last_update: Option<u64>,
}

/// The engine: the current store, the source address, and the time of
/// the last successful load. Reader-writer coordination around it
/// belongs to the embedder; every method here is sequential.
#[derive(Debug)]
pub struct IpToAsnDb {
    pub url: String,
    pub cache_dir: String,
    pub store: AsnStore,
    pub last_update: Option<u64>,
}

/// The text that lossy UTF-8 decoding makes of a byte string.
pub uninterp spec fn utf8_lossy(b: Seq<u8>) -> Seq<char>;

/// Relies on `String::from_utf8_lossy`: the text is a function of the
/// bytes alone, and valid UTF-8 decodes exactly.
#[verifier::external_body]
fn bytes_to_string(b: &Vec<u8>) -> (r: String)
    ensures
        r@ == utf8_lossy(b@),
        valid_utf8(b@) ==> r@ == decode_utf8(b@),
{
    String::from_utf8_lossy(b.as_slice()).into_owned()
}

/// Relies on `SystemTime::now` and `duration_since(UNIX_EPOCH)`: the
/// wall clock in whole seconds. Nothing is promised of the value.
#[verifier::external_body]
fn now_unix_secs() -> u64 {
    match std::time::SystemTime::now().duration_since(std::time::SystemTime::UNIX_EPOCH) {
        Ok(d) => d.as_secs(),
        Err(_) => 0,
    }
}

impl IpToAsnDb {
    /// Well-formedness of the current store.
    pub open spec fn wf(self) -> bool {
        self.store.wf()
    }

    /// Create an engine over a source URL and a cache directory: an
    /// empty store, no last update. Performs no I/O and always
    /// succeeds.
    pub fn new(url: String, cache_dir: String) -> (r: Result<IpToAsnDb, AppError>)
        ensures
            r matches Ok(db) && db.wf() && db.store.model().0.len() == 0 && db.last_update is None
                && db.url@ == url@ && db.cache_dir@ == cache_dir@,
    {
        let db = IpToAsnDb {
            url,
            cache_dir,
            store: AsnStore::new(Database::new()),
            last_update: None,
        };
        Ok(db)
    }

    /// Hot-swap an already-parsed database into the store and stamp
    /// the update time. This is the whole critical section of a load:
    /// an embedder parses outside its write lock and holds the lock
    /// only across this call.
    pub fn swap_in(&mut self, database: Database)
        requires
            old(self).wf(),
            database.wf(),
        ensures
            final(self).wf(),
            final(self).url == old(self).url,
            final(self).cache_dir == old(self).cache_dir,
            final(self).store.model() == database.model(),
            final(self).last_update is Some,
    {
        self.store = AsnStore::new(database);
        self.last_update = Some(now_unix_secs());
    }

    /// Parse snapshot bytes and hot-swap the store. On a parse
    /// failure the error propagates and the current store and last
    /// update stay exactly as they were.
    pub fn load_bytes(&mut self, data: Vec<u8>) -> (r: Result<(), AppError>)
        requires
            old(self).wf(),
        ensures
            final(self).wf(),
            final(self).url == old(self).url,
            final(self).cache_dir == old(self).cache_dir,
            match r {
                Ok(_) => gunzip_utf8(data@) is Some && final(self).store.model()
                    == spec_parse_content(gunzip_utf8(data@).unwrap())
                    && final(self).last_update is Some,
                Err(e) => e is DatabaseParse && gunzip_utf8(data@) is None
                    && *final(self) == *old(self),
            },
    {
        let database = match Database::parse(data) {
            Ok(db) => db,
            Err(e) => { return Err(e); },
        };
        self.swap_in(database);
        Ok(())
    }

    /// One load cycle from an already-resolved source: a fetch error
    /// already folded with the cache (see [`resolve_fetch`])
    /// propagates untouched; bytes are parsed and swapped in.
    pub fn load_from_source(&mut self, source: Result<Vec<u8>, AppError>) -> (r: Result<
        (),
        AppError,
    >)
        requires
            old(self).wf(),
        ensures
            final(self).wf(),
            final(self).url == old(self).url,
            final(self).cache_dir == old(self).cache_dir,
            match source {
                Ok(data) => match r {
                    Ok(_) => gunzip_utf8(data@) is Some && final(self).store.model()
                        == spec_parse_content(gunzip_utf8(data@).unwrap())
                        && final(self).last_update is Some,
                    Err(e) => e is DatabaseParse && gunzip_utf8(data@) is None
                        && *final(self) == *old(self),
                },
                Err(e) => r == Err::<(), AppError>(e) && *final(self) == *old(self),
            },
    {
        match source {
            Ok(data) => self.load_bytes(data),
            Err(e) => Err(e),
        }
    }

    /// One scheduled refresh tick. Only freshly fetched bytes are
    /// parsed and swapped in: an unchanged answer or a failed fetch
    /// touches nothing, and a parse failure keeps the old store. The
    /// result says whether a swap occurred; an error never stops the
    /// schedule, the caller logs it and waits for the next tick.
    pub fn refresh_tick(&mut self, outcome: FetchOutcome) -> (r: Result<bool, AppError>)
        requires
            old(self).wf(),
        ensures
            final(self).wf(),
            match outcome {
                FetchOutcome::Data(d) => match r {
                    Ok(swapped) => swapped && gunzip_utf8(d@) is Some && final(self).store.model()
                        == spec_parse_content(gunzip_utf8(d@).unwrap())
                        && final(self).last_update is Some,
                    Err(e) => e is DatabaseParse && gunzip_utf8(d@) is None
                        && *final(self) == *old(self),
                },
                _ => r == Ok::<bool, AppError>(false) && *final(self) == *old(self),
            },
    {
        match outcome {
            FetchOutcome::Data(data) => match self.load_bytes(data) {
                Ok(_) => Ok(true),
                Err(e) => Err(e),
            },
            FetchOutcome::Unchanged => Ok(false),
            FetchOutcome::Failed(_) => Ok(false),
        }
    }

    /// One forced refresh cycle, reporting truthfully whether fresh
    /// data was swapped in: `Ok(true)` only for a successful load of
    /// newly fetched bytes, `Ok(false)` for a successful load out of
    /// the cache after an unchanged answer or a failed fetch. It fails
    /// exactly when the bytes the fallback protocol settles on do not
    /// parse, or when the fallback itself has only an error to offer.
    pub fn force_load(&mut self, outcome: FetchOutcome, cache: Result<Vec<u8>, AppError>) -> (r:
        Result<bool, AppError>)
        requires
            old(self).wf(),
        ensures
            final(self).wf(),
            match r {
                Ok(fresh) => {
                    &&& final(self).last_update is Some
                    &&& (fresh <==> outcome is Data)
                    &&& match outcome {
                        FetchOutcome::Data(d) => gunzip_utf8(d@) is Some
                            && final(self).store.model() == spec_parse_content(
                            gunzip_utf8(d@).unwrap(),
                        ),
                        _ => cache matches Ok(c) && gunzip_utf8(c@) is Some
                            && final(self).store.model() == spec_parse_content(
                            gunzip_utf8(c@).unwrap(),
                        ),
                    }
                },
                Err(e) => *final(self) == *old(self) && match outcome {
                    FetchOutcome::Data(d) => gunzip_utf8(d@) is None && e is DatabaseParse,
                    _ => cache == Err::<Vec<u8>, AppError>(e) || (cache matches Ok(c)
                        && gunzip_utf8(c@) is None && e is DatabaseParse),
                },
            },
    {
        let fresh = match &outcome {
            FetchOutcome::Data(_) => true,
            _ => false,
        };
        let source = resolve_fetch(outcome, cache);
        match self.load_from_source(source) {
            Ok(_) => Ok(fresh),
            Err(e) => Err(e),
        }
    }

    /// Look up an IP address given as text. Text that does not parse
    /// as an address is an `InvalidIp` error; otherwise the answer
    /// echoes the query, and carries a covering record's range, AS
    /// number, country and description exactly when one is found.
    pub fn lookup(&self, ip: &str) -> (r: Result<AsnInfo, AppError>)
        requires
            self.wf(),
        ensures
            match r {
                Ok(info) => spec_parse_ip(ip.spec_bytes()) is Some && info.ip@ == ip@ && {
                    let addr = spec_parse_ip(ip.spec_bytes()).unwrap();
                    let m = self.store.model();
                    &&& info.announced ==> exists|k: int|
                        {
                            &&& 0 <= k < m.0.len()
                            &&& covers(#[trigger] m.0[k], addr)
                            &&& info.first_ip matches Some(s) && s@ == ip_chars(m.0[k].first_ip)
                            &&& info.last_ip matches Some(s2) && s2@ == ip_chars(m.0[k].last_ip)
                            &&& info.as_number == Some(m.0[k].number)
                            &&& info.as_country_code matches Some(c) && c@ == utf8_lossy(
                                m.1[m.0[k].country as int],
                            ) && (valid_utf8(m.1[m.0[k].country as int]) ==> c@ == decode_utf8(
                                m.1[m.0[k].country as int],
                            ))
                            &&& info.as_description matches Some(d) && d@ == utf8_lossy(
                                m.2[m.0[k].description as int],
                            ) && (valid_utf8(m.2[m.0[k].description as int]) ==> d@ == decode_utf8(
                                m.2[m.0[k].description as int],
                            ))
                        }
                    &&& !info.announced ==> info.first_ip is None && info.last_ip is None
                        && info.as_number is None && info.as_country_code is None
                        && info.as_description is None
                    &&& disjoint_intervals(m.0) ==> (info.announced <==> exists|k: int|
                        0 <= k < m.0.len() && covers(#[trigger] m.0[k], addr))
                },
                Err(e) => e matches AppError::InvalidIp(s) && s@ == ip@ && spec_parse_ip(
                    ip.spec_bytes(),
                ) is None,
            },
    {
        let bytes = ip.as_bytes();
        let addr = match parse_ip(bytes) {
            Option::Some(a) => a,
            Option::None => { return Err(AppError::InvalidIp(ip.to_owned())); },
        };
        match self.store.lookup(addr) {
            Option::Some(rec) => {
                let ghost m = self.store.model();
                let ghost k0: int = choose|k: int|
                    0 <= k < m.0.len() && m.0[k] == *rec && covers(*rec, addr);
                proof {
                    assert(covers(m.0[k0], addr));
                    assert(0 <= rec.country < m.1.len() && 0 <= rec.description < m.2.len());
                }
                let country = bytes_to_string(&self.countries_entry(rec.country));
                let description = bytes_to_string(&self.descriptions_entry(rec.description));
                Ok(
                    AsnInfo {
                        ip: ip.to_owned(),
                        announced: true,
                        first_ip: Some(ip_to_text(&rec.first_ip)),
                        last_ip: Some(ip_to_text(&rec.last_ip)),
                        as_number: Some(rec.number),
                        as_country_code: Some(country),
                        as_description: Some(description),
                    },
                )
            },
            Option::None => Ok(
                AsnInfo {
                    ip: ip.to_owned(),
                    announced: false,
                    first_ip: None,
                    last_ip: None,
                    as_number: None,
                    as_country_code: None,
                    as_description: None,
                },
            ),
        }
    }

    /// One interned country entry.
    fn countries_entry(&self, idx: usize) -> (r: Vec<u8>)
        requires
            idx < self.store.model().1.len(),
        ensures
            r@ == self.store.model().1[idx as int],
    {
        copy_bytes(&self.store.countries[idx])
    }

    /// One interned description entry.
    fn descriptions_entry(&self, idx: usize) -> (r: Vec<u8>)
        requires
            idx < self.store.model().2.len(),
        ensures
            r@ == self.store.model().2[idx as int],
    {
        copy_bytes(&self.store.descriptions[idx])
    }

    /// Record count and last update time.
    pub fn stats(&self) -> (s: DbStats)
        ensures
            s.record_count == self.store.model().0.len(),
            s.last_update == self.last_update,
    {
        DbStats { record_count: self.store.len(), last_update: self.last_update }
    }
}

/// An owned copy of a byte vector.
fn copy_bytes(v: &Vec<u8>) -> (r: Vec<u8>)
    ensures
        r@ == v@,
{
    let mut out: Vec<u8> = Vec::new();
    let mut i: usize = 0;
    while i < v.len()
        invariant
            i <= v@.len(),
            out@ =~= v@.take(i as int),
        decreases v@.len() - i,
    {
        out.push(v[i]);
        proof {
            assert(out@ =~= v@.take(i + 1));
        }
        i = i + 1;
    }
    proof {
        assert(v@.take(v@.len() as int) =~= v@);
    }
    out
}

} // verus!
