//! The snapshot parser: decompress a gzip TSV snapshot, read its rows
//! into interval records, intern the country and description strings,
//! and keep the record vector sorted by first address.

use vstd::prelude::*;

use crate::error::AppError;
use crate::ip::IpAddress;
use crate::ip_text::{parse_ip, spec_parse_ip};
use crate::text::{
    all_space, is_blank, seq_views, spec_parse_u32, spec_split, split_bytes, bytes_eq, parse_u32,
};

verus! {

/// One interval of the table: a closed IP range, the AS number that
/// announces it, and pool indices for the interned country code and
/// description.
#[derive(Clone, Copy, Debug, PartialEq, Eq, Structural)]
pub struct AsnRecord {
    pub first_ip: IpAddress,
    pub last_ip: IpAddress,
    pub number: u32,
    pub country: usize,
    pub description: usize,
}

/// The mathematical content of a `Database`: the record sequence and
/// the two intern pools.
pub type DbModel = (Seq<AsnRecord>, Seq<Seq<u8>>, Seq<Seq<u8>>);

/// The parsed table: records sorted ascending by first address, with
/// country and description bytes shared through intern pools.
#[derive(Debug)]
pub struct Database {
    pub records: Vec<AsnRecord>,
    pub countries: Vec<Vec<u8>>,
    pub descriptions: Vec<Vec<u8>>,
}

/// No two entries of an intern pool hold the same bytes.
pub open spec fn pool_distinct(p: Seq<Seq<u8>>) -> bool {
    forall|i: int, j: int| #![trigger p[i], p[j]] 0 <= i < j < p.len() ==> p[i] != p[j]
}

/// The records are sorted ascending by the key of their first address.
pub open spec fn sorted_by_first(recs: Seq<AsnRecord>) -> bool {
    forall|i: int, j: int|
        #![trigger recs[i], recs[j]]
        0 <= i < j < recs.len() ==> recs[i].first_ip.key() <= recs[j].first_ip.key()
}

/// One record is internally valid against pools of the given sizes.
pub open spec fn record_wf(r: AsnRecord, n_countries: int, n_descriptions: int) -> bool {
    &&& r.first_ip.key() <= r.last_ip.key()
    &&& r.first_ip.same_family(r.last_ip)
    &&& r.country < n_countries
    &&& r.description < n_descriptions
}

/// Well-formedness of a database model: every record valid, the vector
/// sorted, both pools free of duplicates.
pub open spec fn model_wf(m: DbModel) -> bool {
    &&& forall|i: int|
        0 <= i < m.0.len() ==> record_wf(#[trigger] m.0[i], m.1.len() as int, m.2.len() as int)
    &&& sorted_by_first(m.0)
    &&& pool_distinct(m.1)
    &&& pool_distinct(m.2)
}

/// The first pool entry holding exactly `s`, at or after `i`.
pub open spec fn find_in_pool(p: Seq<Seq<u8>>, s: Seq<u8>, i: int) -> Option<int>
    decreases p.len() - i,
{
    if i < 0 || i >= p.len() {
        None::<int>
    } else if p[i] == s {
        Some(i)
    } else {
        find_in_pool(p, s, i + 1)
    }
}

/// Interning `s` into a pool: the index of the entry with those bytes,
/// appending a new entry only when none holds them.
pub open spec fn spec_intern(p: Seq<Seq<u8>>, s: Seq<u8>) -> (Seq<Seq<u8>>, int) {
    match find_in_pool(p, s, 0) {
        Option::Some(i) => (p, i),
        Option::None => (p.push(s), p.len() as int),
    }
}

/// Where a record with first-address key `k` goes in a sorted vector:
/// after every record whose key is at most `k`.
pub open spec fn insert_pos(recs: Seq<AsnRecord>, k: int) -> int
    decreases recs.len(),
{
    if recs.len() == 0 {
        0
    } else if recs.last().first_ip.key() <= k {
        recs.len() as int
    } else {
        insert_pos(recs.drop_last(), k)
    }
}

/// In a sorted vector, a position with small keys before it and large
/// keys from it on is the insert position.
proof fn lemma_insert_pos_unique(recs: Seq<AsnRecord>, k: int, pos: int)
    requires
        sorted_by_first(recs),
        0 <= pos <= recs.len(),
        forall|i: int| 0 <= i < pos ==> (#[trigger] recs[i]).first_ip.key() <= k,
        forall|i: int| pos <= i < recs.len() ==> (#[trigger] recs[i]).first_ip.key() > k,
    ensures
        pos == insert_pos(recs, k),
    decreases recs.len(),
{
    if recs.len() > 0 {
        if recs.last().first_ip.key() <= k {
            assert(recs[recs.len() - 1].first_ip.key() <= k);
        } else {
            assert(pos < recs.len());
            assert(forall|i: int|
                0 <= i < pos ==> (#[trigger] recs.drop_last()[i]) == recs[i]);
            assert(forall|i: int|
                pos <= i < recs.len() - 1 ==> (#[trigger] recs.drop_last()[i]) == recs[i]);
            lemma_insert_pos_unique(recs.drop_last(), k, pos);
        }
    }
}

/// The insert position splits a sorted vector into keys at most `k`
/// and keys above `k`.
proof fn lemma_insert_pos_bounds(recs: Seq<AsnRecord>, k: int)
    requires
        sorted_by_first(recs),
    ensures
        0 <= insert_pos(recs, k) <= recs.len(),
        forall|i: int|
            0 <= i < insert_pos(recs, k) ==> (#[trigger] recs[i]).first_ip.key() <= k,
        forall|i: int|
            insert_pos(recs, k) <= i < recs.len() ==> (#[trigger] recs[i]).first_ip.key() > k,
    decreases recs.len(),
{
    if recs.len() > 0 {
        if recs.last().first_ip.key() <= k {
            assert forall|i: int| 0 <= i < recs.len() implies (#[trigger] recs[i]).first_ip.key()
                <= k by {
                if i < recs.len() - 1 {
                    assert(recs[i].first_ip.key() <= recs[recs.len() - 1].first_ip.key());
                }
            }
        } else {
            lemma_insert_pos_bounds(recs.drop_last(), k);
            let pos = insert_pos(recs, k);
            assert forall|i: int| 0 <= i < pos implies (#[trigger] recs[i]).first_ip.key()
                <= k by {
                assert(recs.drop_last()[i] == recs[i]);
                assert(recs.drop_last()[i].first_ip.key() <= k);
            }
            assert forall|i: int| pos <= i < recs.len() implies (#[trigger] recs[i]).first_ip.key()
                > k by {
                if i < recs.len() - 1 {
                    assert(recs.drop_last()[i] == recs[i]);
                    assert(recs.drop_last()[i].first_ip.key() > k);
                }
            }
        }
    }
}

/// Inserting at the insert position keeps the vector sorted.
proof fn lemma_insert_keeps_sorted(recs: Seq<AsnRecord>, rec: AsnRecord)
    requires
        sorted_by_first(recs),
    ensures
        sorted_by_first(recs.insert(insert_pos(recs, rec.first_ip.key()), rec)),
{
    let k = rec.first_ip.key();
    let pos = insert_pos(recs, k);
    lemma_insert_pos_bounds(recs, k);
    recs.insert_ensures(pos, rec);
    let out = recs.insert(pos, rec);
    assert forall|i: int, j: int|
        #![trigger out[i], out[j]]
        0 <= i < j < out.len() implies out[i].first_ip.key() <= out[j].first_ip.key() by {
        if i < pos {
            assert(out[i] == recs[i]);
        } else if i == pos {
            assert(out[i] == rec);
        } else {
            assert(out[i] == recs[i - 1]);
        }
        if j < pos {
            assert(out[j] == recs[j]);
        } else if j == pos {
            assert(out[j] == rec);
        } else {
            assert(out[j] == recs[j - 1]);
        }
    }
}

/// A row pushed into the model: rejected unless the range is ordered
/// and single-family, otherwise interned and inserted in sort order.
pub open spec fn spec_push_row(
    m: DbModel,
    first_ip: IpAddress,
    last_ip: IpAddress,
    number: u32,
    country: Seq<u8>,
    description: Seq<u8>,
) -> DbModel {
    if first_ip.key() <= last_ip.key() && first_ip.same_family(last_ip) {
        let (cp, ci) = spec_intern(m.1, country);
        let (dp, di) = spec_intern(m.2, description);
        let rec = AsnRecord {
            first_ip,
            last_ip,
            number,
            country: ci as usize,
            description: di as usize,
        };
        (m.0.insert(insert_pos(m.0, first_ip.key()), rec), cp, dp)
    } else {
        m
    }
}

impl Database {
    /// The mathematical content of this database.
    pub open spec fn model(self) -> DbModel {
        (self.records@, seq_views(self.countries@), seq_views(self.descriptions@))
    }

    /// Well-formedness: see [`model_wf`].
    pub open spec fn wf(self) -> bool {
        model_wf(self.model())
    }

    /// An empty database.
    pub fn new() -> (db: Database)
        ensures
            db.wf(),
            db.model() == (Seq::<AsnRecord>::empty(), Seq::<Seq<u8>>::empty(), Seq::<
                Seq<u8>,
            >::empty()),
    {
        let db = Database { records: Vec::new(), countries: Vec::new(), descriptions: Vec::new() };
        proof {
            assert(seq_views(db.countries@) =~= Seq::<Seq<u8>>::empty());
            assert(seq_views(db.descriptions@) =~= Seq::<Seq<u8>>::empty());
        }
        db
    }

    /// Total number of records.
    pub fn len(&self) -> (n: usize)
        ensures
            n == self.model().0.len(),
    {
        self.records.len()
    }

    /// Whether the database holds no records.
    pub fn is_empty(&self) -> (r: bool)
        ensures
            r == (self.model().0.len() == 0),
    {
        self.records.is_empty()
    }

    /// Parse a gzip-compressed TSV snapshot. Fails exactly when the
    /// bytes do not decompress to UTF-8 text; malformed rows are
    /// skipped one by one, never failing the whole load.
    pub fn parse(gzipped_data: Vec<u8>) -> (r: Result<Database, AppError>)
        ensures
            match r {
                Ok(db) => gunzip_utf8(gzipped_data@) is Some && db.model() == spec_parse_content(
                    gunzip_utf8(gzipped_data@).unwrap(),
                ) && db.wf(),
                Err(e) => gunzip_utf8(gzipped_data@) is None && e is DatabaseParse,
            },
    {
        let content = match gzip_decompress(&gzipped_data) {
            Option::Some(v) => v,
            Option::None => {
                return Err(
                    AppError::DatabaseParse(String::from_str("failed to decompress snapshot")),
                );
            },
        };
        let lines = split_bytes(content.as_slice(), 0x0a);
        let ghost lv: Seq<Seq<u8>> = seq_views(lines@);
        let mut db = Database::new();
        let mut i: usize = 0;
        while i < lines.len()
            invariant
                i <= lines@.len(),
                lv == seq_views(lines@),
                db.wf(),
                db.model() == spec_parse_lines(lv, i as int),
            decreases lines@.len() - i,
        {
            proof {
                assert(lines@[i as int]@ == lv[i as int]);
            }
            parse_line(&mut db, &lines[i]);
            i = i + 1;
        }
        Ok(db)
    }

    /// Add one row. A row whose range is inverted or mixes address
    /// families is rejected and the database is unchanged; any other
    /// row is interned and inserted keeping the vector sorted. The
    /// position is found by binary search and the insert shifts the
    /// tail, so rows arriving in ascending order — the order the
    /// published snapshot ships in — land at the end with no shift;
    /// only heavily unsorted input pays for its disorder.
    pub fn push_row(
        &mut self,
        first_ip: IpAddress,
        last_ip: IpAddress,
        number: u32,
        country: Vec<u8>,
        description: Vec<u8>,
    ) -> (ok: bool)
        requires
            old(self).wf(),
        ensures
            final(self).wf(),
            ok == (first_ip.key() <= last_ip.key() && first_ip.same_family(last_ip)),
            final(self).model() == spec_push_row(
                old(self).model(),
                first_ip,
                last_ip,
                number,
                country@,
                description@,
            ),
    {
        let ordered = first_ip.le(&last_ip);
        let family = first_ip.is_same_family(&last_ip);
        if !(ordered && family) {
            return false;
        }
        let ghost m = self.model();
        let ci = intern(&mut self.countries, country);
        let di = intern(&mut self.descriptions, description);
        let rec = AsnRecord { first_ip, last_ip, number, country: ci, description: di };
        let pos = find_insert_pos(&self.records, &first_ip);
        self.records.insert(pos, rec);
        proof {
            lemma_insert_keeps_sorted(m.0, rec);
            lemma_insert_pos_bounds(m.0, first_ip.key());
            m.0.insert_ensures(pos as int, rec);
            assert(final(self).model().0 =~= m.0.insert(insert_pos(m.0, first_ip.key()), rec));
        }
        true
    }
}

/// Find or append `s` in an intern pool.
fn intern(pool: &mut Vec<Vec<u8>>, s: Vec<u8>) -> (idx: usize)
    requires
        pool_distinct(seq_views(old(pool)@)),
    ensures
        pool_distinct(seq_views(final(pool)@)),
        (seq_views(final(pool)@), idx as int) == spec_intern(seq_views(old(pool)@), s@),
        idx < final(pool)@.len(),
        seq_views(final(pool)@)[idx as int] == s@,
{
    let ghost p = seq_views(pool@);
    let mut i: usize = 0;
    while i < pool.len()
        invariant
            i <= pool@.len(),
            pool@ == old(pool)@,
            p == seq_views(pool@),
            pool_distinct(p),
            find_in_pool(p, s@, 0) == find_in_pool(p, s@, i as int),
        decreases pool@.len() - i,
    {
        if bytes_eq(&pool[i], &s) {
            proof {
                assert(p[i as int] == s@);
            }
            return i;
        }
        proof {
            assert(p[i as int] != s@);
        }
        i = i + 1;
    }
    let n = pool.len();
    pool.push(s);
    proof {
        assert(seq_views(pool@) =~= p.push(s@));
        assert forall|a: int, b: int|
            #![trigger seq_views(pool@)[a], seq_views(pool@)[b]]
            0 <= a < b < seq_views(pool@).len() implies seq_views(pool@)[a] != seq_views(
            pool@,
        )[b] by {
            if b < n {
                assert(p[a] != p[b]);
            } else {
                assert(find_in_pool(p, s@, 0) is None);
                lemma_find_in_pool_none(p, s@, a);
            }
        }
    }
    n
}

/// When a scan found nothing, no entry holds the bytes.
proof fn lemma_find_in_pool_none(p: Seq<Seq<u8>>, s: Seq<u8>, a: int)
    requires
        find_in_pool(p, s, 0) is None,
        0 <= a < p.len(),
    ensures
        p[a] != s,
{
    lemma_find_in_pool_none_from(p, s, 0, a);
}

/// When the scan from `i` found nothing, no entry at or after `i`
/// holds the bytes.
proof fn lemma_find_in_pool_none_from(p: Seq<Seq<u8>>, s: Seq<u8>, i: int, a: int)
    requires
        find_in_pool(p, s, i) is None,
        0 <= i <= a < p.len(),
    ensures
        p[a] != s,
    decreases p.len() - i,
{
    if i < a {
        lemma_find_in_pool_none_from(p, s, i + 1, a);
    }
}

/// The text inside a gzip blob, when the blob is valid gzip and its
/// decompression is valid UTF-8.
pub uninterp spec fn gunzip_utf8(data: Seq<u8>) -> Option<Seq<u8>>;

/// Relies on flate2's `read::GzDecoder` driven by std's
/// `Read::read_to_string`: the decompressed text is a function of the
/// compressed bytes alone, and exists exactly when the bytes are valid
/// gzip whose decompression is valid UTF-8.
#[verifier::external_body]
fn gzip_decompress(data: &Vec<u8>) -> (r: Option<Vec<u8>>)
    ensures
        match r {
            Option::Some(v) => gunzip_utf8(data@) == Some(v@),
            Option::None => gunzip_utf8(data@) is None,
        },
{
    let mut decoder = flate2::read::GzDecoder::new(data.as_slice());
    let mut text = String::new();
    match std::io::Read::read_to_string(&mut decoder, &mut text) {
        Ok(_) => Some(text.into_bytes()),
        Err(_) => None,
    }
}

/// A line with one trailing carriage return removed.
pub open spec fn strip_cr(l: Seq<u8>) -> Seq<u8> {
    if l.len() > 0 && l.last() == 0x0d {
        l.drop_last()
    } else {
        l
    }
}

/// One raw line folded into the model: blank lines and rows that are
/// short, unreadable, inverted or mixed-family leave it unchanged; any
/// other row is interned and inserted.
pub open spec fn spec_row_step(m: DbModel, raw: Seq<u8>) -> DbModel {
    let l = strip_cr(raw);
    if all_space(l) {
        m
    } else {
        let fields = spec_split(l, 0x09);
        if fields.len() < 3 {
            m
        } else if spec_parse_ip(fields[0]) is Some && spec_parse_ip(fields[1]) is Some
            && spec_parse_u32(fields[2]) is Some {
            let c = if fields.len() >= 4 {
                fields[3]
            } else {
                Seq::<u8>::empty()
            };
            let d = if fields.len() >= 5 {
                fields[4]
            } else {
                Seq::<u8>::empty()
            };
            spec_push_row(
                m,
                spec_parse_ip(fields[0]).unwrap(),
                spec_parse_ip(fields[1]).unwrap(),
                spec_parse_u32(fields[2]).unwrap(),
                c,
                d,
            )
        } else {
            m
        }
    }
}

/// The first `i` lines folded into a model, oldest first.
pub open spec fn spec_parse_lines(lines: Seq<Seq<u8>>, i: int) -> DbModel
    decreases i,
{
    if i <= 0 {
        (Seq::<AsnRecord>::empty(), Seq::<Seq<u8>>::empty(), Seq::<Seq<u8>>::empty())
    } else {
        spec_row_step(spec_parse_lines(lines, i - 1), lines[i - 1])
    }
}

/// The model a decompressed snapshot parses to: its newline-separated
/// lines folded in order.
pub open spec fn spec_parse_content(content: Seq<u8>) -> DbModel {
    let lines = spec_split(content, 0x0a);
    spec_parse_lines(lines, lines.len() as int)
}

/// Fold one raw line into the database.
fn parse_line(db: &mut Database, raw: &Vec<u8>)
    requires
        old(db).wf(),
    ensures
        final(db).wf(),
        final(db).model() == spec_row_step(old(db).model(), raw@),
{
    let n = raw.len();
    let line: &[u8] = if n > 0 && raw[n - 1] == 0x0d {
        &raw.as_slice()[0..n - 1]
    } else {
        raw.as_slice()
    };
    proof {
        assert(line@ =~= strip_cr(raw@));
    }
    if is_blank(line) {
        return ;
    }
    let mut fields = split_bytes(line, 0x09);
    let nf = fields.len();
    if nf < 3 {
        return ;
    }
    proof {
        assert(fields@[0]@ == seq_views(fields@)[0]);
        assert(fields@[1]@ == seq_views(fields@)[1]);
        assert(fields@[2]@ == seq_views(fields@)[2]);
        if nf >= 4 {
            assert(fields@[3]@ == seq_views(fields@)[3]);
        }
        if nf >= 5 {
            assert(fields@[4]@ == seq_views(fields@)[4]);
        }
    }
    let first_ip = match parse_ip(fields[0].as_slice()) {
        Option::Some(v) => v,
        Option::None => { return ; },
    };
    let last_ip = match parse_ip(fields[1].as_slice()) {
        Option::Some(v) => v,
        Option::None => { return ; },
    };
    let number = match parse_u32(fields[2].as_slice()) {
        Option::Some(v) => v,
        Option::None => { return ; },
    };
    let ghost fvec0: Seq<Vec<u8>> = fields@;
    let description: Vec<u8> = if nf >= 5 {
        fields.remove(4)
    } else {
        Vec::new()
    };
    proof {
        if nf >= 5 {
            assert(fields@[3] == fvec0[3]);
        }
    }
    let country: Vec<u8> = if nf >= 4 {
        fields.remove(3)
    } else {
        Vec::new()
    };
    db.push_row(first_ip, last_ip, number, country, description);
}

/// The insert position always lies inside the vector, sorted or not.
proof fn lemma_insert_pos_in_range(recs: Seq<AsnRecord>, k: int)
    ensures
        0 <= insert_pos(recs, k) <= recs.len(),
    decreases recs.len(),
{
    if recs.len() > 0 && !(recs.last().first_ip.key() <= k) {
        lemma_insert_pos_in_range(recs.drop_last(), k);
    }
}

/// Inserting anywhere adds exactly one copy to the multiset.
proof fn lemma_insert_to_multiset(s: Seq<AsnRecord>, pos: int, x: AsnRecord)
    requires
        0 <= pos <= s.len(),
    ensures
        s.insert(pos, x).to_multiset() =~= s.to_multiset().insert(x),
{
    let a = s.subrange(0, pos);
    let b = s.subrange(pos, s.len() as int);
    vstd::seq_lib::lemma_multiset_commutative(a.push(x), b);
    vstd::seq_lib::to_multiset_build(a, x);
    vstd::seq_lib::lemma_multiset_commutative(a, b);
    assert(s =~= a + b);
}

/// A row appended to the model in file order, with the same
/// acceptance test and interning as [`spec_push_row`].
pub open spec fn spec_push_row_in_order(
    m: DbModel,
    first_ip: IpAddress,
    last_ip: IpAddress,
    number: u32,
    country: Seq<u8>,
    description: Seq<u8>,
) -> DbModel {
    if first_ip.key() <= last_ip.key() && first_ip.same_family(last_ip) {
        let (cp, ci) = spec_intern(m.1, country);
        let (dp, di) = spec_intern(m.2, description);
        let rec = AsnRecord {
            first_ip,
            last_ip,
            number,
            country: ci as usize,
            description: di as usize,
        };
        (m.0.push(rec), cp, dp)
    } else {
        m
    }
}

/// One raw line folded in file order: the same reading as
/// [`spec_row_step`], records appended instead of sorted in.
pub open spec fn spec_row_step_in_order(m: DbModel, raw: Seq<u8>) -> DbModel {
    let l = strip_cr(raw);
    if all_space(l) {
        m
    } else {
        let fields = spec_split(l, 0x09);
        if fields.len() < 3 {
            m
        } else if spec_parse_ip(fields[0]) is Some && spec_parse_ip(fields[1]) is Some
            && spec_parse_u32(fields[2]) is Some {
            let c = if fields.len() >= 4 {
                fields[3]
            } else {
                Seq::<u8>::empty()
            };
            let d = if fields.len() >= 5 {
                fields[4]
            } else {
                Seq::<u8>::empty()
            };
            spec_push_row_in_order(
                m,
                spec_parse_ip(fields[0]).unwrap(),
                spec_parse_ip(fields[1]).unwrap(),
                spec_parse_u32(fields[2]).unwrap(),
                c,
                d,
            )
        } else {
            m
        }
    }
}

/// The accepted rows of the first `i` lines, in file order.
pub open spec fn spec_rows_in_order(lines: Seq<Seq<u8>>, i: int) -> DbModel
    decreases i,
{
    if i <= 0 {
        (Seq::<AsnRecord>::empty(), Seq::<Seq<u8>>::empty(), Seq::<Seq<u8>>::empty())
    } else {
        spec_row_step_in_order(spec_rows_in_order(lines, i - 1), lines[i - 1])
    }
}

/// Law: parsing permutes the accepted rows and nothing else. The
/// sorted fold and the file-order fold build the same pools, and their
/// record vectors hold the same multiset: every accepted row appears
/// exactly once, none is invented or dropped.
pub proof fn lemma_parse_permutes_rows(lines: Seq<Seq<u8>>, i: int)
    requires
        0 <= i,
    ensures
        spec_parse_lines(lines, i).1 == spec_rows_in_order(lines, i).1,
        spec_parse_lines(lines, i).2 == spec_rows_in_order(lines, i).2,
        spec_parse_lines(lines, i).0.to_multiset() == spec_rows_in_order(lines, i).0.to_multiset(),
    decreases i,
{
    if i > 0 {
        lemma_parse_permutes_rows(lines, i - 1);
        let ms = spec_parse_lines(lines, i - 1);
        let mo = spec_rows_in_order(lines, i - 1);
        let l = strip_cr(lines[i - 1]);
        let fields = spec_split(l, 0x09);
        if !all_space(l) && fields.len() >= 3 && spec_parse_ip(fields[0]) is Some && spec_parse_ip(
            fields[1],
        ) is Some && spec_parse_u32(fields[2]) is Some {
            let first_ip = spec_parse_ip(fields[0]).unwrap();
            let last_ip = spec_parse_ip(fields[1]).unwrap();
            if first_ip.key() <= last_ip.key() && first_ip.same_family(last_ip) {
                let c = if fields.len() >= 4 {
                    fields[3]
                } else {
                    Seq::<u8>::empty()
                };
                let (cp, ci) = spec_intern(ms.1, c);
                let d = if fields.len() >= 5 {
                    fields[4]
                } else {
                    Seq::<u8>::empty()
                };
                let (dp, di) = spec_intern(ms.2, d);
                let rec = AsnRecord {
                    first_ip,
                    last_ip,
                    number: spec_parse_u32(fields[2]).unwrap(),
                    country: ci as usize,
                    description: di as usize,
                };
                lemma_insert_pos_in_range(ms.0, first_ip.key());
                lemma_insert_to_multiset(ms.0, insert_pos(ms.0, first_ip.key()), rec);
                vstd::seq_lib::to_multiset_build(mo.0, rec);
            }
        }
    }
}

/// Law: a parsed database's records are a permutation of the accepted
/// rows of the snapshot in file order (and, by [`model_wf`], sorted
/// ascending by first address).
pub proof fn lemma_parse_content_permutes_rows(content: Seq<u8>)
    ensures
        ({
            let lines = spec_split(content, 0x0a);
            &&& spec_parse_content(content).0.to_multiset() == spec_rows_in_order(
                lines,
                lines.len() as int,
            ).0.to_multiset()
            &&& spec_parse_content(content).1 == spec_rows_in_order(lines, lines.len() as int).1
            &&& spec_parse_content(content).2 == spec_rows_in_order(lines, lines.len() as int).2
        }),
{
    let lines = spec_split(content, 0x0a);
    lemma_parse_permutes_rows(lines, lines.len() as int);
}

/// Law: parsing is deterministic. Two databases parsed from the same
/// decompressed snapshot have identical record sequences and identical
/// pools: the sort order and the interning depend on the bytes alone.
pub proof fn lemma_parse_deterministic(db1: Database, db2: Database, content: Seq<u8>)
    requires
        db1.model() == spec_parse_content(content),
        db2.model() == spec_parse_content(content),
    ensures
        db1.model().0 == db2.model().0,
        db1.model().1 == db2.model().1,
        db1.model().2 == db2.model().2,
{
}

/// Law: interning shares storage. In a well-formed model, two records
/// whose country bytes are equal hold the same country pool index.
pub proof fn lemma_interning_shares_country(m: DbModel, i: int, j: int)
    requires
        model_wf(m),
        0 <= i < m.0.len(),
        0 <= j < m.0.len(),
        m.1[m.0[i].country as int] == m.1[m.0[j].country as int],
    ensures
        m.0[i].country == m.0[j].country,
{
    let a = m.0[i].country as int;
    let b = m.0[j].country as int;
    if a < b {
        assert(m.1[a] != m.1[b]);
    } else if b < a {
        assert(m.1[b] != m.1[a]);
    }
}

/// Law: interning shares storage. In a well-formed model, two records
/// whose description bytes are equal hold the same description pool
/// index.
pub proof fn lemma_interning_shares_description(m: DbModel, i: int, j: int)
    requires
        model_wf(m),
        0 <= i < m.0.len(),
        0 <= j < m.0.len(),
        m.2[m.0[i].description as int] == m.2[m.0[j].description as int],
    ensures
        m.0[i].description == m.0[j].description,
{
    let a = m.0[i].description as int;
    let b = m.0[j].description as int;
    if a < b {
        assert(m.2[a] != m.2[b]);
    } else if b < a {
        assert(m.2[b] != m.2[a]);
    }
}

/// Binary search for the insert position of a first-address key.
fn find_insert_pos(recs: &Vec<AsnRecord>, ip: &IpAddress) -> (pos: usize)
    requires
        sorted_by_first(recs@),
    ensures
        pos as int == insert_pos(recs@, ip.key()),
        pos <= recs@.len(),
{
    let mut lo: usize = 0;
    let mut hi: usize = recs.len();
    while lo < hi
        invariant
            lo <= hi <= recs@.len(),
            sorted_by_first(recs@),
            forall|i: int| 0 <= i < lo ==> (#[trigger] recs@[i]).first_ip.key() <= ip.key(),
            forall|i: int| hi <= i < recs@.len() ==> (#[trigger] recs@[i]).first_ip.key() > ip.key(),
        decreases hi - lo,
    {
        let mid = lo + (hi - lo) / 2;
        if recs[mid].first_ip.le(ip) {
            proof {
                assert forall|i: int| 0 <= i < mid + 1 implies (#[trigger] recs@[i]).first_ip.key()
                    <= ip.key() by {
                    if i < mid {
                        assert(recs@[i].first_ip.key() <= recs@[mid as int].first_ip.key());
                    }
                }
            }
            lo = mid + 1;
        } else {
            proof {
                assert forall|i: int|
                    mid <= i < recs@.len() implies (#[trigger] recs@[i]).first_ip.key()
                    > ip.key() by {
                    if i > mid {
                        assert(recs@[mid as int].first_ip.key() <= recs@[i].first_ip.key());
                    }
                }
            }
            hi = mid;
        }
    }
    proof {
        lemma_insert_pos_unique(recs@, ip.key(), lo as int);
    }
    lo
}

} // verus!
