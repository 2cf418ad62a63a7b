//! The interval index: an immutable sorted record vector answering
//! point lookups by binary search over half-open numeric comparisons.

use vstd::prelude::*;

use crate::ip::IpAddress;
use crate::parser::{model_wf, AsnRecord, Database, DbModel};
use crate::text::seq_views;

verus! {

/// A record covers an address when the address lies in its closed
/// range. Keys order all IPv4 below all IPv6, and well-formed records
/// never span families, so this is in-family range membership.
pub open spec fn covers(r: AsnRecord, ip: IpAddress) -> bool {
    r.first_ip.key() <= ip.key() <= r.last_ip.key()
}

/// No two records' ranges share an address.
pub open spec fn disjoint_intervals(recs: Seq<AsnRecord>) -> bool {
    forall|i: int, j: int|
        #![trigger recs[i], recs[j]]
        0 <= i < j < recs.len() ==> (recs[i].last_ip.key() < recs[j].first_ip.key()
            || recs[j].last_ip.key() < recs[i].first_ip.key())
}

/// The store for lookups: a parsed database frozen for reading.
#[derive(Debug)]
pub struct AsnStore {
    pub records: Vec<AsnRecord>,
    pub countries: Vec<Vec<u8>>,
    pub descriptions: Vec<Vec<u8>>,
}

/// In a sorted, disjoint, well-formed vector an earlier range ends
/// before a later one begins.
proof fn lemma_sorted_disjoint_order(m: DbModel, i: int, j: int)
    requires
        model_wf(m),
        disjoint_intervals(m.0),
        0 <= i < j < m.0.len(),
    ensures
        m.0[i].last_ip.key() < m.0[j].first_ip.key(),
{
    assert(m.0[i].first_ip.key() <= m.0[j].first_ip.key());
}

impl AsnStore {
    /// The mathematical content: records and pools, as in `Database`.
    pub open spec fn model(self) -> DbModel {
        (self.records@, seq_views(self.countries@), seq_views(self.descriptions@))
    }

    /// Well-formedness, inherited from the database that built it.
    pub open spec fn wf(self) -> bool {
        model_wf(self.model())
    }

    /// Freeze a parsed database for reading.
    pub fn new(database: Database) -> (s: AsnStore)
        ensures
            s.model() == database.model(),
    {
        AsnStore {
            records: database.records,
            countries: database.countries,
            descriptions: database.descriptions,
        }
    }

    /// Binary search for a record covering `ip`. A returned record
    /// covers the address; when the table's ranges are disjoint, `None`
    /// means no record covers it, and the found record is the only one.
    pub fn lookup(&self, ip: IpAddress) -> (r: Option<&AsnRecord>)
        requires
            self.wf(),
        ensures
            match r {
                Option::Some(rec) => exists|k: int|
                    0 <= k < self.model().0.len() && self.model().0[k] == *rec && covers(*rec, ip),
                Option::None => disjoint_intervals(self.model().0) ==> forall|k: int|
                    0 <= k < self.model().0.len() ==> !covers(#[trigger] self.model().0[k], ip),
            },
    {
        let ghost recs: Seq<AsnRecord> = self.records@;
        let mut lo: usize = 0;
        let mut hi: usize = self.records.len();
        while lo < hi
            invariant
                lo <= hi <= recs.len(),
                recs == self.records@,
                self.wf(),
                disjoint_intervals(recs) ==> forall|k: int|
                    0 <= k < lo ==> !covers(#[trigger] recs[k], ip),
                forall|k: int| hi <= k < recs.len() ==> !covers(#[trigger] recs[k], ip),
            decreases hi - lo,
        {
            let mid = lo + (hi - lo) / 2;
            let rec = &self.records[mid];
            if ip.lt(&rec.first_ip) {
                proof {
                    assert forall|k: int| mid <= k < recs.len() implies !covers(
                        #[trigger] recs[k],
                        ip,
                    ) by {
                        if k > mid {
                            assert(recs[mid as int].first_ip.key() <= recs[k].first_ip.key());
                        }
                    }
                }
                hi = mid;
            } else if rec.last_ip.lt(&ip) {
                proof {
                    if disjoint_intervals(recs) {
                        assert forall|k: int| 0 <= k < mid + 1 implies !covers(
                            #[trigger] recs[k],
                            ip,
                        ) by {
                            if k < mid {
                                lemma_sorted_disjoint_order(self.model(), k, mid as int);
                            }
                        }
                    }
                }
                lo = mid + 1;
            } else {
                proof {
                    assert(covers(recs[mid as int], ip));
                }
                return Some(rec);
            }
        }
        None
    }

    /// Total number of records.
    pub fn len(&self) -> (n: usize)
        ensures
            n == self.model().0.len(),
    {
        self.records.len()
    }

    /// Whether the store holds no records.
    pub fn is_empty(&self) -> (r: bool)
        ensures
            r == (self.model().0.len() == 0),
    {
        self.records.is_empty()
    }
}

/// Law: in a well-formed store every record's range is ordered,
/// `first_ip <= last_ip`, and both ends belong to one address family.
pub proof fn lemma_store_records_valid(s: AsnStore, k: int)
    requires
        s.wf(),
        0 <= k < s.model().0.len(),
    ensures
        s.model().0[k].first_ip.key() <= s.model().0[k].last_ip.key(),
        s.model().0[k].first_ip.same_family(s.model().0[k].last_ip),
{
}

/// Law: the record vector of a well-formed store is sorted ascending
/// by first address.
pub proof fn lemma_store_sorted(s: AsnStore, i: int, j: int)
    requires
        s.wf(),
        0 <= i < j < s.model().0.len(),
    ensures
        s.model().0[i].first_ip.key() <= s.model().0[j].first_ip.key(),
{
}

/// Law: when the table's ranges are disjoint, at most one record
/// covers any address. Together with `lookup` borrowing the store
/// immutably and pinning its answer to the store's content alone, this
/// makes repeated lookups of one address agree.
pub proof fn lemma_covering_unique(recs: Seq<AsnRecord>, ip: IpAddress, i: int, j: int)
    requires
        disjoint_intervals(recs),
        0 <= i < recs.len(),
        0 <= j < recs.len(),
        covers(recs[i], ip),
        covers(recs[j], ip),
    ensures
        i == j,
{
    if i < j {
        assert(recs[i].last_ip.key() < recs[j].first_ip.key() || recs[j].last_ip.key()
            < recs[i].first_ip.key());
    } else if j < i {
        assert(recs[j].last_ip.key() < recs[i].first_ip.key() || recs[i].last_ip.key()
            < recs[j].first_ip.key());
    }
}

} // verus!
