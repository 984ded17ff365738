//! The enrichment stage: one contact record plus one lookup outcome give
//! either an enriched contact to publish or a reason to skip the record.
//!
//! The outer program drives the loop — pull a record, perform the bounded
//! remote lookup, hand both to `enrich_contact`, publish or log — while the
//! decision itself is made here. A failed lookup never stops the stage: the
//! record is skipped and the next one is processed.

use crate::coords::Coordinate;
use crate::qrzcom::Callsign;
use crate::qrzcom::QRZComError;
use crate::receiver::ContactInfo;
use vstd::prelude::*;
use vstd::string::StringExecFns;

verus! {

/// One enriched contact: the record's fields plus the station's location.
/// `(0, 0)` is the "location unknown" sentinel, published like any other
/// value, never an error.
#[derive(Debug)]
pub struct QSO {
    pub call: String,
    pub band: String,
    pub latitude: Coordinate,
    pub longitude: Coordinate,
}

impl Clone for QSO {
    fn clone(&self) -> (r: QSO)
        ensures
            r == *self,
    {
        QSO {
            call: self.call.clone(),
            band: self.band.clone(),
            latitude: self.latitude,
            longitude: self.longitude,
        }
    }
}

impl QSO {
    /// Whether `r` spells this contact: the call, the band in parentheses,
    /// and the two coordinates, each as a decimal text of its exact value,
    /// in brackets.
    pub open spec fn is_message(self, r: Seq<char>) -> bool {
        exists|lt: Seq<char>, lnt: Seq<char>|
            {
                &&& crate::coords::coordinate_text_of(self.latitude, lt)
                &&& crate::coords::coordinate_text_of(self.longitude, lnt)
                &&& r == self.call@ + " ("@ + self.band@ + ") ["@ + lt + " "@ + lnt + "]"@
            }
    }

    pub fn message(&self) -> (r: String)
        requires
            -1_000_000_000_000 < self.latitude.nanodeg < 1_000_000_000_000,
            -1_000_000_000_000 < self.longitude.nanodeg < 1_000_000_000_000,
        ensures
            self.is_message(r@),
    {
        let mut r = self.call.clone();
        r.append(" (");
        r.append(self.band.as_str());
        r.append(") [");
        let lt = self.latitude.to_text();
        r.append(lt.as_str());
        r.append(" ");
        let lnt = self.longitude.to_text();
        r.append(lnt.as_str());
        r.append("]");
        proof {
            assert(crate::coords::coordinate_text_of(self.latitude, lt@)
                && crate::coords::coordinate_text_of(self.longitude, lnt@) && r@ == self.call@
                + " ("@ + self.band@ + ") ["@ + lt@ + " "@ + lnt@ + "]"@);
        }
        r
    }
}

/// What can go wrong in the enrichment stage: the record source is gone,
/// the publish side is gone, or the lookup failed.
#[derive(Debug)]
pub enum EnricherError {
    RecvError(String),
    SendError(String),
    QRZComError(QRZComError),
}

impl From<QRZComError> for EnricherError {
    fn from(value: QRZComError) -> (r: EnricherError) {
        EnricherError::QRZComError(value)
    }
}

impl vstd::std_specs::convert::FromSpecImpl<QRZComError> for EnricherError {
    open spec fn obeys_from_spec() -> bool {
        true
    }

    open spec fn from_spec(value: QRZComError) -> EnricherError {
        EnricherError::QRZComError(value)
    }
}

impl EnricherError {
    pub open spec fn spec_message(self) -> Seq<char> {
        match self {
            EnricherError::RecvError(e) => "Receive error: "@ + e@,
            EnricherError::SendError(e) => "Send error: "@ + e@,
            EnricherError::QRZComError(e) => "QRZ.com error: "@ + e.spec_message(),
        }
    }

    pub fn message(&self) -> (r: String)
        ensures
            r@ == self.spec_message(),
    {
        match self {
            EnricherError::RecvError(e) => {
                let mut r = String::from_str("Receive error: ");
                r.append(e.as_str());
                r
            },
            EnricherError::SendError(e) => {
                let mut r = String::from_str("Send error: ");
                r.append(e.as_str());
                r
            },
            EnricherError::QRZComError(e) => {
                let mut r = String::from_str("QRZ.com error: ");
                let m = e.message();
                r.append(m.as_str());
                r
            },
        }
    }
}

/// A reported coordinate, or the "unknown" sentinel when the directory gave
/// none.
pub open spec fn spec_or_zero(o: Option<Coordinate>) -> Coordinate {
    match o {
        Some(c) => c,
        None => Coordinate { nanodeg: 0 },
    }
}

/// The enriched contact one record and one successful lookup give.
pub open spec fn spec_enriched(contact: ContactInfo, cs: Callsign) -> QSO {
    QSO {
        call: contact.call,
        band: contact.band,
        latitude: spec_or_zero(cs.lat),
        longitude: spec_or_zero(cs.lon),
    }
}

/// What one enrichment step decides.
#[derive(Debug)]
pub enum EnrichOutcome {
    /// Publish this enriched contact; `location_unknown` asks the caller to
    /// log a warning when both coordinates fell back to the sentinel.
    Publish { qso: QSO, location_unknown: bool },
    /// Publish nothing for this record and go on with the next one.
    Skip { error: EnricherError },
}

/// One enrichment step: a successful lookup publishes the record with the
/// reported coordinates, each missing one falling back to the sentinel
/// independently; a failed lookup publishes nothing and carries the error
/// out for logging.
pub fn enrich_contact(contact: ContactInfo, lookup: Result<Callsign, QRZComError>) -> (r:
    EnrichOutcome)
    ensures
        match lookup {
            Ok(cs) => r == (EnrichOutcome::Publish {
                qso: spec_enriched(contact, cs),
                location_unknown: spec_or_zero(cs.lat).is_zero() && spec_or_zero(cs.lon).is_zero(),
            }),
            Err(e) => r == (EnrichOutcome::Skip { error: EnricherError::QRZComError(e) }),
        },
{
    match lookup {
        Ok(cs) => {
            let latitude = match cs.lat {
                Some(c) => c,
                None => Coordinate::zero(),
            };
            let longitude = match cs.lon {
                Some(c) => c,
                None => Coordinate::zero(),
            };
            let location_unknown = latitude.nanodeg == 0 && longitude.nanodeg == 0;
            EnrichOutcome::Publish {
                qso: QSO { call: contact.call, band: contact.band, latitude, longitude },
                location_unknown,
            }
        },
        Err(e) => EnrichOutcome::Skip { error: EnricherError::QRZComError(e) },
    }
}

/// The enriched contacts a stream of records and their lookup outcomes
/// give, in order: one per successful lookup, none for a failed one.
pub open spec fn enriched_seq(
    contacts: Seq<ContactInfo>,
    lookups: Seq<Result<Callsign, QRZComError>>,
) -> Seq<QSO>
    decreases contacts.len(),
{
    if contacts.len() == 0 || lookups.len() == 0 {
        Seq::empty()
    } else {
        let rest = enriched_seq(contacts.drop_last(), lookups.drop_last());
        match lookups.last() {
            Ok(cs) => rest.push(spec_enriched(contacts.last(), cs)),
            Err(_) => rest,
        }
    }
}

/// The enrichment stage over a batch of records with their lookup
/// outcomes: exactly the successful lookups' enriched contacts come out, in
/// the records' order; a failure drops its record alone.
pub fn enrich_batch(contacts: Vec<ContactInfo>, lookups: Vec<Result<Callsign, QRZComError>>) -> (r:
    Vec<QSO>)
    requires
        contacts@.len() == lookups@.len(),
    ensures
        r@ == enriched_seq(contacts@, lookups@),
{
    let ghost all_c = contacts@;
    let ghost all_l = lookups@;
    let mut contacts = contacts;
    let mut lookups = lookups;
    let mut out: Vec<QSO> = Vec::new();
    let mut i: usize = 0;
    let n = contacts.len();
    while i < n
        invariant
            0 <= i <= n,
            n == all_c.len(),
            all_c.len() == all_l.len(),
            contacts@ == all_c.subrange(i as int, n as int),
            lookups@ == all_l.subrange(i as int, n as int),
            out@ == enriched_seq(all_c.subrange(0, i as int), all_l.subrange(0, i as int)),
        decreases n - i,
    {
        let c = contacts.remove(0);
        let l = lookups.remove(0);
        proof {
            assert(c == all_c[i as int]);
            assert(l == all_l[i as int]);
            assert(contacts@ =~= all_c.subrange(i + 1, n as int));
            assert(lookups@ =~= all_l.subrange(i + 1, n as int));
            assert(all_c.subrange(0, i + 1).drop_last() =~= all_c.subrange(0, i as int));
            assert(all_l.subrange(0, i + 1).drop_last() =~= all_l.subrange(0, i as int));
            assert(all_c.subrange(0, i + 1).last() == all_c[i as int]);
            assert(all_l.subrange(0, i + 1).last() == all_l[i as int]);
        }
        match enrich_contact(c, l) {
            EnrichOutcome::Publish { qso, location_unknown: _ } => {
                out.push(qso);
            },
            EnrichOutcome::Skip { error: _ } => {},
        }
        i += 1;
    }
    proof {
        assert(all_c.subrange(0, n as int) =~= all_c);
        assert(all_l.subrange(0, n as int) =~= all_l);
    }
    out
}

/// A stream of records enriches piecewise.
pub proof fn lemma_enriched_seq_append(
    a: Seq<ContactInfo>,
    b: Seq<Result<Callsign, QRZComError>>,
    c: Seq<ContactInfo>,
    d: Seq<Result<Callsign, QRZComError>>,
)
    requires
        a.len() == b.len(),
        c.len() == d.len(),
    ensures
        enriched_seq(a + c, b + d) == enriched_seq(a, b) + enriched_seq(c, d),
    decreases c.len(),
{
    if c.len() == 0 {
        assert(a + c =~= a);
        assert(b + d =~= b);
        assert(enriched_seq(a, b) + enriched_seq(c, d) =~= enriched_seq(a, b));
    } else {
        lemma_enriched_seq_append(a, b, c.drop_last(), d.drop_last());
        assert((a + c).drop_last() =~= a + c.drop_last());
        assert((b + d).drop_last() =~= b + d.drop_last());
        assert((a + c).last() == c.last());
        assert((b + d).last() == d.last());
        match d.last() {
            Ok(cs) => {
                assert(enriched_seq(a, b) + enriched_seq(c, d) =~= (enriched_seq(a, b)
                    + enriched_seq(c.drop_last(), d.drop_last())).push(
                    spec_enriched(c.last(), cs),
                ));
            },
            Err(_) => {},
        }
    }
}

/// A record whose lookup failed publishes nothing, and every record around
/// it is enriched as if the failed one never arrived.
pub proof fn lemma_failed_lookup_skipped(
    cb: Seq<ContactInfo>,
    lb: Seq<Result<Callsign, QRZComError>>,
    c: ContactInfo,
    e: QRZComError,
    ca: Seq<ContactInfo>,
    la: Seq<Result<Callsign, QRZComError>>,
)
    requires
        cb.len() == lb.len(),
        ca.len() == la.len(),
    ensures
        enriched_seq(cb.push(c) + ca, lb.push(Err(e)) + la) == enriched_seq(cb + ca, lb + la),
{
    lemma_enriched_seq_append(cb.push(c), lb.push(Err(e)), ca, la);
    lemma_enriched_seq_append(cb, lb, ca, la);
    assert(cb.push(c).drop_last() =~= cb);
    assert(lb.push(Err(e)).drop_last() =~= lb);
    assert(enriched_seq(cb.push(c), lb.push(Err(e))) == enriched_seq(cb, lb));
}

/// A record whose lookup succeeded is published exactly once, at its place
/// in the stream.
pub proof fn lemma_lookup_success_published_once(
    cb: Seq<ContactInfo>,
    lb: Seq<Result<Callsign, QRZComError>>,
    c: ContactInfo,
    cs: Callsign,
    ca: Seq<ContactInfo>,
    la: Seq<Result<Callsign, QRZComError>>,
)
    requires
        cb.len() == lb.len(),
        ca.len() == la.len(),
    ensures
        enriched_seq(cb.push(c) + ca, lb.push(Ok(cs)) + la) == enriched_seq(cb, lb) + seq![
            spec_enriched(c, cs),
        ] + enriched_seq(ca, la),
{
    lemma_enriched_seq_append(cb.push(c), lb.push(Ok(cs)), ca, la);
    assert(cb.push(c).drop_last() =~= cb);
    assert(lb.push(Ok(cs)).drop_last() =~= lb);
    assert(enriched_seq(cb.push(c), lb.push(Ok(cs))) == enriched_seq(cb, lb).push(
        spec_enriched(c, cs),
    ));
    assert(enriched_seq(cb, lb) + seq![spec_enriched(c, cs)] + enriched_seq(ca, la)
        =~= enriched_seq(cb, lb).push(spec_enriched(c, cs)) + enriched_seq(ca, la));
}

} // verus!
