//! The ingestion side: contact records and the datagram record format.
//!
//! Logging software broadcasts one contact per datagram. The agreed record
//! shape is `<ContactInfo><call>CALL</call><band>BAND</band></ContactInfo>`,
//! where `CALL` is non-empty and neither field contains `<`. A payload of
//! any other shape is malformed: it is reported as an error and the caller
//! discards it and goes on with the next datagram.

use vstd::prelude::*;
use vstd::string::StrSliceExecFns;
use vstd::string::StringExecFns;

verus! {

/// One contact record decoded from a datagram.
#[derive(Debug)]
pub struct ContactInfo {
    pub call: String,
    pub band: String,
}

impl PartialEq for ContactInfo {
    fn eq(&self, other: &ContactInfo) -> (r: bool) {
        self.call == other.call && self.band == other.band
    }
}

impl vstd::std_specs::cmp::PartialEqSpecImpl for ContactInfo {
    open spec fn obeys_eq_spec() -> bool {
        true
    }

    open spec fn eq_spec(&self, other: &ContactInfo) -> bool {
        self.call@ == other.call@ && self.band@ == other.band@
    }
}

impl ContactInfo {
    /// The record as text: the call, then the band in parentheses.
    pub open spec fn spec_message(self) -> Seq<char> {
        self.call@ + " ("@ + self.band@ + ")"@
    }

    pub fn message(&self) -> (r: String)
        ensures
            r@ == self.spec_message(),
    {
        let mut r = self.call.clone();
        r.append(" (");
        r.append(self.band.as_str());
        r.append(")");
        r
    }
}

/// What can go wrong on the ingestion side.
///
/// A socket failure is fatal for the listener; a malformed payload is
/// recoverable; a send failure hands the undelivered record back.
#[derive(Debug)]
pub enum ReceiverError {
    UDPSocket(String),
    XMLParsing(String),
    QueueSenderError(ContactInfo),
}

impl ReceiverError {
    pub open spec fn spec_message(self) -> Seq<char> {
        match self {
            ReceiverError::UDPSocket(e) => "UDP Socket error: "@ + e@,
            ReceiverError::XMLParsing(e) => "XML Parsing error: "@ + e@,
            ReceiverError::QueueSenderError(c) => "Queue sender error: "@ + c.spec_message(),
        }
    }

    pub fn message(&self) -> (r: String)
        ensures
            r@ == self.spec_message(),
    {
        match self {
            ReceiverError::UDPSocket(e) => {
                let mut r = String::from_str("UDP Socket error: ");
                r.append(e.as_str());
                r
            },
            ReceiverError::XMLParsing(e) => {
                let mut r = String::from_str("XML Parsing error: ");
                r.append(e.as_str());
                r
            },
            ReceiverError::QueueSenderError(c) => {
                let mut r = String::from_str("Queue sender error: ");
                let m = c.message();
                r.append(m.as_str());
                r
            },
        }
    }
}

/// The fields a datagram may carry: a non-empty call, and no `<` inside
/// either field, so that the record shape reads back unambiguously.
pub open spec fn valid_contact_fields(call: Seq<char>, band: Seq<char>) -> bool {
    &&& call.len() as int > 0
    &&& !call.contains('<')
    &&& !band.contains('<')
}

pub open spec fn dg_head() -> Seq<char> {
    "<ContactInfo><call>"@
}

pub open spec fn dg_mid() -> Seq<char> {
    "</call><band>"@
}

pub open spec fn dg_tail() -> Seq<char> {
    "</band></ContactInfo>"@
}

/// The agreed record shape of one datagram.
pub open spec fn contact_datagram(call: Seq<char>, band: Seq<char>) -> Seq<char> {
    dg_head() + call + dg_mid() + band + dg_tail()
}

/// What a payload decodes to, if anything.
pub open spec fn spec_decode(payload: Seq<char>) -> Option<(Seq<char>, Seq<char>)> {
    if exists|call: Seq<char>, band: Seq<char>|
        valid_contact_fields(call, band) && payload == contact_datagram(call, band) {
        Some(
            choose|call: Seq<char>, band: Seq<char>|
                valid_contact_fields(call, band) && payload == contact_datagram(call, band),
        )
    } else {
        None
    }
}

/// What the record shape pins down: the three fixed parts stand at fixed
/// places, and the two fields are the `<`-free runs between them.
proof fn lemma_datagram_structure(p: Seq<char>, call: Seq<char>, band: Seq<char>)
    requires
        valid_contact_fields(call, band),
        p == contact_datagram(call, band),
    ensures
        p.len() == 19 + call.len() as int + 13 + band.len() as int + 21,
        19 <= p.len(),
        p.subrange(0, 19) == dg_head(),
        call =~= p.subrange(19, 19 + call.len() as int),
        forall|j: int| 19 <= j < 19 + call.len() as int ==> #[trigger] p[j] != '<',
        p[19 + call.len() as int] == '<',
        p.subrange(19 + call.len() as int, 19 + call.len() as int + 13) == dg_mid(),
        band =~= p.subrange(19 + call.len() as int + 13, 19 + call.len() as int + 13 + band.len() as int),
        forall|j: int|
            19 + call.len() as int + 13 <= j < 19 + call.len() as int + 13 + band.len() as int ==> #[trigger] p[j]
                != '<',
        p[19 + call.len() as int + 13 + band.len() as int] == '<',
        p.subrange(19 + call.len() as int + 13 + band.len() as int, p.len() as int) == dg_tail(),
{
    reveal_strlit("<ContactInfo><call>");
    reveal_strlit("</call><band>");
    reveal_strlit("</band></ContactInfo>");
    assert(dg_head().len() as int == 19);
    assert(dg_mid().len() as int == 13);
    assert(dg_tail().len() as int == 21);
    assert(forall|j: int| 0 <= j < call.len() as int ==> #[trigger] p[19 + j] == call[j]);
    assert(forall|j: int|
        0 <= j < band.len() as int ==> #[trigger] p[19 + call.len() as int + 13 + j] == band[j]);
    assert forall|j: int| 19 <= j < 19 + call.len() as int implies #[trigger] p[j] != '<' by {
        assert(p[j] == call[j - 19]);
        assert(call[j - 19] != '<');
    }
    assert(forall|k: int| 0 <= k < band.len() as int ==> #[trigger] band[k] != '<');
    assert(p.subrange(0, 19) =~= dg_head());
    assert(p[19 + call.len() as int] == dg_mid()[0]);
    assert(p.subrange(19 + call.len() as int, 19 + call.len() as int + 13) =~= dg_mid());
    assert(p[19 + call.len() as int + 13 + band.len() as int] == dg_tail()[0]);
    assert(p.subrange(19 + call.len() as int + 13 + band.len() as int, p.len() as int) =~= dg_tail());
    assert(call =~= p.subrange(19, 19 + call.len() as int));
    assert(band =~= p.subrange(19 + call.len() as int + 13, 19 + call.len() as int + 13 + band.len() as int));
}

/// A scan that stopped at the first `<` at or past the head found the end
/// of the call field.
proof fn lemma_scan_finds_call_end(p: Seq<char>, call: Seq<char>, band: Seq<char>, call_end: int)
    requires
        valid_contact_fields(call, band),
        p == contact_datagram(call, band),
        19 <= call_end <= p.len(),
        forall|j: int| 19 <= j < call_end ==> #[trigger] p[j] != '<',
        call_end == p.len() || p[call_end] == '<',
    ensures
        call_end == 19 + call.len() as int,
{
    lemma_datagram_structure(p, call, band);
    if call_end < 19 + call.len() as int {
        assert(p[call_end] != '<');
        assert(false);
    } else if call_end > 19 + call.len() as int {
        assert(p[19 + call.len() as int] == '<');
        assert(false);
    }
}

/// A scan that stopped at the first `<` at or past the middle part found
/// the end of the band field.
proof fn lemma_scan_finds_band_end(p: Seq<char>, call: Seq<char>, band: Seq<char>, band_end: int)
    requires
        valid_contact_fields(call, band),
        p == contact_datagram(call, band),
        19 + call.len() as int + 13 <= band_end <= p.len(),
        forall|j: int| 19 + call.len() as int + 13 <= j < band_end ==> #[trigger] p[j] != '<',
        band_end == p.len() || p[band_end] == '<',
    ensures
        band_end == 19 + call.len() as int + 13 + band.len() as int,
{
    lemma_datagram_structure(p, call, band);
    if band_end < 19 + call.len() as int + 13 + band.len() as int {
        assert(p[band_end] != '<');
        assert(false);
    } else if band_end > 19 + call.len() as int + 13 + band.len() as int {
        assert(p[19 + call.len() as int + 13 + band.len() as int] == '<');
        assert(false);
    }
}

/// One record shape spells one record: equal datagrams carry equal fields.
pub proof fn lemma_datagram_fields_unique(
    c1: Seq<char>,
    b1: Seq<char>,
    c2: Seq<char>,
    b2: Seq<char>,
)
    requires
        valid_contact_fields(c1, b1),
        valid_contact_fields(c2, b2),
        contact_datagram(c1, b1) == contact_datagram(c2, b2),
    ensures
        c1 == c2,
        b1 == b2,
{
    let p = contact_datagram(c1, b1);
    lemma_datagram_structure(p, c1, b1);
    lemma_datagram_structure(p, c2, b2);
    if (c1.len() as int) < (c2.len() as int) {
        assert(p[19 + c1.len() as int] == '<');
        assert(p[19 + c1.len() as int] != '<');
        assert(false);
    } else if c1.len() as int > c2.len() as int {
        assert(p[19 + c2.len() as int] == '<');
        assert(p[19 + c2.len() as int] != '<');
        assert(false);
    }
    assert(b1.len() as int == b2.len() as int);
    assert(c1 =~= c2);
    assert(b1 =~= b2);
}

/// A payload that spells a valid record decodes to exactly its fields.
pub proof fn lemma_decode_exact(p: Seq<char>, call: Seq<char>, band: Seq<char>)
    requires
        valid_contact_fields(call, band),
        p == contact_datagram(call, band),
    ensures
        spec_decode(p) == Some((call, band)),
{
    assert(exists|c: Seq<char>, b: Seq<char>|
        valid_contact_fields(c, b) && p == contact_datagram(c, b));
    let (c2, b2) = choose|c: Seq<char>, b: Seq<char>|
        valid_contact_fields(c, b) && p == contact_datagram(c, b);
    lemma_datagram_fields_unique(call, band, c2, b2);
}

/// Whether position `i` of `s` exists and holds anything but `<`.
fn before_lt(s: &str, i: usize) -> (r: bool)
    ensures
        r <==> (i < s@.len() && s@[i as int] != '<'),
{
    if i < s.unicode_len() {
        s.get_char(i) != '<'
    } else {
        false
    }
}

/// The first position at or after `from` that holds `<`, or the end.
fn scan_to_lt(s: &str, from: usize) -> (r: usize)
    requires
        from <= s@.len(),
    ensures
        from <= r <= s@.len(),
        forall|j: int| from <= j < r ==> s@[j] != '<',
        r == s@.len() || s@[r as int] == '<',
{
    let n = s.unicode_len();
    let mut i = from;
    while before_lt(s, i)
        invariant
            from <= i <= n,
            n == s@.len(),
            forall|j: int| from <= j < i ==> s@[j] != '<',
        decreases n - i,
    {
        i += 1;
    }
    i
}

/// Whether `pat` stands in `s` at position `i`.
fn match_at(s: &str, i: usize, pat: &str) -> (r: bool)
    ensures
        r <==> (i + pat@.len() <= s@.len() && s@.subrange(i as int, i + pat@.len()) == pat@),
{
    let n = s.unicode_len();
    let m = pat.unicode_len();
    if i > n || m > n - i {
        return false;
    }
    let mut j: usize = 0;
    while j < m
        invariant
            0 <= j <= m,
            m == pat@.len(),
            n == s@.len(),
            i + m <= n,
            forall|k: int| 0 <= k < j ==> s@[i + k] == pat@[k],
        decreases m - j,
    {
        if s.get_char(i + j) != pat.get_char(j) {
            proof {
                assert(s@.subrange(i as int, i + pat@.len())[j as int] == s@[i + j]);
            }
            return false;
        }
        j += 1;
    }
    proof {
        assert(s@.subrange(i as int, i + pat@.len()) =~= pat@);
    }
    true
}

/// A payload whose head does not match decodes to nothing.
proof fn lemma_head_mismatch(p: Seq<char>)
    requires
        !(dg_head().len() as int <= p.len() && p.subrange(0, dg_head().len() as int) == dg_head()),
    ensures
        spec_decode(p) is None,
{
    if spec_decode(p) is Some {
        let (c, b) = choose|c: Seq<char>, b: Seq<char>|
            valid_contact_fields(c, b) && p == contact_datagram(c, b);
        lemma_datagram_structure(p, c, b);
        reveal_strlit("<ContactInfo><call>");
        assert(false);
    }
}

/// A payload whose call run is empty, or is not followed by the middle
/// part, decodes to nothing.
proof fn lemma_call_mismatch(p: Seq<char>, call_end: int)
    requires
        dg_head().len() as int <= p.len() && p.subrange(0, dg_head().len() as int) == dg_head(),
        dg_head().len() as int <= call_end <= p.len(),
        forall|j: int| dg_head().len() as int <= j < call_end ==> #[trigger] p[j] != '<',
        call_end == p.len() || p[call_end] == '<',
        call_end == dg_head().len() as int || !(call_end + dg_mid().len() as int <= p.len() && p.subrange(
            call_end,
            call_end + dg_mid().len() as int,
        ) == dg_mid()),
    ensures
        spec_decode(p) is None,
{
    reveal_strlit("<ContactInfo><call>");
    if spec_decode(p) is Some {
        let (c, b) = choose|c: Seq<char>, b: Seq<char>|
            valid_contact_fields(c, b) && p == contact_datagram(c, b);
        lemma_datagram_structure(p, c, b);
        lemma_scan_finds_call_end(p, c, b, call_end);
        assert(call_end == 19 + c.len() as int);
        assert(call_end != dg_head().len() as int);
        assert(false);
    }
}

/// A payload whose band run is not followed by exactly the tail decodes to
/// nothing.
proof fn lemma_band_mismatch(p: Seq<char>, call_end: int, band_end: int)
    requires
        dg_head().len() as int <= p.len() && p.subrange(0, dg_head().len() as int) == dg_head(),
        dg_head().len() as int <= call_end <= p.len(),
        forall|j: int| dg_head().len() as int <= j < call_end ==> #[trigger] p[j] != '<',
        call_end == p.len() || p[call_end] == '<',
        call_end != dg_head().len() as int,
        call_end + dg_mid().len() as int <= p.len() && p.subrange(call_end, call_end + dg_mid().len() as int)
            == dg_mid(),
        call_end + dg_mid().len() as int <= band_end <= p.len(),
        forall|j: int| call_end + dg_mid().len() as int <= j < band_end ==> #[trigger] p[j] != '<',
        band_end == p.len() || p[band_end] == '<',
        !(band_end + dg_tail().len() as int <= p.len() && p.subrange(band_end, band_end + dg_tail().len() as int)
            == dg_tail()) || band_end + dg_tail().len() as int != p.len(),
    ensures
        spec_decode(p) is None,
{
    reveal_strlit("<ContactInfo><call>");
    reveal_strlit("</call><band>");
    reveal_strlit("</band></ContactInfo>");
    if spec_decode(p) is Some {
        let (c, b) = choose|c: Seq<char>, b: Seq<char>|
            valid_contact_fields(c, b) && p == contact_datagram(c, b);
        lemma_datagram_structure(p, c, b);
        lemma_scan_finds_call_end(p, c, b, call_end);
        assert(call_end == 19 + c.len() as int);
        lemma_scan_finds_band_end(p, c, b, band_end);
        assert(band_end == 19 + c.len() as int + 13 + b.len() as int);
        assert(p.subrange(band_end, band_end + dg_tail().len() as int) == dg_tail());
        assert(band_end + dg_tail().len() as int == p.len());
        assert(false);
    }
}

/// Decodes one datagram payload against the agreed record shape, exactly:
/// `Ok` holds the fields the payload spells, `Err` comes precisely on the
/// payloads that spell no valid record.
pub fn parse_contact_info(payload: &str) -> (r: Result<ContactInfo, ReceiverError>)
    ensures
        match r {
            Ok(c) => {
                &&& valid_contact_fields(c.call@, c.band@)
                &&& payload@ == contact_datagram(c.call@, c.band@)
                &&& spec_decode(payload@) == Some((c.call@, c.band@))
            },
            Err(e) => {
                &&& spec_decode(payload@) is None
                &&& (e matches ReceiverError::XMLParsing(m) && m@ == "malformed contact record"@)
            },
        },
{
    let head = "<ContactInfo><call>";
    let mid = "</call><band>";
    let tail = "</band></ContactInfo>";
    let n = payload.unicode_len();

    if !match_at(payload, 0, head) {
        proof {
            lemma_head_mismatch(payload@);
        }
        return Err(ReceiverError::XMLParsing(String::from_str("malformed contact record")));
    }
    let call_start = head.unicode_len();
    let call_end = scan_to_lt(payload, call_start);
    if call_end == call_start || !match_at(payload, call_end, mid) {
        proof {
            lemma_call_mismatch(payload@, call_end as int);
        }
        return Err(ReceiverError::XMLParsing(String::from_str("malformed contact record")));
    }
    let band_start = call_end + mid.unicode_len();
    let band_end = scan_to_lt(payload, band_start);
    if !match_at(payload, band_end, tail) || band_end + tail.unicode_len() != n {
        proof {
            lemma_band_mismatch(payload@, call_end as int, band_end as int);
        }
        return Err(ReceiverError::XMLParsing(String::from_str("malformed contact record")));
    }
    let call = payload.substring_char(call_start, call_end).to_owned();
    let band = payload.substring_char(band_start, band_end).to_owned();
    proof {
        assert(!call@.contains('<'));
        assert(!band@.contains('<'));
        assert(payload@ =~= contact_datagram(call@, band@));
        lemma_decode_exact(payload@, call@, band@);
    }
    Ok(ContactInfo { call, band })
}

/// The records spelled by a stream of payloads, in arrival order, the
/// malformed ones skipped.
pub open spec fn decoded_seq(payloads: Seq<Seq<char>>) -> Seq<(Seq<char>, Seq<char>)>
    decreases payloads.len(),
{
    if payloads.len() == 0 {
        Seq::empty()
    } else {
        let rest = decoded_seq(payloads.drop_last());
        match spec_decode(payloads.last()) {
            Some(cb) => rest.push(cb),
            None => rest,
        }
    }
}

/// The listener's decode stage over a batch of inbound payloads: each valid
/// payload forwards exactly one record, in arrival order; each malformed
/// one is dropped and the stream goes on.
pub fn process_datagrams(payloads: &Vec<String>) -> (records: Vec<ContactInfo>)
    ensures
        records@.map_values(|r: ContactInfo| (r.call@, r.band@)) == decoded_seq(
            payloads@.map_values(|p: String| p@),
        ),
{
    let ghost all = payloads@.map_values(|p: String| p@);
    let mut records: Vec<ContactInfo> = Vec::new();
    let mut i: usize = 0;
    while i < payloads.len()
        invariant
            0 <= i <= payloads.len(),
            all == payloads@.map_values(|p: String| p@),
            records@.map_values(|r: ContactInfo| (r.call@, r.band@)) == decoded_seq(
                all.subrange(0, i as int),
            ),
        decreases payloads.len() - i,
    {
        let ghost prefix = all.subrange(0, i as int);
        let ghost next = all.subrange(0, i + 1);
        proof {
            assert(next.drop_last() =~= prefix);
            assert(next.last() == payloads@[i as int]@);
        }
        match parse_contact_info(payloads[i].as_str()) {
            Ok(c) => {
                records.push(c);
                proof {
                    assert(records@.map_values(|r: ContactInfo| (r.call@, r.band@)) =~= decoded_seq(
                        next,
                    ));
                }
            },
            Err(_) => {
                proof {
                    assert(decoded_seq(next) == decoded_seq(prefix));
                }
            },
        }
        i += 1;
    }
    proof {
        assert(all.subrange(0, payloads@.len() as int) =~= all);
    }
    records
}

/// A stream of payloads decodes piecewise.
pub proof fn lemma_decoded_seq_append(a: Seq<Seq<char>>, b: Seq<Seq<char>>)
    ensures
        decoded_seq(a + b) == decoded_seq(a) + decoded_seq(b),
    decreases b.len() as int,
{
    if b.len() as int == 0 {
        assert(a + b =~= a);
        assert(decoded_seq(a) + decoded_seq(b) =~= decoded_seq(a));
    } else {
        lemma_decoded_seq_append(a, b.drop_last());
        assert((a + b).drop_last() =~= a + b.drop_last());
        assert((a + b).last() == b.last());
        match spec_decode(b.last()) {
            Some(cb) => {
                assert(decoded_seq(a) + decoded_seq(b) =~= (decoded_seq(a) + decoded_seq(
                    b.drop_last(),
                )).push(cb));
            },
            None => {},
        }
    }
}

/// Every valid datagram forwards exactly one record, at its place in the
/// stream, whatever arrives around it.
pub proof fn lemma_valid_datagram_forwarded_once(
    before: Seq<Seq<char>>,
    call: Seq<char>,
    band: Seq<char>,
    after: Seq<Seq<char>>,
)
    requires
        valid_contact_fields(call, band),
    ensures
        decoded_seq(before.push(contact_datagram(call, band)) + after) == decoded_seq(before)
            + seq![(call, band)] + decoded_seq(after),
{
    lemma_decode_exact(contact_datagram(call, band), call, band);
    lemma_decoded_seq_append(before.push(contact_datagram(call, band)), after);
    assert(before.push(contact_datagram(call, band)).drop_last() =~= before);
    assert(decoded_seq(before.push(contact_datagram(call, band))) =~= decoded_seq(before) + seq![
        (call, band),
    ]);
    assert(decoded_seq(before) + seq![(call, band)] + decoded_seq(after) =~= decoded_seq(
        before.push(contact_datagram(call, band)),
    ) + decoded_seq(after));
}

/// A malformed datagram forwards nothing and leaves the rest of the stream
/// untouched: the records are those of the stream without it.
pub proof fn lemma_malformed_datagram_skipped(
    before: Seq<Seq<char>>,
    bad: Seq<char>,
    after: Seq<Seq<char>>,
)
    requires
        spec_decode(bad) is None,
    ensures
        decoded_seq(before.push(bad) + after) == decoded_seq(before + after),
{
    lemma_decoded_seq_append(before.push(bad), after);
    lemma_decoded_seq_append(before, after);
    assert(before.push(bad).drop_last() =~= before);
    assert(decoded_seq(before.push(bad)) == decoded_seq(before));
}

} // verus!
