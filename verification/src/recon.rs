//! Subdomain enumeration: candidate names, the rows that resolutions
//! contribute to the result table, and the scan that fans the lookups out.

use crate::error::ScanError;
use crate::fanout::{FanOut, ProbeKind, ProbeTask, ScanStep, Step};
use crate::limiter::DNS_CAPACITY;
use crate::sink::{
    is_fault, lemma_table_bytes_extends, lemma_table_bytes_push, parsed_records, record_bytes,
    table_bytes, validate_table, verdict_fits, Sink,
};
use crate::target::{Target, TargetType};
use crate::utils::{domain_of_url, extract_domain_from_url, load_wordlist, wordlist_labels};
use crate::text::{copy_strings, join, joined, texts};
use vstd::prelude::*;
use vstd::seq_lib::{lemma_multiset_commutative, to_multiset_contains, to_multiset_remove};
use vstd::string::StringExecFns;

verus! {

/// What a lookup came back with: the addresses, as text and in the
/// resolver's order, or the resolver's complaint.
pub type Lookup = Result<Vec<String>, String>;

/// A name that resolved, with its addresses in the resolver's order.
#[derive(Debug, PartialEq, Eq)]
pub struct ResolutionRecord {
    pub subdomain: String,
    pub addresses: Vec<String>,
}

/// The header of the result table.
pub open spec fn table_header() -> Seq<Seq<char>> {
    seq!["Subdomain"@, "IP Addresses"@]
}

/// The name to look up for a label under a domain.
pub open spec fn candidate(label: Seq<char>, domain: Seq<char>) -> Seq<char> {
    label + seq!['.'] + domain
}

/// The addresses in one cell: comma and space between neighbours.
pub open spec fn address_list(addresses: Seq<Seq<char>>) -> Seq<char> {
    joined(addresses, seq![',', ' '])
}

/// The row for a name and its addresses.
pub open spec fn row_of(name: Seq<char>, addresses: Seq<Seq<char>>) -> Seq<Seq<char>> {
    seq![name, address_list(addresses)]
}

/// The addresses a lookup reported. A failed lookup reports none.
pub open spec fn addresses_of(lookup: Lookup) -> Seq<Seq<char>> {
    match lookup {
        Ok(addresses) => texts(addresses@),
        Err(_) => Seq::empty(),
    }
}

/// The rows that a name and its addresses add to the table: one row for a
/// name with addresses, none for a name without.
pub open spec fn rows_for(name: Seq<char>, addresses: Seq<Seq<char>>) -> Seq<Seq<Seq<char>>> {
    if addresses.len() > 0 {
        seq![row_of(name, addresses)]
    } else {
        Seq::empty()
    }
}

impl ResolutionRecord {
    /// The record's row in the table.
    pub open spec fn row(&self) -> Seq<Seq<char>> {
        row_of(self.subdomain@, texts(self.addresses@))
    }
}

/// The fields of the header line.
pub fn header_fields() -> (header: Vec<String>)
    ensures
        texts(header@) == table_header(),
{
    let mut header: Vec<String> = Vec::new();
    header.push(String::from_str("Subdomain"));
    header.push(String::from_str("IP Addresses"));
    assert(texts(header@) == table_header());
    header
}

/// Forms the name to look up: the label, a dot, the domain.
pub fn candidate_name(label: &str, domain: &str) -> (name: String)
    ensures
        name@ == candidate(label@, domain@),
{
    let mut name = String::from_str(label);
    proof {
        reveal_strlit(".");
        assert("."@ == seq!['.']);
    }
    name.append(".");
    name.append(domain);
    name
}

/// Renders the addresses of one resolution into a single cell, in the order
/// given.
pub fn render_addresses(addresses: &Vec<String>) -> (cell: String)
    ensures
        cell@ == address_list(texts(addresses@)),
{
    proof {
        reveal_strlit(", ");
        assert(", "@ == seq![',', ' ']);
    }
    join(addresses, ", ")
}

/// The fields of a record's row: the name, then its addresses in one cell.
pub fn render_row(record: &ResolutionRecord) -> (fields: Vec<String>)
    ensures
        texts(fields@) == record.row(),
{
    let mut fields: Vec<String> = Vec::new();
    fields.push(record.subdomain.clone());
    fields.push(render_addresses(&record.addresses));
    assert(texts(fields@) == record.row());
    fields
}

/// The record for a looked-up name: one is made where the lookup succeeded
/// with at least one address, none where it failed or came back empty.
pub fn record_for(name: String, lookup: &Lookup) -> (record: Option<ResolutionRecord>)
    ensures
        record is Some <==> addresses_of(*lookup).len() > 0,
        record matches Some(rec) ==> rec.subdomain == name && texts(rec.addresses@)
            == addresses_of(*lookup),
{
    match lookup {
        Ok(addresses) => {
            if addresses.len() > 0 {
                Some(ResolutionRecord { subdomain: name, addresses: copy_strings(addresses) })
            } else {
                None
            }
        },
        Err(_) => None,
    }
}

/// What a lookup of `domain` amounts to: the addresses where the resolver
/// answered, else a failure that names the domain and the resolver's
/// complaint.
pub fn resolve_dns(domain: &str, answer: Lookup) -> (lookup: Lookup)
    ensures
        match answer {
            Ok(addresses) => lookup == Ok::<Vec<String>, String>(addresses),
            Err(complaint) => lookup matches Err(message) && message@
                == "DNS resolution failed for "@ + domain@ + ": "@ + complaint@,
        },
{
    match answer {
        Ok(addresses) => Ok(addresses),
        Err(complaint) => {
            let mut message = String::from_str("DNS resolution failed for ");
            message.append(domain);
            message.append(": ");
            message.append(complaint.as_str());
            Err(message)
        },
    }
}

/// What reconnaissance does for a target.
#[derive(Debug, PartialEq, Eq)]
pub enum ReconPlan {
    /// Enumerate the subdomains of this registrable domain.
    Enumerate(String),
    /// The target is an address: there is nothing to enumerate, and its
    /// ports are scanned.
    ScanHost(String),
    /// The target is a repository: there is nothing to do.
    Nothing,
}

/// Whether `r` is what reconnaissance of `target` begins with.
pub open spec fn recon_fits(target: Target, r: Result<ReconPlan, ScanError>) -> bool {
    match target.target_type {
        TargetType::Url(url) => match domain_of_url(url@) {
            Some(domain) => r matches Ok(ReconPlan::Enumerate(d)) && d@ == domain,
            None => r matches Err(ScanError::Usage(m)) && m@
                == "Failed to extract domain from URL."@,
        },
        TargetType::Ip(ip) => r == Ok::<ReconPlan, ScanError>(ReconPlan::ScanHost(ip)),
        TargetType::Repo(_) => r == Ok::<ReconPlan, ScanError>(ReconPlan::Nothing),
    }
}

/// Decides what reconnaissance does for a target. A URL is reduced to its
/// registrable domain, whose subdomains are then enumerated; a URL without
/// one is a usage error.
pub fn run_recon(target: &Target) -> (r: Result<ReconPlan, ScanError>)
    ensures
        recon_fits(*target, r),
{
    match &target.target_type {
        TargetType::Url(url) => match extract_domain_from_url(url.as_str()) {
            Some(domain) => Ok(ReconPlan::Enumerate(domain)),
            None => Err(
                ScanError::Usage(String::from_str("Failed to extract domain from URL.")),
            ),
        },
        TargetType::Ip(ip) => Ok(ReconPlan::ScanHost(ip.clone())),
        TargetType::Repo(_) => Ok(ReconPlan::Nothing),
    }
}

/// What became of a reported lookup.
#[derive(Debug, PartialEq, Eq)]
pub enum Reported {
    /// The report was for no lookup in flight and changed nothing.
    Ignored,
    /// The name has no addresses: no row.
    Miss,
    /// The name resolved: these bytes are its row, to be persisted now.
    Hit(Vec<u8>),
}

/// An enumeration in progress: the labels to try under a domain, the engine
/// that bounds the lookups in flight, and the sink that takes a row for each
/// name that resolves, as soon as its lookup is reported.
pub struct SubdomainScan {
    domain: String,
    labels: Vec<String>,
    run: FanOut,
    sink: Sink,
}

impl SubdomainScan {
    /// The scan is sound: its engine and its sink are, there is a task for
    /// every label, and no more rows were written than lookups were reported.
    pub closed spec fn wf(&self) -> bool {
        &&& self.run.wf()
        &&& self.sink.wf()
        &&& self.run.total() == self.labels@.len()
        &&& self.sink.header() == table_header()
        &&& self.sink.rows().len() + self.run.in_flight() <= self.run.dispatched()
    }

    /// The domain whose subdomains are enumerated.
    pub closed spec fn domain(&self) -> Seq<char> {
        self.domain@
    }

    /// The labels to try, in the order of the wordlist.
    pub closed spec fn labels(&self) -> Seq<Seq<char>> {
        texts(self.labels@)
    }

    /// The engine behind the scan.
    pub closed spec fn run(&self) -> FanOut {
        self.run
    }

    /// The rows written so far, in the order their lookups were reported.
    pub closed spec fn rows(&self) -> Seq<Seq<Seq<char>>> {
        self.sink.rows()
    }

    /// The name that the lookup with this index resolves.
    pub open spec fn name_at(&self, index: int) -> Seq<char> {
        candidate(self.labels()[index], self.domain())
    }

    /// The engine of a scan is sound, so never more lookups are in flight
    /// than the capacity allows; there is a task for every label; and no more
    /// rows were written than lookups were reported.
    pub proof fn lemma_bounded(&self)
        requires
            self.wf(),
        ensures
            self.run().wf(),
            1 <= self.run().capacity(),
            self.run().ended().len() == self.run().total(),
            self.run().in_flight() <= self.run().capacity(),
            self.run().total() == self.labels().len(),
            self.run().total() <= usize::MAX,
            self.rows().len() + self.run().in_flight() <= self.run().dispatched(),
    {
        self.run.lemma_capacity_respected();
    }

    /// A scan of `labels` under `domain` with at most `capacity` lookups in
    /// flight, and the bytes of the table's header line, to be persisted
    /// before any lookup starts. A scan without a slot is a usage error.
    pub fn begin(domain: &str, labels: Vec<String>, capacity: usize) -> (r: Result<
        (SubdomainScan, Vec<u8>),
        ScanError,
    >)
        ensures
            match r {
                Ok((scan, bytes)) => {
                    &&& capacity >= 1
                    &&& record_bytes(table_header()) == Some(bytes@)
                    &&& scan.wf()
                    &&& scan.domain() == domain@
                    &&& scan.labels() == texts(labels@)
                    &&& scan.rows() == Seq::<Seq<Seq<char>>>::empty()
                    &&& scan.run().capacity() == capacity
                    &&& scan.run().total() == labels@.len()
                    &&& scan.run().dispatched() == 0
                    &&& scan.run().in_flight() == 0
                },
                Err(e) => if capacity == 0 {
                    e matches ScanError::Usage(m) && m@ == "a scan needs at least one slot"@
                } else {
                    e is Io && record_bytes(table_header()) is None
                },
            },
    {
        let run = match FanOut::new(capacity, labels.len()) {
            Some(run) => run,
            None => {
                return Err(ScanError::Usage(String::from_str("a scan needs at least one slot")));
            },
        };
        match Sink::open(header_fields()) {
            Ok((sink, bytes)) => Ok(
                (SubdomainScan { domain: String::from_str(domain), labels, run, sink }, bytes),
            ),
            Err(e) => Err(e),
        }
    }

    /// The number of rows written so far: the names found.
    pub fn found(&self) -> (n: usize)
        requires
            self.wf(),
        ensures
            n == self.rows().len(),
    {
        self.sink.written()
    }

    /// Decides the next step. A lookup starts whenever a label is left and a
    /// slot is free; its task carries the candidate name.
    pub fn next_step(&mut self) -> (step: ScanStep)
        requires
            old(self).wf(),
        ensures
            final(self).wf(),
            final(self).domain() == old(self).domain(),
            final(self).labels() == old(self).labels(),
            final(self).rows() == old(self).rows(),
            final(self).run().total() == old(self).run().total(),
            final(self).run().capacity() == old(self).run().capacity(),
            final(self).run().ended() == old(self).run().ended(),
            if old(self).run().dispatched() < old(self).run().total() && old(self).run().in_flight()
                < old(self).run().capacity() {
                &&& step matches ScanStep::Probe(task)
                &&& task.kind == ProbeKind::Dns
                &&& task.index == old(self).run().dispatched()
                &&& task.target@ == old(self).name_at(task.index as int)
                &&& task.port is None
                &&& final(self).run().dispatched() == old(self).run().dispatched() + 1
                &&& final(self).run().in_flight() == old(self).run().in_flight() + 1
                &&& final(self).run().is_in_flight(task.index as int)
            } else {
                &&& final(self).run().dispatched() == old(self).run().dispatched()
                &&& final(self).run().in_flight() == old(self).run().in_flight()
                &&& if old(self).run().in_flight() > 0 {
                    step is Await
                } else {
                    step is Finished
                }
            },
    {
        match self.run.next_step() {
            Step::Start(i) => {
                let target = candidate_name(self.labels[i].as_str(), self.domain.as_str());
                ScanStep::Probe(ProbeTask { kind: ProbeKind::Dns, index: i, target, port: None })
            },
            Step::Await => ScanStep::Await,
            Step::Finished => ScanStep::Finished,
        }
    }

    /// What `r` has to be, and the scan to become, when the lookup with
    /// `index` is reported with `addresses`.
    pub open spec fn completes(
        before: SubdomainScan,
        after: SubdomainScan,
        index: int,
        addresses: Seq<Seq<char>>,
        r: Result<Reported, ScanError>,
    ) -> bool {
        let row = row_of(before.name_at(index), addresses);
        &&& after.wf()
        &&& after.domain() == before.domain()
        &&& after.labels() == before.labels()
        &&& after.run().total() == before.run().total()
        &&& after.run().capacity() == before.run().capacity()
        &&& after.run().dispatched() == before.run().dispatched()
        &&& if !before.run().is_in_flight(index) {
            &&& r == Ok::<Reported, ScanError>(Reported::Ignored)
            &&& after.run().ended() == before.run().ended()
            &&& after.run().in_flight() == before.run().in_flight()
            &&& after.rows() == before.rows()
        } else {
            &&& after.run().ended() == before.run().ended().update(index, true)
            &&& after.run().in_flight() == before.run().in_flight() - 1
            &&& if addresses.len() == 0 {
                r == Ok::<Reported, ScanError>(Reported::Miss) && after.rows() == before.rows()
            } else {
                match record_bytes(row) {
                    Some(encoded) => r matches Ok(Reported::Hit(bytes)) && bytes@ == encoded
                        && after.rows() == before.rows().push(row),
                    None => r matches Err(e) && e is Io && after.rows() == before.rows(),
                }
            }
        }
    }

    /// Reports the outcome of the lookup with `index`. A report for a lookup
    /// in flight frees its slot; where the name resolved to at least one
    /// address its row is appended and the row's bytes are handed back.
    pub fn complete(&mut self, index: usize, lookup: &Lookup) -> (r: Result<Reported, ScanError>)
        requires
            old(self).wf(),
        ensures
            SubdomainScan::completes(
                *old(self),
                *final(self),
                index as int,
                addresses_of(*lookup),
                r,
            ),
    {
        if !self.run.complete(index) {
            return Ok(Reported::Ignored);
        }
        proof {
            self.run.lemma_capacity_respected();
        }
        let name = candidate_name(self.labels[index].as_str(), self.domain.as_str());
        match record_for(name, lookup) {
            Some(record) => {
                let fields = render_row(&record);
                match self.sink.write_row(&fields) {
                    Ok(bytes) => Ok(Reported::Hit(bytes)),
                    Err(e) => Err(e),
                }
            },
            None => Ok(Reported::Miss),
        }
    }
}

/// A table of answers as plain values: each entry a name and its addresses.
pub open spec fn answers(table: Seq<ResolutionRecord>) -> Seq<(Seq<char>, Seq<Seq<char>>)> {
    table.map_values(|r: ResolutionRecord| (r.subdomain@, texts(r.addresses@)))
}

/// The addresses that a table of answers holds for `name`: those of the first
/// entry with that name, none where no entry has it.
pub open spec fn answer_for(table: Seq<(Seq<char>, Seq<Seq<char>>)>, name: Seq<char>) -> Seq<
    Seq<char>,
>
    decreases table.len(),
{
    if table.len() == 0 {
        Seq::empty()
    } else if table[0].0 == name {
        table[0].1
    } else {
        answer_for(table.drop_first(), name)
    }
}

/// The rows that enumerating `labels` under `domain` writes when every lookup
/// is answered from `table` and reported in the order of the labels.
pub open spec fn found_rows(
    domain: Seq<char>,
    labels: Seq<Seq<char>>,
    table: Seq<(Seq<char>, Seq<Seq<char>>)>,
) -> Seq<Seq<Seq<char>>>
    decreases labels.len(),
{
    if labels.len() == 0 {
        Seq::empty()
    } else {
        let name = candidate(labels.last(), domain);
        found_rows(domain, labels.drop_last(), table) + rows_for(name, answer_for(table, name))
    }
}


/// The rows for the first `k` labels open the rows for all of them.
proof fn lemma_found_rows_prefix(
    domain: Seq<char>,
    labels: Seq<Seq<char>>,
    table: Seq<(Seq<char>, Seq<Seq<char>>)>,
    k: int,
) -> (tail: Seq<Seq<Seq<char>>>)
    requires
        0 <= k <= labels.len(),
    ensures
        found_rows(domain, labels, table) == found_rows(domain, labels.take(k), table) + tail,
    decreases labels.len(),
{
    if k == labels.len() {
        assert(labels.take(k) == labels);
        let tail = Seq::<Seq<Seq<char>>>::empty();
        assert(found_rows(domain, labels, table) + tail == found_rows(domain, labels, table));
        tail
    } else {
        let shorter = lemma_found_rows_prefix(domain, labels.drop_last(), table, k);
        assert(labels.drop_last().take(k) == labels.take(k));
        let name = candidate(labels.last(), domain);
        let tail = shorter + rows_for(name, answer_for(table, name));
        assert(found_rows(domain, labels, table) == found_rows(domain, labels.take(k), table)
            + tail);
        tail
    }
}

/// The rows that the lookup for label `i` adds to the table.
pub open spec fn rows_at(
    domain: Seq<char>,
    labels: Seq<Seq<char>>,
    table: Seq<(Seq<char>, Seq<Seq<char>>)>,
    i: int,
) -> Seq<Seq<Seq<char>>> {
    let name = candidate(labels[i], domain);
    rows_for(name, answer_for(table, name))
}

/// The rows that enumerating writes when the lookups are reported in
/// `order`, a sequence of label indices. Lookups run side by side and come
/// back in an order of their own; each row is written when its lookup is
/// reported.
pub open spec fn rows_in_order(
    domain: Seq<char>,
    labels: Seq<Seq<char>>,
    table: Seq<(Seq<char>, Seq<Seq<char>>)>,
    order: Seq<int>,
) -> Seq<Seq<Seq<char>>>
    decreases order.len(),
{
    if order.len() == 0 {
        Seq::empty()
    } else {
        rows_in_order(domain, labels, table, order.drop_last()) + rows_at(
            domain,
            labels,
            table,
            order.last(),
        )
    }
}

proof fn lemma_rows_without(
    domain: Seq<char>,
    labels: Seq<Seq<char>>,
    table: Seq<(Seq<char>, Seq<Seq<char>>)>,
    order: Seq<int>,
    j: int,
)
    requires
        0 <= j < order.len(),
    ensures
        rows_in_order(domain, labels, table, order).to_multiset() == rows_in_order(
            domain,
            labels,
            table,
            order.remove(j),
        ).to_multiset().add(rows_at(domain, labels, table, order[j]).to_multiset()),
    decreases order.len(),
{
    let init = order.drop_last();
    let last = rows_at(domain, labels, table, order.last());
    lemma_multiset_commutative(rows_in_order(domain, labels, table, init), last);
    if j == order.len() - 1 {
        assert(order.remove(j) == init);
    } else {
        lemma_rows_without(domain, labels, table, init, j);
        let cut = order.remove(j);
        assert(cut.drop_last() == init.remove(j));
        assert(cut.last() == order.last());
        lemma_multiset_commutative(rows_in_order(domain, labels, table, init.remove(j)), last);
        let rest = rows_in_order(domain, labels, table, init.remove(j)).to_multiset();
        let gone = rows_at(domain, labels, table, order[j]).to_multiset();
        assert(rest.add(gone).add(last.to_multiset()) =~= rest.add(last.to_multiset()).add(gone));
    }
}

/// Two orders that are rearrangements of one another write the same rows,
/// each as often.
pub proof fn lemma_rows_rearranged(
    domain: Seq<char>,
    labels: Seq<Seq<char>>,
    table: Seq<(Seq<char>, Seq<Seq<char>>)>,
    a: Seq<int>,
    b: Seq<int>,
)
    requires
        a.to_multiset() == b.to_multiset(),
    ensures
        rows_in_order(domain, labels, table, a).to_multiset() == rows_in_order(
            domain,
            labels,
            table,
            b,
        ).to_multiset(),
    decreases a.len(),
{
    a.to_multiset_ensures();
    b.to_multiset_ensures();
    if a.len() == 0 {
        assert(b.len() == 0);
    } else {
        let x = a.last();
        assert(a[a.len() - 1] == x);
        to_multiset_contains(a, x);
        to_multiset_contains(b, x);
        let j = choose|j: int| 0 <= j < b.len() && b[j] == x;
        to_multiset_remove(a, a.len() - 1);
        to_multiset_remove(b, j);
        assert(a.remove(a.len() - 1) == a.drop_last());
        lemma_rows_rearranged(domain, labels, table, a.drop_last(), b.remove(j));
        lemma_rows_without(domain, labels, table, b, j);
        lemma_multiset_commutative(
            rows_in_order(domain, labels, table, a.drop_last()),
            rows_at(domain, labels, table, x),
        );
    }
}

proof fn lemma_rows_same_labels(
    domain: Seq<char>,
    labels: Seq<Seq<char>>,
    others: Seq<Seq<char>>,
    table: Seq<(Seq<char>, Seq<Seq<char>>)>,
    order: Seq<int>,
)
    requires
        forall|k: int| 0 <= k < order.len() ==> labels[#[trigger] order[k]] == others[order[k]],
    ensures
        rows_in_order(domain, labels, table, order) == rows_in_order(domain, others, table, order),
    decreases order.len(),
{
    if order.len() > 0 {
        let init = order.drop_last();
        assert forall|k: int| 0 <= k < init.len() implies labels[#[trigger] init[k]]
            == others[init[k]] by {
            assert(init[k] == order[k]);
        }
        lemma_rows_same_labels(domain, labels, others, table, init);
        assert(order.last() == order[order.len() - 1]);
    }
}

/// The indices of `n` labels, in the order of the labels.
pub open spec fn label_order(n: nat) -> Seq<int> {
    Seq::new(n, |i: int| i)
}

proof fn lemma_rows_in_label_order(
    domain: Seq<char>,
    labels: Seq<Seq<char>>,
    table: Seq<(Seq<char>, Seq<Seq<char>>)>,
)
    ensures
        rows_in_order(domain, labels, table, label_order(labels.len())) == found_rows(
            domain,
            labels,
            table,
        ),
    decreases labels.len(),
{
    if labels.len() > 0 {
        let init = labels.drop_last();
        let ids = label_order(labels.len());
        let fewer = label_order(init.len());
        lemma_rows_in_label_order(domain, init, table);
        assert(ids.drop_last() == fewer);
        assert(ids.last() == labels.len() - 1);
        assert forall|k: int| 0 <= k < fewer.len() implies labels[#[trigger] fewer[k]]
            == init[fewer[k]] by {}
        lemma_rows_same_labels(domain, labels, init, table, fewer);
    }
}

/// The order in which the lookups come back is immaterial to what is found:
/// whatever rearrangement of the labels they are reported in, the same rows
/// are written, each as often, and as many of them.
pub proof fn lemma_order_is_immaterial(
    domain: Seq<char>,
    labels: Seq<Seq<char>>,
    table: Seq<(Seq<char>, Seq<Seq<char>>)>,
    order: Seq<int>,
)
    requires
        order.to_multiset() == label_order(labels.len()).to_multiset(),
    ensures
        rows_in_order(domain, labels, table, order).to_multiset() == found_rows(
            domain,
            labels,
            table,
        ).to_multiset(),
        rows_in_order(domain, labels, table, order).len() == found_rows(
            domain,
            labels,
            table,
        ).len(),
{
    lemma_rows_rearranged(domain, labels, table, order, label_order(labels.len()));
    lemma_rows_in_label_order(domain, labels, table);
    rows_in_order(domain, labels, table, order).to_multiset_ensures();
    found_rows(domain, labels, table).to_multiset_ensures();
}

/// With a resolver that has no address for any candidate name, enumeration
/// writes no row and finds nothing, whatever the wordlist and the domain.
pub proof fn lemma_nothing_resolves(
    domain: Seq<char>,
    labels: Seq<Seq<char>>,
    table: Seq<(Seq<char>, Seq<Seq<char>>)>,
)
    requires
        forall|i: int|
            0 <= i < labels.len() ==> answer_for(
                table,
                #[trigger] candidate(labels[i], domain),
            ).len() == 0,
    ensures
        found_rows(domain, labels, table) == Seq::<Seq<Seq<char>>>::empty(),
        found_rows(domain, labels, table).len() == 0,
    decreases labels.len(),
{
    if labels.len() > 0 {
        lemma_nothing_resolves(domain, labels.drop_last(), table);
        assert(labels.last() == labels[labels.len() - 1]);
    }
}

/// Every row that enumeration writes has the two fields of the header, and
/// there is at most one row for each label.
pub proof fn lemma_found_rows_fit(
    domain: Seq<char>,
    labels: Seq<Seq<char>>,
    table: Seq<(Seq<char>, Seq<Seq<char>>)>,
)
    ensures
        found_rows(domain, labels, table).len() <= labels.len(),
        forall|i: int|
            0 <= i < found_rows(domain, labels, table).len() ==> (#[trigger] found_rows(
                domain,
                labels,
                table,
            )[i]).len() == 2,
    decreases labels.len(),
{
    if labels.len() > 0 {
        lemma_found_rows_fit(domain, labels.drop_last(), table);
        let before = found_rows(domain, labels.drop_last(), table);
        assert forall|i: int| 0 <= i < found_rows(domain, labels, table).len() implies (
        #[trigger] found_rows(domain, labels, table)[i]).len() == 2 by {
            if i < before.len() {
                assert(found_rows(domain, labels, table)[i] == before[i]);
            }
        }
    }
}

/// A table of `rows` under the header reads back as it was written: its
/// bytes are `image`, and reading `image` yields every row, and no more.
/// Whether a table does is for the encoder and the reader to decide.
pub open spec fn reads_back(rows: Seq<Seq<Seq<char>>>, image: Seq<u8>) -> bool {
    table_bytes(seq![table_header()] + rows) == Some(image) && parsed_records(image)
        == rows.map_values(|row: Seq<Seq<char>>| Some(row))
}

/// Where the table reads back as it was written, enumeration succeeds: its
/// table holds the header and one row of two fields for each name that
/// resolved, read back as many records as names were found.
pub proof fn lemma_enumeration_succeeds(
    domain: Seq<char>,
    labels: Seq<Seq<char>>,
    table: Seq<(Seq<char>, Seq<Seq<char>>)>,
    image: Seq<u8>,
    r: Result<Discovery, ScanError>,
)
    ensures
        discovery_fits(domain, labels, table, r) && reads_back(
            found_rows(domain, labels, table),
            image,
        ) ==> {
            &&& r matches Ok(d)
            &&& d.table@ == image
            &&& d.found == found_rows(domain, labels, table).len()
            &&& parsed_records(image).len() == d.found
            &&& forall|i: int|
                0 <= i < parsed_records(image).len() ==> !is_fault(
                    #[trigger] parsed_records(image)[i],
                    2,
                )
        },
{
    let rows = found_rows(domain, labels, table);
    if discovery_fits(domain, labels, table, r) && reads_back(rows, image) {
        lemma_found_rows_fit(domain, labels, table);
        let parsed = parsed_records(image);
        assert forall|i: int| 0 <= i < parsed.len() implies !is_fault(#[trigger] parsed[i], 2) by {
            assert(parsed[i] == Some(rows[i]));
        }
    }
}

/// With a resolver that has no address for any candidate name, and a header
/// line that reads back as no record, enumeration succeeds with the header
/// line alone and finds nothing, whatever the wordlist and the domain.
pub proof fn lemma_nothing_found(
    domain: Seq<char>,
    labels: Seq<Seq<char>>,
    table: Seq<(Seq<char>, Seq<Seq<char>>)>,
    image: Seq<u8>,
    r: Result<Discovery, ScanError>,
)
    requires
        forall|i: int|
            0 <= i < labels.len() ==> answer_for(
                table,
                #[trigger] candidate(labels[i], domain),
            ).len() == 0,
    ensures
        discovery_fits(domain, labels, table, r) && reads_back(Seq::empty(), image) ==> {
            &&& r matches Ok(d)
            &&& d.table@ == image
            &&& d.found == 0
            &&& parsed_records(image).len() == 0
        },
{
    lemma_nothing_resolves(domain, labels, table);
    lemma_enumeration_succeeds(domain, labels, table, image, r);
}

/// Whether a table of answers has an entry for `name`.
pub open spec fn is_known(table: Seq<(Seq<char>, Seq<Seq<char>>)>, name: Seq<char>) -> bool {
    exists|i: int| 0 <= i < table.len() && (#[trigger] table[i]).0 == name
}

/// Answers a lookup from a table of answers: with the addresses of the first
/// entry for the name, or, where the table has no entry for it, with the
/// failure `no such name`.
pub fn lookup_in(table: &Vec<ResolutionRecord>, name: &str) -> (lookup: Lookup)
    ensures
        addresses_of(lookup) == answer_for(answers(table@), name@),
        lookup is Ok <==> is_known(answers(table@), name@),
        lookup matches Err(complaint) ==> complaint@ == "no such name"@,
{
    let key = String::from_str(name);
    let mut i: usize = 0;
    assert(answers(table@).subrange(0, table@.len() as int) == answers(table@));
    while i < table.len()
        invariant
            i <= table@.len(),
            key@ == name@,
            forall|k: int| 0 <= k < i ==> (#[trigger] answers(table@)[k]).0 != name@,
            answer_for(answers(table@).subrange(i as int, table@.len() as int), name@)
                == answer_for(answers(table@), name@),
        decreases table.len() - i,
    {
        let ghost rest = answers(table@).subrange(i as int, table@.len() as int);
        assert(rest[0] == answers(table@)[i as int]);
        assert(rest.drop_first() == answers(table@).subrange(i + 1, table@.len() as int));
        if table[i].subdomain == key {
            assert(answers(table@)[i as int].0 == name@);
            return Ok(copy_strings(&table[i].addresses));
        }
        i = i + 1;
    }
    Err(String::from_str("no such name"))
}

/// The outcome of an enumeration: the table as it was persisted, and the
/// number of names found.
#[derive(Debug, PartialEq, Eq)]
pub struct Discovery {
    pub table: Vec<u8>,
    pub found: usize,
}

/// Whether `r` is what enumerating `labels` under `domain` against `table`
/// comes to. The table that is written holds the header and one row for each
/// name with an address; it is then read back and checked. A row that cannot
/// be encoded ends the enumeration with an I/O failure, a table that does
/// not pass the check ends it with the check's error.
pub open spec fn discovery_fits(
    domain: Seq<char>,
    labels: Seq<Seq<char>>,
    table: Seq<(Seq<char>, Seq<Seq<char>>)>,
    r: Result<Discovery, ScanError>,
) -> bool {
    let rows = found_rows(domain, labels, table);
    match table_bytes(seq![table_header()] + rows) {
        None => r matches Err(e) && e is Io,
        Some(image) => match r {
            Ok(d) => d.table@ == image && d.found == rows.len() && verdict_fits(
                parsed_records(image),
                2,
                Ok(parsed_records(image).len() as usize),
            ),
            Err(e) => verdict_fits(parsed_records(image), 2, Err(e)),
        },
    }
}

/// Enumerates the subdomains of `domain`: every label of the wordlist is
/// tried, each lookup answered from `resolver`, and the result table built,
/// read back and checked.
pub fn discover_subdomains(domain: &str, wordlist: &str, resolver: &Vec<ResolutionRecord>) -> (r:
    Result<Discovery, ScanError>)
    ensures
        discovery_fits(domain@, wordlist_labels(wordlist@), answers(resolver@), r),
{
    let labels = load_wordlist(wordlist);
    let ghost names = texts(labels@);
    let ghost known = answers(resolver@);
    let ghost head = seq![table_header()];
    proof {
        assert(head == Seq::<Seq<Seq<char>>>::empty().push(table_header()));
        lemma_table_bytes_push(Seq::empty(), table_header());
        lemma_table_bytes_extends(head, found_rows(domain@, names, known));
    }
    let (mut scan, mut image) = match SubdomainScan::begin(domain, labels, DNS_CAPACITY) {
        Ok(begun) => begun,
        Err(e) => {
            return Err(e);
        },
    };
    // Lookups start while slots are free and are reported in the order in
    // which they started.
    let mut started: Vec<ProbeTask> = Vec::new();
    let mut reported: usize = 0;
    proof {
        scan.lemma_bounded();
    }
    assert(names.take(0) == Seq::<Seq<char>>::empty());
    assert(head + scan.rows() == head);
    loop
        invariant
            scan.wf(),
            scan.domain() == domain@,
            scan.labels() == names,
            names == wordlist_labels(wordlist@),
            known == answers(resolver@),
            head == seq![table_header()],
            scan.run().total() == names.len(),
            scan.run().ended().len() == scan.run().total(),
            reported <= started@.len() == scan.run().dispatched() <= scan.run().total(),
            forall|k: int|
                0 <= k < started@.len() ==> (#[trigger] started@[k]).index == k && started@[k].target@
                    == scan.name_at(k),
            forall|k: int|
                0 <= k < scan.run().dispatched() ==> (#[trigger] scan.run().ended()[k] <==> k
                    < reported),
            scan.rows() == found_rows(domain@, names.take(reported as int), known),
            table_bytes(head + scan.rows()) == Some(image@),
        ensures
            scan.wf(),
            reported == names.len(),
            scan.rows() == found_rows(domain@, names.take(reported as int), known),
            table_bytes(head + scan.rows()) == Some(image@),
        decreases 2 * scan.run().total() - scan.run().dispatched() - reported,
    {
        let ghost before = scan;
        proof {
            scan.lemma_bounded();
            scan.run().lemma_progress();
        }
        match scan.next_step() {
            ScanStep::Probe(task) => {
                started.push(task);
            },
            ScanStep::Await => {
                let ghost k = reported as int;
                assert(reported < started@.len()) by {
                    let j = choose|j: int| before.run().is_in_flight(j);
                    assert(!before.run().ended()[j]);
                }
                let lookup = lookup_in(resolver, started[reported].target.as_str());
                let ghost row = row_of(candidate(names[k], domain@), addresses_of(lookup));
                proof {
                    assert(names.take(k + 1).drop_last() == names.take(k));
                    assert(names.take(k + 1).last() == names[k]);
                    lemma_table_bytes_push(head + before.rows(), row);
                    assert((head + before.rows()).push(row) == head + before.rows().push(row));
                    assert(before.rows().push(row) == before.rows() + seq![row]);
                    assert(before.rows() + Seq::<Seq<Seq<char>>>::empty() == before.rows());
                    assert(!before.run().ended()[k]);
                }
                match scan.complete(reported, &lookup) {
                    Ok(Reported::Hit(bytes)) => {
                        let mut bytes = bytes;
                        image.append(&mut bytes);
                    },
                    Ok(_) => {},
                    Err(e) => {
                        proof {
                            let tail = lemma_found_rows_prefix(domain@, names, known, k + 1);
                            lemma_table_bytes_extends(head + before.rows().push(row), tail);
                            assert(head + before.rows().push(row) + tail == head + (
                            before.rows().push(row) + tail));
                        }
                        return Err(e);
                    },
                }
                reported = reported + 1;
            },
            ScanStep::Finished => {
                assert(reported == names.len()) by {
                    if reported < names.len() {
                        assert(before.run().ended()[reported as int]);
                    }
                }
                break ;
            },
        }
    }
    assert(names.take(names.len() as int) == names);
    let found = scan.found();
    match validate_table(image.as_slice(), 2) {
        Ok(_) => Ok(Discovery { table: image, found }),
        Err(e) => Err(e),
    }
}

} // verus!
