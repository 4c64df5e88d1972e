//! Port scanning: which hosts to scan, the scan of one host over the whole
//! port range, and the file its open ports are saved in.

use crate::error::ScanError;
use crate::fanout::{FanOut, ProbeKind, ProbeTask, ScanStep, Step};
use crate::limiter::PORT_CAPACITY;
use crate::sink::{outcomes, parsed_records, read_table, ReadBack};
use crate::recon::row_of;
use crate::text::{
    contains_text, decimal, is_plain, lemma_tokens_of_joined, render_number, split_tokens, texts,
    to_chars, tokens,
};
use vstd::prelude::*;
use vstd::string::StringExecFns;

verus! {

/// The highest port; a scan probes every port from 1 up to it.
pub const LAST_PORT: u16 = 65535;

/// How long a TCP connection may take to come up, in milliseconds.
pub const TCP_TIMEOUT_MS: u64 = 800;

/// How long a UDP probe waits for an answer, in milliseconds.
pub const UDP_TIMEOUT_MS: u64 = 1000;

/// The address to connect to for a port of a host.
pub open spec fn socket_address(ip: Seq<char>, port: u16) -> Seq<char> {
    ip + seq![':'] + decimal(port as nat)
}

/// Forms the address to connect to: the host, a colon, the port.
pub fn probe_address(ip: &str, port: u16) -> (address: String)
    ensures
        address@ == socket_address(ip@, port),
{
    let mut address = String::from_str(ip);
    proof {
        reveal_strlit(":");
        assert(":"@ == seq![':']);
    }
    address.append(":");
    address.append(render_number(port as u128).as_str());
    address
}

/// The file that holds the open ports of a host.
pub open spec fn port_file_path(ip: Seq<char>) -> Seq<char> {
    "Ports/"@ + ip + ".txt"@
}

/// Names the port file of a host.
pub fn port_file(ip: &str) -> (path: String)
    ensures
        path@ == port_file_path(ip@),
{
    let mut path = String::from_str("Ports/");
    path.append(ip);
    path.append(".txt");
    path
}

/// Whether a host was scanned before: its port file is among the files
/// present.
pub open spec fn is_scanned(ip: Seq<char>, present: Seq<Seq<char>>) -> bool {
    present.contains(port_file_path(ip))
}

/// Checks whether the port file of `ip` is among the files `present`.
pub fn port_file_exists(ip: &str, present: &Vec<String>) -> (b: bool)
    ensures
        b == is_scanned(ip@, texts(present@)),
{
    let path = port_file(ip);
    contains_text(present, &path)
}

/// The lines of a port file: each port in decimal, each followed by a line
/// feed.
pub open spec fn port_lines(ports: Seq<u16>) -> Seq<char>
    decreases ports.len(),
{
    if ports.len() == 0 {
        Seq::empty()
    } else {
        port_lines(ports.drop_last()) + decimal(ports.last() as nat) + seq!['\n']
    }
}

/// A port file to write: where, and what.
#[derive(Debug, PartialEq, Eq)]
pub struct PortFile {
    pub path: String,
    pub content: String,
}

/// The port file for the open ports of `ip`: one port per line, in the order
/// given.
pub fn save_ports_to_file(ip: &str, ports: &Vec<u16>) -> (file: PortFile)
    ensures
        file.path@ == port_file_path(ip@),
        file.content@ == port_lines(ports@),
{
    let mut content = String::new();
    let mut i: usize = 0;
    assert(ports@.take(0) == Seq::<u16>::empty());
    while i < ports.len()
        invariant
            i <= ports.len(),
            content@ == port_lines(ports@.take(i as int)),
        decreases ports.len() - i,
    {
        assert(ports@.take(i + 1).drop_last() == ports@.take(i as int));
        content.append(render_number(ports[i] as u128).as_str());
        content.push('\n');
        i = i + 1;
    }
    assert(ports@.take(ports.len() as int) == ports@);
    PortFile { path: port_file(ip), content }
}

/// The addresses that a record of the result table names: the entries of its
/// second field, which are separated by commas. A record that could not be
/// read, or has no second field, names none.
pub open spec fn cell_addresses(record: Option<Seq<Seq<char>>>) -> Seq<Seq<char>> {
    match record {
        Some(fields) => if fields.len() >= 2 {
            tokens(fields[1], ',')
        } else {
            Seq::empty()
        },
        None => Seq::empty(),
    }
}

/// What the enumeration writes into a row, the port scanner reads out of it:
/// the addresses of the row's name, each and in order. This holds of
/// addresses that are plain text, as addresses are.
pub proof fn lemma_row_addresses_recovered(name: Seq<char>, addresses: Seq<Seq<char>>)
    requires
        forall|i: int| 0 <= i < addresses.len() ==> is_plain(#[trigger] addresses[i]),
    ensures
        cell_addresses(Some(row_of(name, addresses))) == addresses,
{
    lemma_tokens_of_joined(addresses);
}

/// `seen`, then those of `more` that did not occur before, in order.
pub open spec fn merged(seen: Seq<Seq<char>>, more: Seq<Seq<char>>) -> Seq<Seq<char>>
    decreases more.len(),
{
    if more.len() == 0 {
        seen
    } else {
        let before = merged(seen, more.drop_last());
        if before.contains(more.last()) {
            before
        } else {
            before.push(more.last())
        }
    }
}

/// The hosts that a table names, each once, in the order of their first
/// occurrence.
pub open spec fn hosts_of(records: Seq<Option<Seq<Seq<char>>>>) -> Seq<Seq<char>>
    decreases records.len(),
{
    if records.len() == 0 {
        Seq::empty()
    } else {
        merged(hosts_of(records.drop_last()), cell_addresses(records.last()))
    }
}

/// Merging loses nothing and adds nothing: a host is in the merged list
/// exactly if it was seen before or is among the new ones.
pub proof fn lemma_merged_covers(seen: Seq<Seq<char>>, more: Seq<Seq<char>>, host: Seq<char>)
    ensures
        merged(seen, more).contains(host) <==> seen.contains(host) || more.contains(host),
    decreases more.len(),
{
    if more.len() > 0 {
        let init = more.drop_last();
        let before = merged(seen, init);
        lemma_merged_covers(seen, init, host);
        if more.contains(host) {
            let k = choose|k: int| 0 <= k < more.len() && more[k] == host;
            if k < more.len() - 1 {
                assert(init[k] == host);
            }
        }
        if init.contains(host) {
            let k = choose|k: int| 0 <= k < init.len() && init[k] == host;
            assert(more[k] == host);
        }
        if more.last() == host {
            assert(more[more.len() - 1] == host);
        }
        if !before.contains(more.last()) {
            let grown = before.push(more.last());
            assert(grown[before.len() as int] == more.last());
            if before.contains(host) {
                let k = choose|k: int| 0 <= k < before.len() && before[k] == host;
                assert(grown[k] == host);
            }
        }
    }
}

/// The hosts of a table are the addresses its records name: a host is listed
/// exactly if some record names it.
pub proof fn lemma_hosts_cover(records: Seq<Option<Seq<Seq<char>>>>, host: Seq<char>)
    ensures
        hosts_of(records).contains(host) <==> exists|i: int|
            0 <= i < records.len() && cell_addresses(#[trigger] records[i]).contains(host),
    decreases records.len(),
{
    if records.len() > 0 {
        let init = records.drop_last();
        lemma_hosts_cover(init, host);
        lemma_merged_covers(hosts_of(init), cell_addresses(records.last()), host);
        if hosts_of(init).contains(host) {
            let i = choose|i: int|
                0 <= i < init.len() && cell_addresses(#[trigger] init[i]).contains(host);
            assert(records[i] == init[i]);
        }
        if cell_addresses(records.last()).contains(host) {
            assert(records[records.len() - 1] == records.last());
        }
        if exists|i: int|
            0 <= i < records.len() && cell_addresses(#[trigger] records[i]).contains(host) {
            let i = choose|i: int|
                0 <= i < records.len() && cell_addresses(#[trigger] records[i]).contains(host);
            if i < records.len() - 1 {
                assert(init[i] == records[i]);
            }
        }
    }
}

/// Merging into a list without repeats gives a list without repeats.
pub proof fn lemma_merged_distinct(seen: Seq<Seq<char>>, more: Seq<Seq<char>>)
    requires
        seen.no_duplicates(),
    ensures
        merged(seen, more).no_duplicates(),
    decreases more.len(),
{
    if more.len() > 0 {
        lemma_merged_distinct(seen, more.drop_last());
    }
}

/// No host is named twice.
pub proof fn lemma_hosts_distinct(records: Seq<Option<Seq<Seq<char>>>>)
    ensures
        hosts_of(records).no_duplicates(),
    decreases records.len(),
{
    if records.len() > 0 {
        lemma_hosts_distinct(records.drop_last());
        lemma_merged_distinct(hosts_of(records.drop_last()), cell_addresses(records.last()));
    }
}

/// `e` reports the first record that could not be read.
pub open spec fn stops_at(records: Seq<Option<Seq<Seq<char>>>>, e: ScanError) -> bool {
    exists|i: int|
        0 <= i < records.len() && (#[trigger] records[i]) is None && (forall|j: int|
            0 <= j < i ==> (#[trigger] records[j]) is Some) && (e matches ScanError::Parse {
            index,
            ..
        } && index == i)
}

/// Whether `r` is what extracting the hosts of `records` comes to: the hosts
/// where every record could be read, else the place of the first that could
/// not.
pub open spec fn hosts_fit(
    records: Seq<Option<Seq<Seq<char>>>>,
    r: Result<Vec<String>, ScanError>,
) -> bool {
    match r {
        Ok(hosts) => texts(hosts@) == hosts_of(records) && forall|i: int|
            0 <= i < records.len() ==> (#[trigger] records[i]) is Some,
        Err(e) => stops_at(records, e),
    }
}

/// Collects the hosts that the records of a result table name.
pub fn hosts_in(records: &Vec<ReadBack>) -> (r: Result<Vec<String>, ScanError>)
    ensures
        hosts_fit(outcomes(records@), r),
        r matches Err(ScanError::Parse { index, detail }) ==> index < records@.len()
            && records@[index as int] == Err::<Vec<String>, String>(detail),
{
    let mut hosts: Vec<String> = Vec::new();
    let ghost all = outcomes(records@);
    let mut i: usize = 0;
    assert(all.take(0) == Seq::<Option<Seq<Seq<char>>>>::empty());
    assert(texts(hosts@) == Seq::<Seq<char>>::empty());
    while i < records.len()
        invariant
            i <= records@.len(),
            all == outcomes(records@),
            forall|j: int| 0 <= j < i ==> (#[trigger] all[j]) is Some,
            texts(hosts@) == hosts_of(all.take(i as int)),
        decreases records.len() - i,
    {
        let ghost base = hosts_of(all.take(i as int));
        assert(all.take(i + 1).drop_last() == all.take(i as int));
        assert(all.take(i + 1).last() == all[i as int]);
        match &records[i] {
            Ok(fields) => {
                if fields.len() >= 2 {
                    let cell = to_chars(fields[1].as_str());
                    let found = split_tokens(&cell, ',');
                    let ghost named = texts(found@);
                    assert(named == cell_addresses(all[i as int]));
                    let mut j: usize = 0;
                    assert(named.take(0) == Seq::<Seq<char>>::empty());
                    while j < found.len()
                        invariant
                            j <= found@.len(),
                            named == texts(found@),
                            texts(hosts@) == merged(base, named.take(j as int)),
                        decreases found.len() - j,
                    {
                        assert(named.take(j + 1).drop_last() == named.take(j as int));
                        assert(named.take(j + 1).last() == found@[j as int]@);
                        if !contains_text(&hosts, &found[j]) {
                            let host = found[j].clone();
                            assert(texts(hosts@.push(host)) == texts(hosts@).push(host@));
                            hosts.push(host);
                        }
                        j = j + 1;
                    }
                    assert(named.take(found@.len() as int) == named);
                }
            },
            Err(detail) => {
                return Err(ScanError::Parse { index: i, detail: detail.clone() });
            },
        }
        i = i + 1;
    }
    assert(all.take(records@.len() as int) == all);
    Ok(hosts)
}

/// Extracts the hosts from the bytes of a result table.
pub fn extract_ips_from_csv(data: &[u8]) -> (r: Result<Vec<String>, ScanError>)
    ensures
        hosts_fit(parsed_records(data@), r),
{
    let records = read_table(data);
    hosts_in(&records)
}

/// The hosts still to scan: those without a port file, in order.
pub open spec fn pending(hosts: Seq<Seq<char>>, present: Seq<Seq<char>>) -> Seq<Seq<char>>
    decreases hosts.len(),
{
    if hosts.len() == 0 {
        Seq::empty()
    } else {
        let before = pending(hosts.drop_last(), present);
        if is_scanned(hosts.last(), present) {
            before
        } else {
            before.push(hosts.last())
        }
    }
}

/// The hosts to pass over: those with a port file, in order.
pub open spec fn settled(hosts: Seq<Seq<char>>, present: Seq<Seq<char>>) -> Seq<Seq<char>>
    decreases hosts.len(),
{
    if hosts.len() == 0 {
        Seq::empty()
    } else {
        let before = settled(hosts.drop_last(), present);
        if is_scanned(hosts.last(), present) {
            before.push(hosts.last())
        } else {
            before
        }
    }
}

/// A host whose port file exists is not scanned again: it is not among the
/// hosts to scan, so no probe is made for it and no file is written for it.
/// Every other host of the list is scanned.
pub proof fn lemma_skip_guarantee(hosts: Seq<Seq<char>>, present: Seq<Seq<char>>, host: Seq<char>)
    ensures
        is_scanned(host, present) ==> !pending(hosts, present).contains(host),
        pending(hosts, present).contains(host) <==> hosts.contains(host) && !is_scanned(
            host,
            present,
        ),
        settled(hosts, present).contains(host) <==> hosts.contains(host) && is_scanned(
            host,
            present,
        ),
    decreases hosts.len(),
{
    if hosts.len() > 0 {
        lemma_skip_guarantee(hosts.drop_last(), present, host);
        let before = pending(hosts.drop_last(), present);
        let passed = settled(hosts.drop_last(), present);
        assert(hosts == hosts.drop_last().push(hosts.last()));
        if hosts.contains(host) {
            let k = choose|k: int| 0 <= k < hosts.len() && hosts[k] == host;
            if k < hosts.len() - 1 {
                assert(hosts.drop_last()[k] == host);
            }
        }
        if hosts.drop_last().contains(host) {
            let k = choose|k: int| 0 <= k < hosts.drop_last().len() && hosts.drop_last()[k] == host;
            assert(hosts[k] == host);
        }
        if before.contains(host) {
            let k = choose|k: int| 0 <= k < before.len() && before[k] == host;
            assert(before.push(hosts.last())[k] == host);
        }
        if passed.contains(host) {
            let k = choose|k: int| 0 <= k < passed.len() && passed[k] == host;
            assert(passed.push(hosts.last())[k] == host);
        }
        if hosts.last() == host {
            assert(hosts[hosts.len() - 1] == host);
            assert(before.push(host)[before.len() as int] == host);
            assert(passed.push(host)[passed.len() as int] == host);
        }
    }
}

/// Which hosts a run scans and which it passes over.
#[derive(Debug, PartialEq, Eq)]
pub struct PortPlan {
    pub scan: Vec<String>,
    pub skipped: Vec<String>,
}

/// Sorts hosts into those to scan and those scanned before.
pub fn plan_port_scans(hosts: &Vec<String>, present: &Vec<String>) -> (plan: PortPlan)
    ensures
        texts(plan.scan@) == pending(texts(hosts@), texts(present@)),
        texts(plan.skipped@) == settled(texts(hosts@), texts(present@)),
{
    let mut scan: Vec<String> = Vec::new();
    let mut skipped: Vec<String> = Vec::new();
    let ghost all = texts(hosts@);
    let mut i: usize = 0;
    assert(all.take(0) == Seq::<Seq<char>>::empty());
    assert(texts(scan@) == Seq::<Seq<char>>::empty());
    assert(texts(skipped@) == Seq::<Seq<char>>::empty());
    while i < hosts.len()
        invariant
            i <= hosts@.len(),
            all == texts(hosts@),
            texts(scan@) == pending(all.take(i as int), texts(present@)),
            texts(skipped@) == settled(all.take(i as int), texts(present@)),
        decreases hosts.len() - i,
    {
        assert(all.take(i + 1).drop_last() == all.take(i as int));
        assert(all.take(i + 1).last() == hosts@[i as int]@);
        let host = hosts[i].clone();
        if port_file_exists(host.as_str(), present) {
            assert(texts(skipped@.push(host)) == texts(skipped@).push(host@));
            skipped.push(host);
        } else {
            assert(texts(scan@.push(host)) == texts(scan@).push(host@));
            scan.push(host);
        }
        i = i + 1;
    }
    assert(all.take(hosts@.len() as int) == all);
    PortPlan { scan, skipped }
}

/// Whether `r` is what planning the port scans for the table `records`
/// comes to, with the port files `present`.
pub open spec fn plan_fits(
    records: Seq<Option<Seq<Seq<char>>>>,
    present: Seq<Seq<char>>,
    r: Result<PortPlan, ScanError>,
) -> bool {
    match r {
        Ok(plan) => texts(plan.scan@) == pending(hosts_of(records), present) && texts(
            plan.skipped@,
        ) == settled(hosts_of(records), present) && forall|i: int|
            0 <= i < records.len() ==> (#[trigger] records[i]) is Some,
        Err(e) => stops_at(records, e),
    }
}

/// Decides the port scans of a run from the result table: every host that
/// the table names is scanned, unless its port file is already present.
pub fn run_conditional_port_scans(data: &[u8], present: &Vec<String>) -> (r: Result<
    PortPlan,
    ScanError,
>)
    ensures
        plan_fits(parsed_records(data@), texts(present@), r),
{
    match extract_ips_from_csv(data) {
        Ok(hosts) => Ok(plan_port_scans(&hosts, present)),
        Err(e) => Err(e),
    }
}

/// The open ports of a host, in the order their probes were reported.
#[derive(Debug, PartialEq, Eq)]
pub struct PortSet {
    pub host: String,
    pub ports: Vec<u16>,
}

/// What is done with the ports of a scanned host.
#[derive(Debug, PartialEq, Eq)]
pub enum PortOutcome {
    /// At least one port is open: this file is written.
    Save(PortFile),
    /// No port is open: the outcome is reported, and nothing is written.
    NoOpenPorts,
}

/// Whether `r` is what is done for a host with the open ports `ports`.
pub open spec fn outcome_fits(ip: Seq<char>, ports: Seq<u16>, r: PortOutcome) -> bool {
    if ports.len() == 0 {
        r is NoOpenPorts
    } else {
        r matches PortOutcome::Save(file) && file.path@ == port_file_path(ip) && file.content@
            == port_lines(ports)
    }
}

impl PortSet {
    /// Decides whether the set is persisted: a set without ports is not.
    pub fn outcome(&self) -> (r: PortOutcome)
        ensures
            outcome_fits(self.host@, self.ports@, r),
    {
        if self.ports.len() > 0 {
            PortOutcome::Save(save_ports_to_file(self.host.as_str(), &self.ports))
        } else {
            PortOutcome::NoOpenPorts
        }
    }
}

/// The scan of one host: a probe for every port from 1 to 65535, bounded by
/// the engine, and the ports found open so far.
pub struct PortScan {
    host: String,
    kind: ProbeKind,
    run: FanOut,
    open: Vec<u16>,
}

impl PortScan {
    /// The scan is sound: its engine is, there is a task for every port, and
    /// its probes are port probes.
    pub closed spec fn wf(&self) -> bool {
        &&& self.run.wf()
        &&& self.run.total() == LAST_PORT
        &&& self.kind != ProbeKind::Dns
    }

    /// The host that is scanned.
    pub closed spec fn host(&self) -> Seq<char> {
        self.host@
    }

    /// The kind of probe the scan makes: TCP, or UDP where asked for.
    pub closed spec fn kind(&self) -> ProbeKind {
        self.kind
    }

    /// The engine behind the scan.
    pub closed spec fn run(&self) -> FanOut {
        self.run
    }

    /// The ports found open so far, in the order they were reported.
    pub closed spec fn open_ports(&self) -> Seq<u16> {
        self.open@
    }

    /// The port that the probe with this index tests.
    pub open spec fn port_at(index: int) -> int {
        index + 1
    }

    /// The engine of a scan is sound, so never more probes are in flight
    /// than the capacity allows, and there is a task for every port.
    pub proof fn lemma_bounded(&self)
        requires
            self.wf(),
        ensures
            self.run().wf(),
            1 <= self.run().capacity(),
            self.run().ended().len() == self.run().total(),
            self.run().in_flight() <= self.run().capacity(),
            self.run().total() == LAST_PORT,
    {
        self.run.lemma_capacity_respected();
    }

    /// A scan of every port of `ip` with at most `capacity` probes in
    /// flight: TCP probes, or UDP probes if `udp` is set. A scan without a
    /// slot is a usage error.
    pub fn begin(ip: &str, capacity: usize, udp: bool) -> (r: Result<PortScan, ScanError>)
        ensures
            r is Ok <==> capacity >= 1,
            r matches Err(e) ==> (e matches ScanError::Usage(m) && m@
                == "a scan needs at least one slot"@),
            r matches Ok(scan) ==> {
                &&& scan.wf()
                &&& scan.host() == ip@
                &&& scan.kind() == if udp {
                    ProbeKind::Udp
                } else {
                    ProbeKind::Tcp
                }
                &&& scan.open_ports() == Seq::<u16>::empty()
                &&& scan.run().capacity() == capacity
                &&& scan.run().total() == LAST_PORT
                &&& scan.run().dispatched() == 0
                &&& scan.run().in_flight() == 0
            },
    {
        let kind = if udp {
            ProbeKind::Udp
        } else {
            ProbeKind::Tcp
        };
        match FanOut::new(capacity, 65535) {
            Some(run) => Ok(PortScan { host: String::from_str(ip), kind, run, open: Vec::new() }),
            None => Err(ScanError::Usage(String::from_str("a scan needs at least one slot"))),
        }
    }

    /// Decides the next step. A probe starts whenever a port is left and a
    /// slot is free; ports are probed in rising order.
    pub fn next_step(&mut self) -> (step: ScanStep)
        requires
            old(self).wf(),
        ensures
            final(self).wf(),
            final(self).host() == old(self).host(),
            final(self).kind() == old(self).kind(),
            final(self).open_ports() == old(self).open_ports(),
            final(self).run().total() == old(self).run().total(),
            final(self).run().capacity() == old(self).run().capacity(),
            final(self).run().ended() == old(self).run().ended(),
            if old(self).run().dispatched() < old(self).run().total() && old(self).run().in_flight()
                < old(self).run().capacity() {
                &&& step matches ScanStep::Probe(task)
                &&& task.kind == old(self).kind()
                &&& task.index == old(self).run().dispatched()
                &&& task.target@ == old(self).host()
                &&& task.port == Some(PortScan::port_at(task.index as int) as u16)
                &&& 1 <= PortScan::port_at(task.index as int) <= LAST_PORT
                &&& final(self).run().dispatched() == old(self).run().dispatched() + 1
                &&& final(self).run().in_flight() == old(self).run().in_flight() + 1
                &&& final(self).run().is_in_flight(task.index as int)
            } else {
                &&& final(self).run().dispatched() == old(self).run().dispatched()
                &&& final(self).run().in_flight() == old(self).run().in_flight()
                &&& if old(self).run().in_flight() > 0 {
                    step is Await
                } else {
                    step is Finished
                }
            },
    {
        match self.run.next_step() {
            Step::Start(i) => {
                let port: u16 = (i + 1) as u16;
                ScanStep::Probe(
                    ProbeTask {
                        kind: self.kind,
                        index: i,
                        target: self.host.clone(),
                        port: Some(port),
                    },
                )
            },
            Step::Await => ScanStep::Await,
            Step::Finished => ScanStep::Finished,
        }
    }

    /// Reports the probe with `index`: `open` says whether the port
    /// answered. A report for a probe in flight frees its slot, and an open
    /// port joins the ports found. Any other report changes nothing.
    pub fn complete(&mut self, index: usize, open: bool) -> (taken: bool)
        requires
            old(self).wf(),
        ensures
            final(self).wf(),
            final(self).host() == old(self).host(),
            final(self).kind() == old(self).kind(),
            final(self).run().total() == old(self).run().total(),
            final(self).run().capacity() == old(self).run().capacity(),
            final(self).run().dispatched() == old(self).run().dispatched(),
            taken == old(self).run().is_in_flight(index as int),
            taken ==> final(self).run().ended() == old(self).run().ended().update(
                index as int,
                true,
            ) && final(self).run().in_flight() == old(self).run().in_flight() - 1,
            !taken ==> final(self).run().ended() == old(self).run().ended(),
            !taken ==> final(self).run().in_flight() == old(self).run().in_flight(),
            final(self).open_ports() == if taken && open {
                old(self).open_ports().push(PortScan::port_at(index as int) as u16)
            } else {
                old(self).open_ports()
            },
    {
        if !self.run.complete(index) {
            return false;
        }
        proof {
            self.run.lemma_capacity_respected();
        }
        if open {
            self.open.push((index + 1) as u16);
        }
        true
    }

    /// The number of ports found open so far.
    pub fn open_count(&self) -> (n: usize)
        ensures
            n == self.open_ports().len(),
    {
        self.open.len()
    }

    /// Whether every port was probed and every probe reported.
    pub fn is_finished(&self) -> (b: bool)
        ensures
            b == self.run().finished(),
    {
        self.run.is_finished()
    }

    /// Ends the scan and hands out the host with its open ports. A scan ends
    /// when every port was probed and every probe reported, not before: a
    /// partial result is never handed out.
    pub fn finish(self) -> (set: PortSet)
        requires
            self.wf(),
            self.run().finished(),
        ensures
            set.host@ == self.host(),
            set.ports@ == self.open_ports(),
    {
        PortSet { host: self.host, ports: self.open }
    }
}

/// The ports from 1 to `n` that are among `reachable`, in rising order.
pub open spec fn reachable_upto(reachable: Seq<u16>, n: int) -> Seq<u16>
    decreases n,
{
    if n <= 0 {
        Seq::empty()
    } else {
        let before = reachable_upto(reachable, n - 1);
        if reachable.contains(n as u16) {
            before.push(n as u16)
        } else {
            before
        }
    }
}

/// The ports found are those among `reachable` that lie in the range.
pub proof fn lemma_reachable_member(reachable: Seq<u16>, n: int, p: u16)
    requires
        0 <= n <= LAST_PORT,
    ensures
        reachable_upto(reachable, n).contains(p) <==> 1 <= p <= n && reachable.contains(p),
    decreases n,
{
    if n > 0 {
        lemma_reachable_member(reachable, n - 1, p);
        let before = reachable_upto(reachable, n - 1);
        let found = reachable_upto(reachable, n);
        if reachable.contains(n as u16) {
            assert(found[before.len() as int] == n as u16);
            if found.contains(p) {
                let k = choose|k: int| 0 <= k < found.len() && found[k] == p;
                if k < before.len() {
                    assert(before[k] == p);
                }
            }
            if before.contains(p) {
                let k = choose|k: int| 0 <= k < before.len() && before[k] == p;
                assert(found[k] == p);
            }
        }
    }
}

/// The ports found come in rising order, so none comes twice.
pub proof fn lemma_reachable_rising(reachable: Seq<u16>, n: int)
    requires
        0 <= n <= LAST_PORT,
    ensures
        forall|i: int, j: int|
            0 <= i < j < reachable_upto(reachable, n).len() ==> reachable_upto(reachable, n)[i]
                < reachable_upto(reachable, n)[j],
    decreases n,
{
    if n > 0 {
        lemma_reachable_rising(reachable, n - 1);
        let before = reachable_upto(reachable, n - 1);
        let found = reachable_upto(reachable, n);
        if reachable.contains(n as u16) {
            assert forall|i: int, j: int| 0 <= i < j < found.len() implies found[i] < found[j] by {
                if j < before.len() {
                    assert(found[i] == before[i] && found[j] == before[j]);
                } else {
                    assert(before[i] == found[i]);
                    assert(before.contains(before[i]));
                    lemma_reachable_member(reachable, n - 1, before[i]);
                }
            }
        }
    }
}

/// Whether `port` is among `ports`.
pub fn contains_port(ports: &Vec<u16>, port: u16) -> (b: bool)
    ensures
        b == ports@.contains(port),
{
    let mut i: usize = 0;
    while i < ports.len()
        invariant
            i <= ports.len(),
            forall|k: int| 0 <= k < i ==> ports@[k] != port,
        decreases ports.len() - i,
    {
        if ports[i] == port {
            return true;
        }
        i = i + 1;
    }
    false
}

/// Scans every port of `ip`, a probe finding a port open exactly when the
/// port is among `reachable`, and decides what is saved: the open ports in
/// rising order, one per line, or nothing where no port is open.
pub fn scan_and_save_ports(ip: &str, reachable: &Vec<u16>) -> (r: PortOutcome)
    ensures
        outcome_fits(ip@, reachable_upto(reachable@, LAST_PORT as int), r),
{
    let mut scan = match PortScan::begin(ip, PORT_CAPACITY, false) {
        Ok(scan) => scan,
        Err(_) => {
            return PortOutcome::NoOpenPorts;
        },
    };
    // Probes start while slots are free and are reported in the order in
    // which they started.
    let mut reported: usize = 0;
    proof {
        scan.lemma_bounded();
    }
    loop
        invariant
            scan.wf(),
            scan.host() == ip@,
            scan.run().total() == LAST_PORT,
            scan.run().ended().len() == scan.run().total(),
            reported <= scan.run().dispatched() <= scan.run().total(),
            forall|k: int|
                0 <= k < scan.run().dispatched() ==> (#[trigger] scan.run().ended()[k] <==> k
                    < reported),
            scan.open_ports() == reachable_upto(reachable@, reported as int),
        ensures
            scan.wf(),
            scan.run().finished(),
            scan.host() == ip@,
            scan.open_ports() == reachable_upto(reachable@, LAST_PORT as int),
        decreases 2 * scan.run().total() - scan.run().dispatched() - reported,
    {
        let ghost before = scan;
        proof {
            scan.lemma_bounded();
            scan.run().lemma_progress();
        }
        match scan.next_step() {
            ScanStep::Probe(_) => {},
            ScanStep::Await => {
                assert(reported < before.run().dispatched()) by {
                    let j = choose|j: int| before.run().is_in_flight(j);
                    assert(!before.run().ended()[j]);
                }
                assert(!before.run().ended()[reported as int]);
                let open = contains_port(reachable, (reported + 1) as u16);
                scan.complete(reported, open);
                reported = reported + 1;
            },
            ScanStep::Finished => {
                assert(reported == LAST_PORT) by {
                    if reported < LAST_PORT {
                        assert(before.run().ended()[reported as int]);
                    }
                }
                break ;
            },
        }
    }
    scan.finish().outcome()
}

} // verus!
