//! Linked bays: several boards and host programs on shared links, how they are
//! wired together, and the emulator script that runs them.

use vstd::prelude::*;

use crate::layout::{BoardLayout, MemoryProbe};
use crate::probes::{bay_prefix, MemoryProbeReport};
use crate::roster::Roster;
use crate::script::{
    hook_command, read_command, sample_duration, sample_ms, start_command, strict_text,
};
use crate::security::{pins_text, render_board_initialization_script};
use crate::text::{
    contains, dec, hex8, lemma_grouped, lemma_pieces_are_kept, millis, opt_text, safe, safe_text,
    same_text, Text,
};

verus! {

// ---------------------------------------------------------------------------
// Declarations
// ---------------------------------------------------------------------------

#[derive(Debug)]
pub struct BayTopology {
    pub name: String,
    /// The global quantum in seconds, as it is written into the script.
    pub quantum_seconds: String,
    pub virtual_time_ms: u64,
    pub sample_count: usize,
    /// Enforce each board layout's end-to-end memory-drop limit. Short linked
    /// functional runs can disable this because allocator availability is
    /// intentionally bursty; minimum and maximum bounds remain enforced.
    pub enforce_end_drop: bool,
    pub nodes: Vec<Node>,
    pub host_nodes: Vec<HostNode>,
    pub links: Vec<Link>,
    pub assertions: Vec<NetworkAssertion>,
    pub host_log_assertions: Vec<HostLogAssertion>,
}

#[derive(Debug)]
pub struct Node {
    pub name: String,
    pub layout: String,
    pub firmware_root: String,
}

#[derive(Debug)]
pub struct HostNode {
    pub name: String,
    pub binary: String,
    pub cwd: Option<String>,
    pub args: Vec<String>,
    pub env: Vec<(String, String)>,
    /// Optional persistent cache path shared across separate bay invocations.
    /// Relative paths resolve beside the topology; absolute paths are useful
    /// for a writable volume.
    pub network_variable_cache: Option<String>,
    pub serial_links: Vec<HostSerialLink>,
}

#[derive(Debug)]
pub struct HostSerialLink {
    pub link: String,
    pub env: String,
    pub transport: HostLinkTransport,
}

#[derive(Clone, Copy, Debug, PartialEq, Eq, Structural)]
pub enum HostLinkTransport {
    UartPty,
    /// Linux I2C transactions on the host side, translated by a Pico-Fi pair
    /// to framed UART bytes on the firmware side.
    PicoFiI2cToUart,
}

impl Default for HostLinkTransport {
    fn default() -> (res: Self)
        ensures
            res == HostLinkTransport::UartPty,
    {
        HostLinkTransport::UartPty
    }
}

#[derive(Debug)]
pub struct Link {
    pub name: String,
    pub kind: LinkKind,
    pub endpoints: Vec<Endpoint>,
    /// Human-readable physical stages represented by this deterministic link.
    /// For example: RF radio, ground-station router, and the Pico-Fi tunnel.
    pub transport_path: Vec<String>,
}

#[derive(Clone, Copy, Debug, PartialEq, Eq, Structural)]
pub enum LinkKind {
    Can,
    Uart,
    Radio,
    PicoFi,
    RoutedSerial,
}

#[derive(Debug)]
pub struct Endpoint {
    pub node: String,
    pub peripheral: String,
    pub activity_probe: Option<String>,
    pub minimum_activity: u32,
    pub tx_probe: Option<String>,
    pub rx_probe: Option<String>,
    pub minimum_tx: u32,
    pub minimum_rx: u32,
}

#[derive(Debug)]
pub struct NetworkAssertion {
    pub name: String,
    pub node: String,
    pub probe: String,
    pub minimum: Option<u32>,
    pub maximum: Option<u32>,
    pub required_bits: Option<u32>,
    /// Check one zero-based sample rather than the maximum across the run.
    pub sample: Option<usize>,
}

#[derive(Debug)]
pub struct HostLogAssertion {
    pub name: String,
    pub node: String,
    pub contains: String,
}

#[derive(Debug)]
pub struct LinkReport {
    pub name: String,
    pub kind: String,
    pub transport_path: Vec<String>,
    pub endpoints: Vec<EndpointReport>,
}

#[derive(Debug)]
pub struct EndpointReport {
    pub node: String,
    pub tx_probe: Option<String>,
    pub tx_observed: Option<u32>,
    pub rx_probe: Option<String>,
    pub rx_observed: Option<u32>,
}

#[derive(Debug)]
pub struct AssertionReport {
    pub name: String,
    pub node: String,
    pub probe: String,
    pub observed: u32,
}

#[derive(Debug)]
pub struct BayReport {
    pub bay: String,
    pub nodes_executed: usize,
    pub host_nodes_executed: usize,
    pub links_connected: usize,
    pub virtual_time_ms: u64,
    pub register_dump: Vec<String>,
    pub memory_profiles: Roster<Vec<MemoryProbeReport>>,
    pub link_reports: Vec<LinkReport>,
    pub assertion_reports: Vec<AssertionReport>,
}

pub fn default_quantum() -> (res: String)
    ensures
        res@ == "0.0001"@,
{
    "0.0001".to_owned()
}

pub fn default_duration() -> (res: u64)
    ensures
        res == 1000,
{
    1000
}

pub fn default_sample_count() -> (res: usize)
    ensures
        res == 10,
{
    10
}

pub fn default_true() -> (res: bool)
    ensures
        res,
{
    true
}

pub fn default_minimum_activity() -> (res: u32)
    ensures
        res == 1,
{
    1
}

impl LinkKind {
    pub open spec fn variant(self) -> Seq<char> {
        match self {
            LinkKind::Can => "Can"@,
            LinkKind::Uart => "Uart"@,
            LinkKind::Radio => "Radio"@,
            LinkKind::PicoFi => "PicoFi"@,
            LinkKind::RoutedSerial => "RoutedSerial"@,
        }
    }

    pub fn name(self) -> (res: &'static str)
        ensures
            res@ == self.variant(),
    {
        match self {
            LinkKind::Can => "Can",
            LinkKind::Uart => "Uart",
            LinkKind::Radio => "Radio",
            LinkKind::PicoFi => "PicoFi",
            LinkKind::RoutedSerial => "RoutedSerial",
        }
    }
}

// ---------------------------------------------------------------------------
// Checking a topology
// ---------------------------------------------------------------------------

/// Numbers are positions in the topology.
#[derive(Clone, Copy, Debug, PartialEq, Eq, Structural)]
pub enum TopologyError {
    NoNodes,
    NoSamples,
    TooManySamples,
    NodeTaken(usize),
    HostIsNode(usize),
    HostBinary(usize),
    FewEndpoints(usize),
    UnknownNode { link: usize, endpoint: usize },
    ManyHosts(usize),
    HostOnCan { link: usize, endpoint: usize },
    NotPicoFi(usize),
    UnknownSerial { host: usize, serial: usize },
}

impl TopologyError {
    pub open spec fn text(self, topology: BayTopology) -> Seq<char> {
        let links = topology.links@;
        let hosts = topology.host_nodes@;
        match self {
            TopologyError::NoNodes => "avionics bay must contain at least one node"@,
            TopologyError::NoSamples => "bay sample_count must be nonzero"@,
            TopologyError::TooManySamples => "bay sample_count cannot exceed virtual_time_ms"@,
            TopologyError::NodeTaken(i) => "duplicate bay node "@ + topology.nodes@[i as int].name@,
            TopologyError::HostIsNode(i) => "host node "@ + hosts[i as int].name@
                + " duplicates a firmware node"@,
            TopologyError::HostBinary(i) => "host node "@ + hosts[i as int].name@
                + " binary is missing: "@ + hosts[i as int].binary@,
            TopologyError::FewEndpoints(l) => "link "@ + links[l as int].name@
                + " needs at least two endpoints"@,
            TopologyError::UnknownNode { link, endpoint } => "link "@ + links[link as int].name@
                + " references unknown node "@
                + links[link as int].endpoints@[endpoint as int].node@,
            TopologyError::ManyHosts(l) => "link "@ + links[l as int].name@
                + " has more than one host endpoint"@,
            TopologyError::HostOnCan { link, endpoint } => "host endpoint "@
                + links[link as int].endpoints@[endpoint as int].node@ + " on "@
                + links[link as int].name@ + " must use a serial link"@,
            TopologyError::NotPicoFi(l) => "host link "@ + links[l as int].name@
                + " selects Pico-Fi I2C translation but is not pico_fi"@,
            TopologyError::UnknownSerial { host, serial } => "host node "@
                + hosts[host as int].name@ + " references unknown serial link "@
                + hosts[host as int].serial_links@[serial as int].link@,
        }
    }

    /// What this speaks of is there.
    pub open spec fn of(self, topology: BayTopology) -> bool {
        let links = topology.links@;
        let hosts = topology.host_nodes@;
        match self {
            TopologyError::NodeTaken(i) => i < topology.nodes@.len(),
            TopologyError::HostIsNode(i) => i < hosts.len(),
            TopologyError::HostBinary(i) => i < hosts.len(),
            TopologyError::FewEndpoints(l) => l < links.len(),
            TopologyError::UnknownNode { link, endpoint } => link < links.len() && endpoint
                < links[link as int].endpoints@.len(),
            TopologyError::ManyHosts(l) => l < links.len(),
            TopologyError::HostOnCan { link, endpoint } => link < links.len() && endpoint
                < links[link as int].endpoints@.len(),
            TopologyError::NotPicoFi(l) => l < links.len(),
            TopologyError::UnknownSerial { host, serial } => host < hosts.len() && serial
                < hosts[host as int].serial_links@.len(),
            _ => true,
        }
    }

    pub fn message(self, topology: &BayTopology) -> (res: String)
        requires
            self.of(*topology),
        ensures
            res@ == self.text(*topology),
    {
        let links = &topology.links;
        let hosts = &topology.host_nodes;
        match self {
            TopologyError::NoNodes => Text::new(
                "avionics bay must contain at least one node",
            ).done(),
            TopologyError::NoSamples => Text::new("bay sample_count must be nonzero").done(),
            TopologyError::TooManySamples => Text::new(
                "bay sample_count cannot exceed virtual_time_ms",
            ).done(),
            TopologyError::NodeTaken(i) => Text::new("duplicate bay node ").str(
                topology.nodes[i].name.as_str(),
            ).done(),
            TopologyError::HostIsNode(i) => Text::new("host node ").str(
                hosts[i].name.as_str(),
            ).str(" duplicates a firmware node").done(),
            TopologyError::HostBinary(i) => Text::new("host node ").str(
                hosts[i].name.as_str(),
            ).str(" binary is missing: ").str(hosts[i].binary.as_str()).done(),
            TopologyError::FewEndpoints(l) => Text::new("link ").str(links[l].name.as_str()).str(
                " needs at least two endpoints",
            ).done(),
            TopologyError::UnknownNode { link, endpoint } => Text::new("link ").str(
                links[link].name.as_str(),
            ).str(" references unknown node ").str(
                links[link].endpoints[endpoint].node.as_str(),
            ).done(),
            TopologyError::ManyHosts(l) => Text::new("link ").str(links[l].name.as_str()).str(
                " has more than one host endpoint",
            ).done(),
            TopologyError::HostOnCan { link, endpoint } => Text::new("host endpoint ").str(
                links[link].endpoints[endpoint].node.as_str(),
            ).str(" on ").str(links[link].name.as_str()).str(" must use a serial link").done(),
            TopologyError::NotPicoFi(l) => Text::new("host link ").str(
                links[l].name.as_str(),
            ).str(" selects Pico-Fi I2C translation but is not pico_fi").done(),
            TopologyError::UnknownSerial { host, serial } => Text::new("host node ").str(
                hosts[host].name.as_str(),
            ).str(" references unknown serial link ").str(
                hosts[host].serial_links[serial].link.as_str(),
            ).done(),
        }
    }
}

pub open spec fn has_node(nodes: Seq<Node>, name: Seq<char>) -> bool {
    exists|i: int| 0 <= i < nodes.len() && (#[trigger] nodes[i]).name@ == name
}

/// The first host program of this name, from `from` on.
pub open spec fn host_index(hosts: Seq<HostNode>, name: Seq<char>, from: int) -> Option<int>
    decreases hosts.len() - from,
{
    if from < 0 || from >= hosts.len() {
        None
    } else if hosts[from].name@ == name {
        Some(from)
    } else {
        host_index(hosts, name, from + 1)
    }
}

pub open spec fn has_host(hosts: Seq<HostNode>, name: Seq<char>) -> bool {
    host_index(hosts, name, 0) is Some
}

/// How a host program reaches this link.
pub open spec fn host_transport(serials: Seq<HostSerialLink>, link: Seq<char>, from: int) -> HostLinkTransport
    decreases serials.len() - from,
{
    if from < 0 || from >= serials.len() {
        HostLinkTransport::UartPty
    } else if serials[from].link@ == link {
        serials[from].transport
    } else {
        host_transport(serials, link, from + 1)
    }
}

/// The first endpoint, from `from` on, that is a host program.
pub open spec fn host_endpoint(
    hosts: Seq<HostNode>,
    endpoints: Seq<Endpoint>,
    from: int,
) -> Option<int>
    decreases endpoints.len() - from,
{
    if from < 0 || from >= endpoints.len() {
        None
    } else if has_host(hosts, endpoints[from].node@) {
        Some(from)
    } else {
        host_endpoint(hosts, endpoints, from + 1)
    }
}

/// How a link is built.
#[derive(Clone, Copy, Debug, PartialEq, Eq, Structural)]
pub enum Wiring {
    CanHub,
    UartHub,
    /// A terminal that a host program opens, at this endpoint.
    Host { endpoint: usize, transport: HostLinkTransport },
}

impl BayTopology {
    pub open spec fn wiring(&self, l: int) -> Wiring {
        let link = self.links@[l];
        match host_endpoint(self.host_nodes@, link.endpoints@, 0) {
            Some(e) => {
                let host = self.host_nodes@[host_index(
                    self.host_nodes@,
                    link.endpoints@[e].node@,
                    0,
                )->0];
                Wiring::Host {
                    endpoint: e as usize,
                    transport: host_transport(host.serial_links@, link.name@, 0),
                }
            },
            None => if link.kind == LinkKind::Can {
                Wiring::CanHub
            } else {
                Wiring::UartHub
            },
        }
    }

    /// The first endpoint of link `l`, from `from` on, on a node that is not
    /// there.
    pub open spec fn unknown_endpoint(&self, l: int, from: int) -> Option<int>
        decreases self.links@[l].endpoints@.len() - from,
    {
        let endpoints = self.links@[l].endpoints@;
        if from < 0 || from >= endpoints.len() {
            None
        } else if !has_node(self.nodes@, endpoints[from].node@) && !has_host(
            self.host_nodes@,
            endpoints[from].node@,
        ) {
            Some(from)
        } else {
            self.unknown_endpoint(l, from + 1)
        }
    }

    pub open spec fn link_error(&self, l: int) -> Option<TopologyError> {
        let link = self.links@[l];
        if link.endpoints@.len() < 2 {
            Some(TopologyError::FewEndpoints(l as usize))
        } else if self.unknown_endpoint(l, 0) is Some {
            Some(
                TopologyError::UnknownNode {
                    link: l as usize,
                    endpoint: self.unknown_endpoint(l, 0)->0 as usize,
                },
            )
        } else {
            match self.wiring(l) {
                Wiring::Host { endpoint, transport } => if host_endpoint(
                    self.host_nodes@,
                    link.endpoints@,
                    endpoint + 1,
                ) is Some {
                    Some(TopologyError::ManyHosts(l as usize))
                } else if link.kind == LinkKind::Can {
                    Some(TopologyError::HostOnCan { link: l as usize, endpoint })
                } else if transport == HostLinkTransport::PicoFiI2cToUart && link.kind
                    != LinkKind::PicoFi {
                    Some(TopologyError::NotPicoFi(l as usize))
                } else {
                    None
                },
                _ => None,
            }
        }
    }

    /// What is wrong with the first bad link from `l` on.
    pub open spec fn links_error(&self, l: int) -> Option<TopologyError>
        decreases self.links@.len() - l,
    {
        if l < 0 || l >= self.links@.len() {
            None
        } else {
            match self.link_error(l) {
                Some(error) => Some(error),
                None => self.links_error(l + 1),
            }
        }
    }

    pub open spec fn node_taken(&self, i: int) -> bool {
        exists|j: int| 0 <= j < i && #[trigger] self.same_node(j, i)
    }

    pub open spec fn same_node(&self, j: int, i: int) -> bool {
        self.nodes@[j].name@ == self.nodes@[i].name@
    }

    pub open spec fn nodes_error(&self, i: int) -> Option<TopologyError>
        decreases self.nodes@.len() - i,
    {
        if i < 0 || i >= self.nodes@.len() {
            None
        } else if self.node_taken(i) {
            Some(TopologyError::NodeTaken(i as usize))
        } else {
            self.nodes_error(i + 1)
        }
    }

    /// `binaries` says of each host program whether its binary is there.
    pub open spec fn hosts_error(&self, binaries: Seq<bool>, i: int) -> Option<TopologyError>
        decreases self.host_nodes@.len() - i,
    {
        if i < 0 || i >= self.host_nodes@.len() {
            None
        } else if has_node(self.nodes@, self.host_nodes@[i].name@) {
            Some(TopologyError::HostIsNode(i as usize))
        } else if !binaries[i] {
            Some(TopologyError::HostBinary(i as usize))
        } else {
            self.hosts_error(binaries, i + 1)
        }
    }

    /// The last of the first `end` links of this name that a host program
    /// opens.
    pub open spec fn host_link(&self, name: Seq<char>, end: int) -> Option<int>
        decreases end,
    {
        if end <= 0 {
            None
        } else if self.links@[end - 1].name@ == name && self.wiring(end - 1) is Host {
            Some(end - 1)
        } else {
            self.host_link(name, end - 1)
        }
    }

    pub open spec fn serial_error(&self, host: int, serial: int) -> Option<TopologyError>
        decreases self.host_nodes@[host].serial_links@.len() - serial,
    {
        let serials = self.host_nodes@[host].serial_links@;
        if serial < 0 || serial >= serials.len() {
            None
        } else if self.host_link(serials[serial].link@, self.links@.len() as int) is None {
            Some(TopologyError::UnknownSerial { host: host as usize, serial: serial as usize })
        } else {
            self.serial_error(host, serial + 1)
        }
    }

    pub open spec fn serials_error(&self, host: int) -> Option<TopologyError>
        decreases self.host_nodes@.len() - host,
    {
        if host < 0 || host >= self.host_nodes@.len() {
            None
        } else {
            match self.serial_error(host, 0) {
                Some(error) => Some(error),
                None => self.serials_error(host + 1),
            }
        }
    }

    /// Why a bay is not wired, the first reason found.
    pub open spec fn error(&self, binaries: Seq<bool>) -> Option<TopologyError> {
        if self.nodes@.len() == 0 {
            Some(TopologyError::NoNodes)
        } else if self.sample_count == 0 {
            Some(TopologyError::NoSamples)
        } else if self.sample_count > self.virtual_time_ms {
            Some(TopologyError::TooManySamples)
        } else if self.nodes_error(0) is Some {
            self.nodes_error(0)
        } else if self.hosts_error(binaries, 0) is Some {
            self.hosts_error(binaries, 0)
        } else if self.links_error(0) is Some {
            self.links_error(0)
        } else {
            self.serials_error(0)
        }
    }
}

fn is_node(nodes: &[Node], name: &str) -> (res: bool)
    ensures
        res == has_node(nodes@, name@),
{
    let mut i: usize = 0;
    while i < nodes.len()
        invariant
            i <= nodes@.len(),
            forall|k: int| 0 <= k < i ==> (#[trigger] nodes@[k]).name@ != name@,
        decreases nodes@.len() - i,
    {
        if same_text(nodes[i].name.as_str(), name) {
            return true;
        }
        i = i + 1;
    }
    false
}

fn find_host(hosts: &[HostNode], name: &str) -> (res: Option<usize>)
    ensures
        match host_index(hosts@, name@, 0) {
            Some(i) => res matches Some(found) && found == i && found < hosts@.len(),
            None => res is None,
        },
{
    let mut i: usize = 0;
    while i < hosts.len()
        invariant
            i <= hosts@.len(),
            host_index(hosts@, name@, 0) == host_index(hosts@, name@, i as int),
        decreases hosts@.len() - i,
    {
        if same_text(hosts[i].name.as_str(), name) {
            return Some(i);
        }
        i = i + 1;
    }
    None
}

/// Whether `name` is a host program of the bay.
pub fn is_host(hosts: &[HostNode], name: &str) -> (res: bool)
    ensures
        res == has_host(hosts@, name@),
{
    find_host(hosts, name).is_some()
}

fn find_transport(serials: &[HostSerialLink], link: &str) -> (res: HostLinkTransport)
    ensures
        res == host_transport(serials@, link@, 0),
{
    let mut i: usize = 0;
    while i < serials.len()
        invariant
            i <= serials@.len(),
            host_transport(serials@, link@, 0) == host_transport(serials@, link@, i as int),
        decreases serials@.len() - i,
    {
        if same_text(serials[i].link.as_str(), link) {
            return serials[i].transport;
        }
        i = i + 1;
    }
    HostLinkTransport::UartPty
}

fn find_host_endpoint(hosts: &[HostNode], endpoints: &[Endpoint], from: usize) -> (res: Option<
    usize,
>)
    requires
        from <= endpoints@.len(),
    ensures
        match host_endpoint(hosts@, endpoints@, from as int) {
            Some(i) => res matches Some(found) && found == i && from <= found < endpoints@.len(),
            None => res is None,
        },
{
    let mut i: usize = from;
    while i < endpoints.len()
        invariant
            from <= i <= endpoints@.len(),
            host_endpoint(hosts@, endpoints@, from as int) == host_endpoint(
                hosts@,
                endpoints@,
                i as int,
            ),
        decreases endpoints@.len() - i,
    {
        if is_host(hosts, endpoints[i].node.as_str()) {
            return Some(i);
        }
        i = i + 1;
    }
    None
}

proof fn lemma_host_endpoint(hosts: Seq<HostNode>, endpoints: Seq<Endpoint>, from: int)
    requires
        from >= 0,
    ensures
        host_endpoint(hosts, endpoints, from) matches Some(e) ==> from <= e < endpoints.len()
            && has_host(hosts, endpoints[e].node@),
    decreases endpoints.len() - from,
{
    if from < endpoints.len() && !has_host(hosts, endpoints[from].node@) {
        lemma_host_endpoint(hosts, endpoints, from + 1);
    }
}

impl BayTopology {
    /// How link `l` is built.
    pub fn wire(&self, l: usize) -> (res: Wiring)
        requires
            l < self.links@.len(),
        ensures
            res == self.wiring(l as int),
            res matches Wiring::Host { endpoint, .. } ==> endpoint
                < self.links@[l as int].endpoints@.len(),
    {
        let link = &self.links[l];
        match find_host_endpoint(self.host_nodes.as_slice(), link.endpoints.as_slice(), 0) {
            Some(e) => {
                proof {
                    lemma_host_endpoint(self.host_nodes@, link.endpoints@, 0);
                }
                let transport = match find_host(
                    self.host_nodes.as_slice(),
                    link.endpoints[e].node.as_str(),
                ) {
                    Some(h) => find_transport(
                        self.host_nodes[h].serial_links.as_slice(),
                        link.name.as_str(),
                    ),
                    None => HostLinkTransport::UartPty,
                };
                Wiring::Host { endpoint: e, transport }
            },
            None => if link.kind == LinkKind::Can {
                Wiring::CanHub
            } else {
                Wiring::UartHub
            },
        }
    }

    fn find_unknown_endpoint(&self, l: usize) -> (res: Option<usize>)
        requires
            l < self.links@.len(),
        ensures
            match self.unknown_endpoint(l as int, 0) {
                Some(e) => res matches Some(found) && found == e && found
                    < self.links@[l as int].endpoints@.len(),
                None => res is None,
            },
    {
        let endpoints = &self.links[l].endpoints;
        let mut i: usize = 0;
        while i < endpoints.len()
            invariant
                l < self.links@.len(),
                endpoints@ == self.links@[l as int].endpoints@,
                i <= endpoints@.len(),
                self.unknown_endpoint(l as int, 0) == self.unknown_endpoint(l as int, i as int),
            decreases endpoints@.len() - i,
        {
            let name = endpoints[i].node.as_str();
            if !is_node(self.nodes.as_slice(), name) && !is_host(
                self.host_nodes.as_slice(),
                name,
            ) {
                return Some(i);
            }
            i = i + 1;
        }
        None
    }

    fn check_link(&self, l: usize) -> (res: Option<TopologyError>)
        requires
            l < self.links@.len(),
        ensures
            res == self.link_error(l as int),
            res matches Some(error) ==> error.of(*self),
    {
        let link = &self.links[l];
        if link.endpoints.len() < 2 {
            return Some(TopologyError::FewEndpoints(l));
        }
        if let Some(endpoint) = self.find_unknown_endpoint(l) {
            return Some(TopologyError::UnknownNode { link: l, endpoint });
        }
        match self.wire(l) {
            Wiring::Host { endpoint, transport } => {
                if find_host_endpoint(
                    self.host_nodes.as_slice(),
                    link.endpoints.as_slice(),
                    endpoint + 1,
                ).is_some() {
                    return Some(TopologyError::ManyHosts(l));
                }
                if link.kind == LinkKind::Can {
                    return Some(TopologyError::HostOnCan { link: l, endpoint });
                }
                if transport == HostLinkTransport::PicoFiI2cToUart && link.kind
                    != LinkKind::PicoFi {
                    return Some(TopologyError::NotPicoFi(l));
                }
                None
            },
            _ => None,
        }
    }

    fn check_links(&self) -> (res: Option<TopologyError>)
        ensures
            res == self.links_error(0),
            res matches Some(error) ==> error.of(*self),
    {
        let mut l: usize = 0;
        while l < self.links.len()
            invariant
                l <= self.links@.len(),
                self.links_error(0) == self.links_error(l as int),
            decreases self.links@.len() - l,
        {
            if let Some(error) = self.check_link(l) {
                return Some(error);
            }
            l = l + 1;
        }
        None
    }

    fn is_node_taken(&self, i: usize) -> (res: bool)
        requires
            i < self.nodes@.len(),
        ensures
            res == self.node_taken(i as int),
    {
        let mut j: usize = 0;
        while j < i
            invariant
                j <= i,
                i < self.nodes@.len(),
                forall|k: int| 0 <= k < j ==> !#[trigger] self.same_node(k, i as int),
            decreases i - j,
        {
            if same_text(self.nodes[j].name.as_str(), self.nodes[i].name.as_str()) {
                assert(self.same_node(j as int, i as int));
                return true;
            }
            j = j + 1;
        }
        false
    }

    fn check_nodes(&self) -> (res: Option<TopologyError>)
        ensures
            res == self.nodes_error(0),
            res matches Some(error) ==> error.of(*self),
    {
        let mut i: usize = 0;
        while i < self.nodes.len()
            invariant
                i <= self.nodes@.len(),
                self.nodes_error(0) == self.nodes_error(i as int),
            decreases self.nodes@.len() - i,
        {
            if self.is_node_taken(i) {
                return Some(TopologyError::NodeTaken(i));
            }
            i = i + 1;
        }
        None
    }

    fn check_hosts(&self, binaries: &[bool]) -> (res: Option<TopologyError>)
        requires
            binaries@.len() == self.host_nodes@.len(),
        ensures
            res == self.hosts_error(binaries@, 0),
            res matches Some(error) ==> error.of(*self),
    {
        let mut i: usize = 0;
        while i < self.host_nodes.len()
            invariant
                i <= self.host_nodes@.len(),
                binaries@.len() == self.host_nodes@.len(),
                self.hosts_error(binaries@, 0) == self.hosts_error(binaries@, i as int),
            decreases self.host_nodes@.len() - i,
        {
            if is_node(self.nodes.as_slice(), self.host_nodes[i].name.as_str()) {
                return Some(TopologyError::HostIsNode(i));
            }
            if !binaries[i] {
                return Some(TopologyError::HostBinary(i));
            }
            i = i + 1;
        }
        None
    }

    fn find_host_link(&self, name: &str) -> (res: Option<usize>)
        ensures
            match self.host_link(name@, self.links@.len() as int) {
                Some(l) => res matches Some(found) && found == l && found < self.links@.len()
                    && self.wiring(l) is Host,
                None => res is None,
            },
    {
        let mut end: usize = self.links.len();
        while end > 0
            invariant
                end <= self.links@.len(),
                self.host_link(name@, self.links@.len() as int) == self.host_link(
                    name@,
                    end as int,
                ),
            decreases end,
        {
            if same_text(self.links[end - 1].name.as_str(), name) {
                if let Wiring::Host { .. } = self.wire(end - 1) {
                    return Some(end - 1);
                }
            }
            end = end - 1;
        }
        None
    }

    fn check_serial(&self, host: usize) -> (res: Option<TopologyError>)
        requires
            host < self.host_nodes@.len(),
        ensures
            res == self.serial_error(host as int, 0),
            res matches Some(error) ==> error.of(*self),
    {
        let serials = &self.host_nodes[host].serial_links;
        let mut serial: usize = 0;
        while serial < serials.len()
            invariant
                host < self.host_nodes@.len(),
                serials@ == self.host_nodes@[host as int].serial_links@,
                serial <= serials@.len(),
                self.serial_error(host as int, 0) == self.serial_error(
                    host as int,
                    serial as int,
                ),
            decreases serials@.len() - serial,
        {
            if self.find_host_link(serials[serial].link.as_str()).is_none() {
                return Some(TopologyError::UnknownSerial { host, serial });
            }
            serial = serial + 1;
        }
        None
    }

    fn check_serials(&self) -> (res: Option<TopologyError>)
        ensures
            res == self.serials_error(0),
            res matches Some(error) ==> error.of(*self),
    {
        let mut host: usize = 0;
        while host < self.host_nodes.len()
            invariant
                host <= self.host_nodes@.len(),
                self.serials_error(0) == self.serials_error(host as int),
            decreases self.host_nodes@.len() - host,
        {
            if let Some(error) = self.check_serial(host) {
                return Some(error);
            }
            host = host + 1;
        }
        None
    }

    /// Checks a topology before anything is built. `binaries` says of each
    /// host program whether its binary is there.
    pub fn validate(&self, binaries: &[bool]) -> (res: Result<(), TopologyError>)
        requires
            binaries@.len() == self.host_nodes@.len(),
        ensures
            match self.error(binaries@) {
                Some(error) => res == Err::<(), TopologyError>(error) && error.of(*self),
                None => res is Ok,
            },
    {
        if self.nodes.len() == 0 {
            return Err(TopologyError::NoNodes);
        }
        if self.sample_count == 0 {
            return Err(TopologyError::NoSamples);
        }
        if self.sample_count as u64 > self.virtual_time_ms {
            return Err(TopologyError::TooManySamples);
        }
        if let Some(error) = self.check_nodes() {
            return Err(error);
        }
        if let Some(error) = self.check_hosts(binaries) {
            return Err(error);
        }
        if let Some(error) = self.check_links() {
            return Err(error);
        }
        if let Some(error) = self.check_serials() {
            return Err(error);
        }
        Ok(())
    }
}

// ---------------------------------------------------------------------------
// Links
// ---------------------------------------------------------------------------

/// Where the terminal of a link lies.
pub open spec fn pty_path(scratch: Seq<char>, link: Seq<char>) -> Seq<char> {
    ""@ + scratch + "/"@ + safe_text(link) + ".pty"@
}

/// Where a host program finds the I2C side of a translated link.
pub open spec fn socket_path(scratch: Seq<char>, link: Seq<char>) -> Seq<char> {
    ""@ + scratch + "/"@ + safe_text(link) + ".i2c.sock"@
}

fn render_pty_path(scratch: &str, link: &str) -> (res: String)
    ensures
        res@ == pty_path(scratch@, link@),
{
    let name = safe(link);
    Text::new("").str(scratch).str("/").str(name.as_str()).str(".pty").done()
}

fn render_socket_path(scratch: &str, link: &str) -> (res: String)
    ensures
        res@ == socket_path(scratch@, link@),
{
    let name = safe(link);
    Text::new("").str(scratch).str("/").str(name.as_str()).str(".i2c.sock").done()
}

/// One link that a host program opens.
#[derive(Debug)]
pub struct HostPort {
    /// The position of the link in the topology.
    pub link: usize,
    /// The terminal that the emulator creates.
    pub pty: String,
    /// The socket of a translated link, which the host program opens instead.
    pub socket: Option<String>,
}

impl HostPort {
    pub open spec fn of(self, topology: BayTopology, scratch: Seq<char>, l: int) -> bool {
        let name = topology.links@[l].name@;
        &&& self.link == l
        &&& self.pty@ == pty_path(scratch, name)
        &&& match topology.wiring(l) {
            Wiring::Host { transport: HostLinkTransport::PicoFiI2cToUart, .. } => opt_text(
                self.socket,
            ) == Some(socket_path(scratch, name)),
            _ => self.socket is None,
        }
    }
}

impl BayTopology {
    /// The links among the first `end` that a host program opens.
    pub open spec fn host_links(&self, end: int) -> Seq<int>
        decreases end,
    {
        if end <= 0 {
            Seq::empty()
        } else if self.wiring(end - 1) is Host {
            self.host_links(end - 1).push(end - 1)
        } else {
            self.host_links(end - 1)
        }
    }

    /// What a host program opens for the link of this name.
    pub open spec fn host_path(&self, scratch: Seq<char>, name: Seq<char>) -> Option<Seq<char>> {
        match self.host_link(name, self.links@.len() as int) {
            None => None,
            Some(l) => match self.wiring(l) {
                Wiring::Host { transport: HostLinkTransport::PicoFiI2cToUart, .. } => Some(
                    socket_path(scratch, name),
                ),
                _ => Some(pty_path(scratch, name)),
            },
        }
    }

    pub open spec fn link_text(&self, scratch: Seq<char>, l: int) -> Seq<char> {
        let name = self.links@[l].name@;
        match self.wiring(l) {
            // A physical controller in normal mode does not receive its own
            // frames, so the hub must not loop them back.
            Wiring::CanHub => "emulation CreateCANHub \""@ + safe_text(name) + "\" false\n"@,
            Wiring::UartHub => "emulation CreateUARTHub \""@ + safe_text(name) + "\"\n"@,
            Wiring::Host { .. } => "emulation CreateUartPtyTerminal \""@ + safe_text(name)
                + "\" \""@ + pty_path(scratch, name) + "\"\n"@,
        }
    }

    pub open spec fn links_text(&self, scratch: Seq<char>, end: int) -> Seq<char>
        decreases end,
    {
        if end <= 0 {
            ""@
        } else {
            self.links_text(scratch, end - 1) + self.link_text(scratch, end - 1)
        }
    }

    /// The links that host programs open, in their order.
    pub fn host_ports(&self, scratch: &str) -> (res: Vec<HostPort>)
        ensures
            res@.len() == self.host_links(self.links@.len() as int).len(),
            forall|i: int|
                0 <= i < res@.len() ==> (#[trigger] res@[i]).of(
                    *self,
                    scratch@,
                    self.host_links(self.links@.len() as int)[i],
                ),
    {
        let mut ports: Vec<HostPort> = Vec::new();
        let mut l: usize = 0;
        while l < self.links.len()
            invariant
                l <= self.links@.len(),
                ports@.len() == self.host_links(l as int).len(),
                forall|i: int|
                    0 <= i < ports@.len() ==> (#[trigger] ports@[i]).of(
                        *self,
                        scratch@,
                        self.host_links(l as int)[i],
                    ),
            decreases self.links@.len() - l,
        {
            if let Wiring::Host { transport, .. } = self.wire(l) {
                let name = self.links[l].name.as_str();
                let socket = match transport {
                    HostLinkTransport::PicoFiI2cToUart => Some(render_socket_path(scratch, name)),
                    HostLinkTransport::UartPty => None,
                };
                ports.push(HostPort { link: l, pty: render_pty_path(scratch, name), socket });
            }
            l = l + 1;
        }
        ports
    }

    /// What a host program opens for the link of this name.
    pub fn find_host_path(&self, scratch: &str, name: &str) -> (res: Option<String>)
        ensures
            opt_text(res) == self.host_path(scratch@, name@),
    {
        match self.find_host_link(name) {
            Some(l) => match self.wire(l) {
                Wiring::Host { transport: HostLinkTransport::PicoFiI2cToUart, .. } => Some(
                    render_socket_path(scratch, name),
                ),
                _ => Some(render_pty_path(scratch, name)),
            },
            None => None,
        }
    }

    fn render_link(&self, scratch: &str, l: usize) -> (res: String)
        requires
            l < self.links@.len(),
        ensures
            res@ == self.link_text(scratch@, l as int),
    {
        let name = self.links[l].name.as_str();
        let shown = safe(name);
        match self.wire(l) {
            Wiring::CanHub => Text::new("emulation CreateCANHub \"").str(shown.as_str()).str(
                "\" false\n",
            ).done(),
            Wiring::UartHub => Text::new("emulation CreateUARTHub \"").str(shown.as_str()).str(
                "\"\n",
            ).done(),
            Wiring::Host { .. } => {
                let pty = render_pty_path(scratch, name);
                Text::new("emulation CreateUartPtyTerminal \"").str(shown.as_str()).str(
                    "\" \"",
                ).str(pty.as_str()).str("\"\n").done()
            },
        }
    }
}

// ---------------------------------------------------------------------------
// The script
// ---------------------------------------------------------------------------

/// One firmware node, ready to be loaded.
#[derive(Debug)]
pub struct NodeBoard<'a> {
    pub layout: &'a BoardLayout,
    pub platform: &'a str,
    pub overlay: &'a str,
    pub elf: &'a str,
    pub firmware_image: &'a str,
    /// Stack pointer, reset handler and vector table.
    pub vector: (u32, u32, u32),
}

/// What a node logs when it reaches its boot-success symbol.
pub open spec fn boot_marker(node: Seq<char>) -> Seq<char> {
    "SEDS_NODE_BOOT_"@ + safe_text(node)
}

pub open spec fn board_text(node: Seq<char>, board: NodeBoard) -> Seq<char> {
    "mach create \""@ + safe_text(node) + "\"\nmachine LoadPlatformDescription @"@
        + board.platform@ + "\nmachine LoadPlatformDescription @"@ + board.overlay@ + "\n"@
        + strict_text(*board.layout) + pins_text(
        board.layout.board.pins@,
        board.layout.board.pins@.len() as int,
    ) + "sysbus LoadSymbolsFrom @"@ + board.elf@ + "\nsysbus LoadBinary @"@
        + board.firmware_image@ + " 0x"@ + hex8(board.layout.memory.flash_base as nat)
        + "\nphysicalFlash EndHostLoading\ncpu SetRegister 13 0x"@ + hex8(board.vector.0 as nat)
        + "\ncpu PC 0x"@ + hex8(board.vector.1 as nat) + "\ncpu VectorTableOffset 0x"@ + hex8(
        board.vector.2 as nat,
    ) + "\ncpu AddHook `sysbus GetSymbolAddress \""@
        + board.layout.execution.boot_success_symbol@ + "\"` 'self.InfoLog(\""@ + boot_marker(node)
        + "\")'\n"@
}

/// The connections of a node to the first `end` endpoints of a link.
pub open spec fn endpoints_text(node: Seq<char>, link: Link, end: int) -> Seq<char>
    decreases end,
{
    if end <= 0 {
        ""@
    } else {
        let earlier = endpoints_text(node, link, end - 1);
        let endpoint = link.endpoints@[end - 1];
        if endpoint.node@ == node {
            earlier + "connector Connect sysbus."@ + safe_text(endpoint.peripheral@) + " "@
                + safe_text(link.name@) + "\n"@
        } else {
            earlier
        }
    }
}

pub open spec fn connections_text(node: Seq<char>, links: Seq<Link>, end: int) -> Seq<char>
    decreases end,
{
    if end <= 0 {
        ""@
    } else {
        connections_text(node, links, end - 1) + endpoints_text(
            node,
            links[end - 1],
            links[end - 1].endpoints@.len() as int,
        )
    }
}

/// Reading the first `end` probes of a node.
pub open spec fn node_reads(
    node: Seq<char>,
    probes: Seq<MemoryProbe>,
    sample: int,
    end: int,
) -> Seq<char>
    decreases end,
{
    if end <= 0 {
        ""@
    } else {
        node_reads(node, probes, sample, end - 1) + "echo \"SEDS_BAY_PROBE "@ + safe_text(node)
            + " "@ + probes[end - 1].name@ + " "@ + dec(sample as nat)
            + "\"\nsysbus ReadDoubleWord `sysbus GetSymbolAddress \""@ + probes[end - 1].symbol@
            + "\"`\n"@
    }
}

impl BayTopology {
    pub open spec fn nodes_text(&self, boards: Seq<NodeBoard>, end: int) -> Seq<char>
        decreases end,
    {
        if end <= 0 {
            ""@
        } else {
            let node = self.nodes@[end - 1].name@;
            self.nodes_text(boards, end - 1) + board_text(node, boards[end - 1])
                + connections_text(node, self.links@, self.links@.len() as int)
        }
    }

    /// Sampling the first `end` nodes.
    pub open spec fn reads_text(&self, boards: Seq<NodeBoard>, sample: int, end: int) -> Seq<char>
        decreases end,
    {
        if end <= 0 {
            ""@
        } else {
            let node = self.nodes@[end - 1].name@;
            let probes = boards[end - 1].layout.execution.memory_probes@;
            self.reads_text(boards, sample, end - 1) + "mach set \""@ + safe_text(node) + "\"\n"@
                + node_reads(node, probes, sample, probes.len() as int)
        }
    }

    /// The first `end` samples of the run.
    pub open spec fn samples_text(&self, boards: Seq<NodeBoard>, end: int) -> Seq<char>
        decreases end,
    {
        if end <= 0 {
            ""@
        } else {
            self.samples_text(boards, end - 1) + "emulation RunFor \""@ + millis(
                sample_ms(self.virtual_time_ms as int, self.sample_count as int, end - 1) as nat,
            ) + "s\"\n"@ + self.reads_text(boards, end - 1, self.nodes@.len() as int)
                + "echo \"SEDS_BAY_SAMPLE_DONE "@ + dec(end as nat) + " "@ + dec(
                self.sample_count as nat,
            ) + "\"\n"@
        }
    }

    /// Reading where the first `end` nodes stopped.
    pub open spec fn registers_text(&self, end: int) -> Seq<char>
        decreases end,
    {
        if end <= 0 {
            ""@
        } else {
            let name = safe_text(self.nodes@[end - 1].name@);
            self.registers_text(end - 1) + "mach set \""@ + name + "\"\necho \"SEDS_NODE "@ + name
                + " PC\"\ncpu PC\n"@
        }
    }

    /// Nodes are independent and must advance concurrently: a sender inside a
    /// bounded FIFO wait would otherwise never see its receiver run. The fixed
    /// global quantum keeps the run repeatable.
    pub open spec fn script_text(&self, boards: Seq<NodeBoard>, scratch: Seq<char>) -> Seq<char> {
        let hosts = if self.host_nodes@.len() > 0 {
            "echo \"SEDS_HOST_ENDPOINTS_READY\"\nsleep 5\n"@
        } else {
            ""@
        };
        ""@ + self.links_text(scratch, self.links@.len() as int) + self.nodes_text(
            boards,
            self.nodes@.len() as int,
        ) + hosts + "emulation SetGlobalQuantum \""@ + self.quantum_seconds@
            + "\"\nemulation SetGlobalSerialExecution False\n"@ + self.samples_text(
            boards,
            self.sample_count as int,
        ) + self.registers_text(self.nodes@.len() as int) + "echo \"SEDS_BAY_COMPLETE\"\n"@
    }
}

fn render_board(node: &str, board: &NodeBoard) -> (res: String)
    ensures
        res@ == board_text(node@, *board),
{
    let name = safe(node);
    let pins = render_board_initialization_script(board.layout);
    let strict = if board.layout.board.strict_mmio {
        "sysbus UnhandledAccessBehaviour ThrowException\n"
    } else {
        ""
    };
    Text::new("mach create \"").str(name.as_str()).str(
        "\"\nmachine LoadPlatformDescription @",
    ).str(board.platform).str("\nmachine LoadPlatformDescription @").str(board.overlay).str(
        "\n",
    ).str(strict).str(pins.as_str()).str("sysbus LoadSymbolsFrom @").str(board.elf).str(
        "\nsysbus LoadBinary @",
    ).str(board.firmware_image).str(" 0x").hex8(board.layout.memory.flash_base).str(
        "\nphysicalFlash EndHostLoading\ncpu SetRegister 13 0x",
    ).hex8(board.vector.0 as u64).str("\ncpu PC 0x").hex8(board.vector.1 as u64).str(
        "\ncpu VectorTableOffset 0x",
    ).hex8(board.vector.2 as u64).str("\ncpu AddHook `sysbus GetSymbolAddress \"").str(
        board.layout.execution.boot_success_symbol.as_str(),
    ).str("\"` 'self.InfoLog(\"").str(render_boot_marker(node).as_str()).str("\")'\n").done()
}

/// What a node logs when it reaches its boot-success symbol.
pub fn render_boot_marker(node: &str) -> (res: String)
    ensures
        res@ == boot_marker(node@),
{
    let name = safe(node);
    Text::new("SEDS_NODE_BOOT_").str(name.as_str()).done()
}

fn render_endpoints(node: &str, link: &Link) -> (res: String)
    ensures
        res@ == endpoints_text(node@, *link, link.endpoints@.len() as int),
{
    let name = safe(link.name.as_str());
    let mut text = Text::new("");
    let mut i: usize = 0;
    while i < link.endpoints.len()
        invariant
            i <= link.endpoints@.len(),
            name@ == safe_text(link.name@),
            text@ == endpoints_text(node@, *link, i as int),
        decreases link.endpoints@.len() - i,
    {
        let endpoint = &link.endpoints[i];
        if same_text(endpoint.node.as_str(), node) {
            let peripheral = safe(endpoint.peripheral.as_str());
            text =
            text.str("connector Connect sysbus.").str(peripheral.as_str()).str(" ").str(
                name.as_str(),
            ).str("\n");
        }
        i = i + 1;
    }
    text.done()
}

fn render_connections(node: &str, links: &[Link]) -> (res: String)
    ensures
        res@ == connections_text(node@, links@, links@.len() as int),
{
    let mut text = Text::new("");
    let mut l: usize = 0;
    while l < links.len()
        invariant
            l <= links@.len(),
            text@ == connections_text(node@, links@, l as int),
        decreases links@.len() - l,
    {
        let endpoints = render_endpoints(node, &links[l]);
        text = text.str(endpoints.as_str());
        l = l + 1;
    }
    text.done()
}

fn render_node_reads(node: &str, probes: &[MemoryProbe], sample: usize) -> (res: String)
    ensures
        res@ == node_reads(node@, probes@, sample as int, probes@.len() as int),
{
    let name = safe(node);
    let mut text = Text::new("");
    let mut i: usize = 0;
    while i < probes.len()
        invariant
            i <= probes@.len(),
            name@ == safe_text(node@),
            text@ == node_reads(node@, probes@, sample as int, i as int),
        decreases probes@.len() - i,
    {
        text =
        text.str("echo \"SEDS_BAY_PROBE ").str(name.as_str()).str(" ").str(
            probes[i].name.as_str(),
        ).str(" ").dec(sample as u64).str(
            "\"\nsysbus ReadDoubleWord `sysbus GetSymbolAddress \"",
        ).str(probes[i].symbol.as_str()).str("\"`\n");
        i = i + 1;
    }
    text.done()
}

impl BayTopology {
    fn render_links(&self, scratch: &str) -> (res: String)
        ensures
            res@ == self.links_text(scratch@, self.links@.len() as int),
    {
        let mut text = Text::new("");
        let mut l: usize = 0;
        while l < self.links.len()
            invariant
                l <= self.links@.len(),
                text@ == self.links_text(scratch@, l as int),
            decreases self.links@.len() - l,
        {
            let link = self.render_link(scratch, l);
            text = text.str(link.as_str());
            l = l + 1;
        }
        text.done()
    }

    fn render_nodes(&self, boards: &[NodeBoard]) -> (res: String)
        requires
            boards@.len() == self.nodes@.len(),
        ensures
            res@ == self.nodes_text(boards@, self.nodes@.len() as int),
    {
        let mut text = Text::new("");
        let mut n: usize = 0;
        while n < self.nodes.len()
            invariant
                n <= self.nodes@.len(),
                boards@.len() == self.nodes@.len(),
                text@ == self.nodes_text(boards@, n as int),
            decreases self.nodes@.len() - n,
        {
            let node = self.nodes[n].name.as_str();
            let board = render_board(node, &boards[n]);
            let connections = render_connections(node, self.links.as_slice());
            text = text.str(board.as_str()).str(connections.as_str());
            n = n + 1;
        }
        text.done()
    }

    fn render_reads(&self, boards: &[NodeBoard], sample: usize) -> (res: String)
        requires
            boards@.len() == self.nodes@.len(),
        ensures
            res@ == self.reads_text(boards@, sample as int, self.nodes@.len() as int),
    {
        let mut text = Text::new("");
        let mut n: usize = 0;
        while n < self.nodes.len()
            invariant
                n <= self.nodes@.len(),
                boards@.len() == self.nodes@.len(),
                text@ == self.reads_text(boards@, sample as int, n as int),
            decreases self.nodes@.len() - n,
        {
            let node = self.nodes[n].name.as_str();
            let name = safe(node);
            let reads = render_node_reads(
                node,
                boards[n].layout.execution.memory_probes.as_slice(),
                sample,
            );
            text = text.str("mach set \"").str(name.as_str()).str("\"\n").str(reads.as_str());
            n = n + 1;
        }
        text.done()
    }

    fn render_samples(&self, boards: &[NodeBoard]) -> (res: String)
        requires
            boards@.len() == self.nodes@.len(),
            self.sample_count > 0,
        ensures
            res@ == self.samples_text(boards@, self.sample_count as int),
    {
        let mut text = Text::new("");
        let mut sample: usize = 0;
        while sample < self.sample_count
            invariant
                sample <= self.sample_count,
                self.sample_count > 0,
                boards@.len() == self.nodes@.len(),
                text@ == self.samples_text(boards@, sample as int),
            decreases self.sample_count - sample,
        {
            let duration: u64 = sample_duration(self.virtual_time_ms, self.sample_count, sample);
            let reads = self.render_reads(boards, sample);
            text =
            text.str("emulation RunFor \"").millis(duration).str("s\"\n").str(
                reads.as_str(),
            ).str("echo \"SEDS_BAY_SAMPLE_DONE ").dec(sample as u64 + 1).str(" ").dec(
                self.sample_count as u64,
            ).str("\"\n");
            sample = sample + 1;
        }
        text.done()
    }

    fn render_registers(&self) -> (res: String)
        ensures
            res@ == self.registers_text(self.nodes@.len() as int),
    {
        let mut text = Text::new("");
        let mut n: usize = 0;
        while n < self.nodes.len()
            invariant
                n <= self.nodes@.len(),
                text@ == self.registers_text(n as int),
            decreases self.nodes@.len() - n,
        {
            let name = safe(self.nodes[n].name.as_str());
            text =
            text.str("mach set \"").str(name.as_str()).str("\"\necho \"SEDS_NODE ").str(
                name.as_str(),
            ).str(" PC\"\ncpu PC\n");
            n = n + 1;
        }
        text.done()
    }

    /// The script that wires the bay, loads its boards and samples them.
    pub fn render_script(&self, boards: &[NodeBoard], scratch: &str) -> (res: String)
        requires
            boards@.len() == self.nodes@.len(),
            self.sample_count > 0,
        ensures
            res@ == self.script_text(boards@, scratch@),
    {
        let links = self.render_links(scratch);
        let nodes = self.render_nodes(boards);
        let samples = self.render_samples(boards);
        let registers = self.render_registers();
        let hosts = if self.host_nodes.len() > 0 {
            "echo \"SEDS_HOST_ENDPOINTS_READY\"\nsleep 5\n"
        } else {
            ""
        };
        Text::new("").str(links.as_str()).str(nodes.as_str()).str(hosts).str(
            "emulation SetGlobalQuantum \"",
        ).str(self.quantum_seconds.as_str()).str(
            "\"\nemulation SetGlobalSerialExecution False\n",
        ).str(samples.as_str()).str(registers.as_str()).str(
            "echo \"SEDS_BAY_COMPLETE\"\n",
        ).done()
    }
}

// ---------------------------------------------------------------------------
// What an accepted topology gives
// ---------------------------------------------------------------------------

proof fn lemma_nodes_differ(topology: BayTopology, from: int, i: int)
    requires
        0 <= from <= i < topology.nodes@.len(),
        topology.nodes_error(from) is None,
    ensures
        !topology.node_taken(i),
    decreases i - from,
{
    if from < i {
        lemma_nodes_differ(topology, from + 1, i);
    }
}

proof fn lemma_link_accepted(topology: BayTopology, from: int, l: int)
    requires
        0 <= from <= l < topology.links@.len(),
        topology.links_error(from) is None,
    ensures
        topology.link_error(l) is None,
    decreases l - from,
{
    if from < l {
        lemma_link_accepted(topology, from + 1, l);
    }
}

proof fn lemma_endpoint_known(topology: BayTopology, l: int, from: int, e: int)
    requires
        0 <= from <= e < topology.links@[l].endpoints@.len(),
        topology.unknown_endpoint(l, from) is None,
    ensures
        has_node(topology.nodes@, topology.links@[l].endpoints@[e].node@) || has_host(
            topology.host_nodes@,
            topology.links@[l].endpoints@[e].node@,
        ),
    decreases e - from,
{
    if from < e {
        lemma_endpoint_known(topology, l, from + 1, e);
    }
}

/// In an accepted topology no two nodes share a name, every link has at least
/// two endpoints, and every endpoint is a node or a host program of the bay.
pub proof fn law_accepted_links_are_connected(
    topology: BayTopology,
    binaries: Seq<bool>,
    l: int,
    e: int,
)
    requires
        topology.error(binaries) is None,
        0 <= l < topology.links@.len(),
        0 <= e < topology.links@[l].endpoints@.len(),
    ensures
        topology.links@[l].endpoints@.len() >= 2,
        has_node(topology.nodes@, topology.links@[l].endpoints@[e].node@) || has_host(
            topology.host_nodes@,
            topology.links@[l].endpoints@[e].node@,
        ),
        forall|j: int, i: int|
            0 <= j < i < topology.nodes@.len() ==> !#[trigger] topology.same_node(j, i),
{
    lemma_link_accepted(topology, 0, l);
    lemma_endpoint_known(topology, l, 0, e);
    assert forall|j: int, i: int| 0 <= j < i < topology.nodes@.len() implies !#[trigger] topology.same_node(
        j, i) by {
        lemma_nodes_differ(topology, 0, i);
    }
}

/// In an accepted topology a link with a host program is serial, has only that
/// one host program, and is translated to I2C only where it is a Pico-Fi link.
pub proof fn law_host_links_are_serial(topology: BayTopology, binaries: Seq<bool>, l: int)
    requires
        topology.error(binaries) is None,
        0 <= l < topology.links@.len(),
        topology.wiring(l) is Host,
    ensures
        topology.links@[l].kind != LinkKind::Can,
        topology.wiring(l)->transport == HostLinkTransport::PicoFiI2cToUart
            ==> topology.links@[l].kind == LinkKind::PicoFi,
        host_endpoint(
            topology.host_nodes@,
            topology.links@[l].endpoints@,
            topology.wiring(l)->endpoint + 1,
        ) is None,
{
    lemma_link_accepted(topology, 0, l);
}

proof fn lemma_serial_known(topology: BayTopology, host: int, from: int, serial: int)
    requires
        0 <= from <= serial < topology.host_nodes@[host].serial_links@.len(),
        topology.serial_error(host, from) is None,
    ensures
        topology.host_link(
            topology.host_nodes@[host].serial_links@[serial].link@,
            topology.links@.len() as int,
        ) is Some,
    decreases serial - from,
{
    if from < serial {
        lemma_serial_known(topology, host, from + 1, serial);
    }
}

proof fn lemma_serials_known(topology: BayTopology, from: int, host: int)
    requires
        0 <= from <= host < topology.host_nodes@.len(),
        topology.serials_error(from) is None,
    ensures
        topology.serial_error(host, 0) is None,
    decreases host - from,
{
    if from < host {
        lemma_serials_known(topology, from + 1, host);
    }
}

/// In an accepted topology every serial link that a host program names has a
/// path to open.
pub proof fn law_host_programs_find_their_links(
    topology: BayTopology,
    binaries: Seq<bool>,
    scratch: Seq<char>,
    host: int,
    serial: int,
)
    requires
        topology.error(binaries) is None,
        0 <= host < topology.host_nodes@.len(),
        0 <= serial < topology.host_nodes@[host].serial_links@.len(),
    ensures
        topology.host_path(
            scratch,
            topology.host_nodes@[host].serial_links@[serial].link@,
        ) is Some,
{
    lemma_serials_known(topology, 0, host);
    lemma_serial_known(topology, host, 0, serial);
}

// ---------------------------------------------------------------------------
// Which bays are wired
// ---------------------------------------------------------------------------

/// Host program `h` is the first of this name.
pub open spec fn first_host(hosts: Seq<HostNode>, name: Seq<char>, h: int) -> bool {
    &&& 0 <= h < hosts.len()
    &&& hosts[h].name@ == name
    &&& forall|k: int| 0 <= k < h ==> (#[trigger] hosts[k]).name@ != name
}

/// Entry `s` is the first that names this link.
pub open spec fn first_serial(serials: Seq<HostSerialLink>, link: Seq<char>, s: int) -> bool {
    &&& 0 <= s < serials.len()
    &&& serials[s].link@ == link
    &&& forall|k: int| 0 <= k < s ==> (#[trigger] serials[k]).link@ != link
}

/// Some host program has this name.
pub open spec fn names_host(hosts: Seq<HostNode>, name: Seq<char>) -> bool {
    exists|h: int| 0 <= h < hosts.len() && (#[trigger] hosts[h]).name@ == name
}

proof fn lemma_host_index(hosts: Seq<HostNode>, name: Seq<char>, from: int)
    requires
        0 <= from <= hosts.len(),
        forall|k: int| 0 <= k < from ==> (#[trigger] hosts[k]).name@ != name,
    ensures
        match host_index(hosts, name, from) {
            Some(h) => first_host(hosts, name, h),
            None => !names_host(hosts, name),
        },
    decreases hosts.len() - from,
{
    if from < hosts.len() && hosts[from].name@ != name {
        lemma_host_index(hosts, name, from + 1);
    }
}

proof fn lemma_host_transport(serials: Seq<HostSerialLink>, link: Seq<char>, from: int)
    requires
        0 <= from <= serials.len(),
        forall|k: int| 0 <= k < from ==> (#[trigger] serials[k]).link@ != link,
    ensures
        forall|s: int| #[trigger]
            first_serial(serials, link, s) ==> host_transport(serials, link, from)
                == serials[s].transport,
        (forall|k: int| 0 <= k < serials.len() ==> (#[trigger] serials[k]).link@ != link)
            ==> host_transport(serials, link, from) == HostLinkTransport::UartPty,
        (exists|s: int| #[trigger] first_serial(serials, link, s)) || (forall|k: int|
            0 <= k < serials.len() ==> (#[trigger] serials[k]).link@ != link),
    decreases serials.len() - from,
{
    if from < serials.len() {
        if serials[from].link@ == link {
            assert(first_serial(serials, link, from));
        } else {
            lemma_host_transport(serials, link, from + 1);
        }
    }
}

proof fn lemma_host_end(hosts: Seq<HostNode>, endpoints: Seq<Endpoint>, from: int)
    requires
        0 <= from,
    ensures
        match host_endpoint(hosts, endpoints, from) {
            Some(e) => from <= e < endpoints.len() && names_host(hosts, endpoints[e].node@)
                && forall|k: int|
                from <= k < e ==> !names_host(hosts, (#[trigger] endpoints[k]).node@),
            None => forall|k: int|
                from <= k < endpoints.len() ==> !names_host(
                    hosts,
                    (#[trigger] endpoints[k]).node@,
                ),
        },
    decreases endpoints.len() - from,
{
    if from < endpoints.len() {
        lemma_host_index(hosts, endpoints[from].node@, 0);
        lemma_host_end(hosts, endpoints, from + 1);
    }
}

proof fn lemma_unknown_endpoint(topology: BayTopology, l: int, from: int)
    requires
        0 <= from,
    ensures
        topology.unknown_endpoint(l, from) is None <==> forall|k: int|
            from <= k < topology.links@[l].endpoints@.len() ==> has_node(
                topology.nodes@,
                (#[trigger] topology.links@[l].endpoints@[k]).node@,
            ) || names_host(topology.host_nodes@, topology.links@[l].endpoints@[k].node@),
    decreases topology.links@[l].endpoints@.len() - from,
{
    let endpoints = topology.links@[l].endpoints@;
    if from < endpoints.len() {
        lemma_host_index(topology.host_nodes@, endpoints[from].node@, 0);
        lemma_unknown_endpoint(topology, l, from + 1);
        if topology.unknown_endpoint(l, from) is None {
            assert forall|k: int| from <= k < endpoints.len() implies has_node(
                topology.nodes@,
                (#[trigger] endpoints[k]).node@,
            ) || names_host(topology.host_nodes@, endpoints[k].node@) by {
                if k > from {
                    assert(from + 1 <= k);
                }
            }
        }
    }
}

/// A link is wired exactly where it joins at least two endpoints, each a node
/// or a host program, with at most one host program among them; a host program
/// is on no CAN bus, and reaches a link through an I2C converter only where
/// the link is one for it.
pub open spec fn link_sound(topology: BayTopology, link: Link) -> bool {
    let hosts = topology.host_nodes@;
    let ends = link.endpoints@;
    &&& ends.len() >= 2
    &&& forall|k: int|
        0 <= k < ends.len() ==> has_node(topology.nodes@, (#[trigger] ends[k]).node@) || names_host(
            hosts,
            ends[k].node@,
        )
    &&& forall|j: int, k: int|
        0 <= j < k < ends.len() ==> !(names_host(hosts, (#[trigger] ends[j]).node@) && names_host(
            hosts,
            (#[trigger] ends[k]).node@,
        ))
    &&& forall|k: int|
        0 <= k < ends.len() && names_host(hosts, (#[trigger] ends[k]).node@) ==> link.kind
            != LinkKind::Can
    &&& forall|k: int, h: int, s: int|
        #![trigger ends[k], first_serial(hosts[h].serial_links@, link.name@, s)]
        0 <= k < ends.len() && first_host(hosts, ends[k].node@, h) && first_serial(
            hosts[h].serial_links@,
            link.name@,
            s,
        ) && hosts[h].serial_links@[s].transport == HostLinkTransport::PicoFiI2cToUart ==> link.kind
            == LinkKind::PicoFi
}

proof fn lemma_link_sound(topology: BayTopology, l: int)
    requires
        0 <= l < topology.links@.len(),
        topology.links@[l].endpoints@.len() <= usize::MAX,
    ensures
        topology.link_error(l) is None <==> link_sound(topology, topology.links@[l]),
{
    let hosts = topology.host_nodes@;
    let link = topology.links@[l];
    let ends = link.endpoints@;
    lemma_unknown_endpoint(topology, l, 0);
    lemma_host_end(hosts, ends, 0);
    match host_endpoint(hosts, ends, 0) {
        None => {
            assert forall|k: int, h: int| 0 <= k < ends.len() implies !#[trigger] first_host(
                hosts,
                ends[k].node@,
                h,
            ) by {
                assert(!names_host(hosts, ends[k].node@));
            }
        },
        Some(e) => {
            lemma_host_end(hosts, ends, e + 1);
            lemma_host_index(hosts, ends[e].node@, 0);
            let h = host_index(hosts, ends[e].node@, 0)->0;
            let serials = hosts[h].serial_links@;
            lemma_host_transport(serials, link.name@, 0);
            let transport = host_transport(serials, link.name@, 0);
            assert(first_host(hosts, ends[e].node@, h));
            if topology.link_error(l) is None {
                assert forall|k: int, g: int, s: int|
                    #![trigger ends[k], first_serial(hosts[g].serial_links@, link.name@, s)]
                    0 <= k < ends.len() && first_host(hosts, ends[k].node@, g) && first_serial(
                        hosts[g].serial_links@,
                        link.name@,
                        s,
                    ) && hosts[g].serial_links@[s].transport
                        == HostLinkTransport::PicoFiI2cToUart implies link.kind
                    == LinkKind::PicoFi by {
                    assert(names_host(hosts, ends[k].node@));
                    assert(k == e);
                    assert(g == h);
                }
                assert forall|j: int, k: int| 0 <= j < k < ends.len() implies !(names_host(
                    hosts,
                    (#[trigger] ends[j]).node@,
                ) && names_host(hosts, (#[trigger] ends[k]).node@)) by {
                    if j != e && k != e && j > e {
                        assert(!names_host(hosts, ends[j].node@));
                    }
                }
            }
            if link_sound(topology, link) {
                if transport == HostLinkTransport::PicoFiI2cToUart {
                    let s = choose|s: int| #[trigger] first_serial(serials, link.name@, s);
                    assert(first_serial(hosts[h].serial_links@, link.name@, s));
                    assert(link.kind == LinkKind::PicoFi) by {
                        assert(0 <= e < ends.len());
                        let end = ends[e];
                    }
                }
            }
        },
    }
}

proof fn lemma_links_sound(topology: BayTopology, from: int)
    requires
        0 <= from,
        forall|l: int|
            0 <= l < topology.links@.len() ==> (#[trigger] topology.links@[l]).endpoints@.len()
                <= usize::MAX,
    ensures
        topology.links_error(from) is None <==> forall|l: int|
            from <= l < topology.links@.len() ==> link_sound(topology, #[trigger] topology.links@[l]),
    decreases topology.links@.len() - from,
{
    if from < topology.links@.len() {
        lemma_links_sound(topology, from + 1);
        lemma_link_sound(topology, from);
        if topology.links_error(from) is None {
            assert forall|l: int| from <= l < topology.links@.len() implies link_sound(
                topology,
                #[trigger] topology.links@[l],
            ) by {
                if l > from {
                    assert(from + 1 <= l);
                }
            }
        }
    }
}

proof fn lemma_nodes_apart(topology: BayTopology, from: int)
    requires
        0 <= from,
    ensures
        topology.nodes_error(from) is None <==> forall|i: int|
            from <= i < topology.nodes@.len() ==> !#[trigger] topology.node_taken(i),
    decreases topology.nodes@.len() - from,
{
    if from < topology.nodes@.len() {
        lemma_nodes_apart(topology, from + 1);
        if topology.nodes_error(from) is None {
            assert forall|i: int| from <= i < topology.nodes@.len() implies !#[trigger] topology.node_taken(
                i,
            ) by {
                if i > from {
                    assert(from + 1 <= i);
                }
            }
        } else {
            assert(topology.node_taken(from) || exists|i: int|
                from + 1 <= i < topology.nodes@.len() && #[trigger] topology.node_taken(i));
        }
    }
}

proof fn lemma_hosts_sound(topology: BayTopology, binaries: Seq<bool>, from: int)
    requires
        0 <= from,
    ensures
        topology.hosts_error(binaries, from) is None <==> forall|i: int|
            from <= i < topology.host_nodes@.len() ==> !has_node(
                topology.nodes@,
                (#[trigger] topology.host_nodes@[i]).name@,
            ) && binaries[i],
    decreases topology.host_nodes@.len() - from,
{
    if from < topology.host_nodes@.len() {
        lemma_hosts_sound(topology, binaries, from + 1);
        if topology.hosts_error(binaries, from) is None {
            assert forall|i: int| from <= i < topology.host_nodes@.len() implies !has_node(
                topology.nodes@,
                (#[trigger] topology.host_nodes@[i]).name@,
            ) && binaries[i] by {
                if i > from {
                    assert(from + 1 <= i);
                }
            }
        }
    }
}

/// One of the first `end` links has this name and a host program at one end.
pub open spec fn host_opens(topology: BayTopology, name: Seq<char>, end: int) -> bool {
    exists|l: int, e: int|
        #![trigger topology.links@[l].endpoints@[e]]
        0 <= l < end && topology.links@[l].name@ == name && 0 <= e
            < topology.links@[l].endpoints@.len() && names_host(
            topology.host_nodes@,
            topology.links@[l].endpoints@[e].node@,
        )
}

proof fn lemma_host_link(topology: BayTopology, name: Seq<char>, end: int)
    requires
        0 <= end <= topology.links@.len(),
    ensures
        topology.host_link(name, end) is Some <==> host_opens(topology, name, end),
    decreases end,
{
    if end > 0 {
        lemma_host_link(topology, name, end - 1);
        let ends = topology.links@[end - 1].endpoints@;
        lemma_host_end(topology.host_nodes@, ends, 0);
        match host_endpoint(topology.host_nodes@, ends, 0) {
            Some(e) => {
                assert(names_host(
                    topology.host_nodes@,
                    topology.links@[end - 1].endpoints@[e].node@,
                ));
            },
            None => {},
        }
        if host_opens(topology, name, end - 1) {
            let (l, e): (int, int) = choose|l: int, e: int|
                #![trigger topology.links@[l].endpoints@[e]]
                0 <= l < end - 1 && topology.links@[l].name@ == name && 0 <= e
                    < topology.links@[l].endpoints@.len() && names_host(
                    topology.host_nodes@,
                    topology.links@[l].endpoints@[e].node@,
                );
            assert(names_host(topology.host_nodes@, topology.links@[l].endpoints@[e].node@));
        }
        if host_opens(topology, name, end) && !host_opens(topology, name, end - 1) {
            let (l, e): (int, int) = choose|l: int, e: int|
                #![trigger topology.links@[l].endpoints@[e]]
                0 <= l < end && topology.links@[l].name@ == name && 0 <= e
                    < topology.links@[l].endpoints@.len() && names_host(
                    topology.host_nodes@,
                    topology.links@[l].endpoints@[e].node@,
                );
            assert(l == end - 1);
            assert(names_host(topology.host_nodes@, ends[e].node@));
        }
    }
}

proof fn lemma_serial(topology: BayTopology, host: int, from: int)
    requires
        0 <= from,
    ensures
        topology.serial_error(host, from) is None <==> forall|s: int|
            from <= s < topology.host_nodes@[host].serial_links@.len() ==> host_opens(
                topology,
                (#[trigger] topology.host_nodes@[host].serial_links@[s]).link@,
                topology.links@.len() as int,
            ),
    decreases topology.host_nodes@[host].serial_links@.len() - from,
{
    let serials = topology.host_nodes@[host].serial_links@;
    if from < serials.len() {
        lemma_serial(topology, host, from + 1);
        lemma_host_link(topology, serials[from].link@, topology.links@.len() as int);
        if topology.serial_error(host, from) is None {
            assert forall|s: int| from <= s < serials.len() implies host_opens(
                topology,
                (#[trigger] serials[s]).link@,
                topology.links@.len() as int,
            ) by {
                if s > from {
                    assert(from + 1 <= s);
                }
            }
        }
    }
}

spec fn host_serials_sound(topology: BayTopology, host: HostNode) -> bool {
    forall|s: int|
        0 <= s < host.serial_links@.len() ==> host_opens(
            topology,
            (#[trigger] host.serial_links@[s]).link@,
            topology.links@.len() as int,
        )
}

proof fn lemma_serials(topology: BayTopology, from: int)
    requires
        0 <= from,
    ensures
        topology.serials_error(from) is None <==> forall|h: int|
            from <= h < topology.host_nodes@.len() ==> host_serials_sound(
                topology,
                #[trigger] topology.host_nodes@[h],
            ),
    decreases topology.host_nodes@.len() - from,
{
    if from < topology.host_nodes@.len() {
        lemma_serials(topology, from + 1);
        lemma_serial(topology, from, 0);
        if topology.serials_error(from) is None {
            assert forall|h: int| from <= h < topology.host_nodes@.len() implies host_serials_sound(
                topology,
                #[trigger] topology.host_nodes@[h],
            ) by {
                if h > from {
                    assert(from + 1 <= h);
                }
            }
        }
    }
}

/// No two nodes share a name.
pub open spec fn nodes_distinct(nodes: Seq<Node>) -> bool {
    forall|i: int, j: int|
        0 <= j < i < nodes.len() ==> (#[trigger] nodes[j]).name@ != (#[trigger] nodes[i]).name@
}

/// Every host program has its binary, and none has a node's name.
pub open spec fn hosts_sound(nodes: Seq<Node>, hosts: Seq<HostNode>, binaries: Seq<bool>) -> bool {
    &&& forall|i: int, h: int|
        0 <= i < nodes.len() && 0 <= h < hosts.len() ==> (#[trigger] nodes[i]).name@ != (
        #[trigger] hosts[h]).name@
    &&& forall|h: int| 0 <= h < hosts.len() ==> #[trigger] binaries[h]
}

/// Every link that a host program asks for is one that a host program opens.
pub open spec fn serials_sound(topology: BayTopology) -> bool {
    forall|h: int, s: int|
        #![trigger topology.host_nodes@[h].serial_links@[s]]
        0 <= h < topology.host_nodes@.len() && 0 <= s
            < topology.host_nodes@[h].serial_links@.len() ==> host_opens(
            topology,
            topology.host_nodes@[h].serial_links@[s].link@,
            topology.links@.len() as int,
        )
}

proof fn lemma_nodes_distinct(topology: BayTopology)
    ensures
        topology.nodes_error(0) is None <==> nodes_distinct(topology.nodes@),
{
    let nodes = topology.nodes@;
    lemma_nodes_apart(topology, 0);
    if topology.nodes_error(0) is None {
        assert forall|i: int, j: int| 0 <= j < i < nodes.len() implies (#[trigger] nodes[j]).name@
            != (#[trigger] nodes[i]).name@ by {
            assert(!topology.node_taken(i));
            assert(!topology.same_node(j, i));
        }
    } else {
        let i = choose|i: int| 0 <= i < nodes.len() && #[trigger] topology.node_taken(i);
        let j = choose|j: int| 0 <= j < i && #[trigger] topology.same_node(j, i);
        assert(nodes[j].name@ == nodes[i].name@);
    }
}

proof fn lemma_hosts_apart(topology: BayTopology, binaries: Seq<bool>)
    ensures
        topology.hosts_error(binaries, 0) is None <==> hosts_sound(
            topology.nodes@,
            topology.host_nodes@,
            binaries,
        ),
{
    let nodes = topology.nodes@;
    let hosts = topology.host_nodes@;
    lemma_hosts_sound(topology, binaries, 0);
    if topology.hosts_error(binaries, 0) is None {
        assert forall|i: int, h: int| 0 <= i < nodes.len() && 0 <= h < hosts.len() implies (
        #[trigger] nodes[i]).name@ != (#[trigger] hosts[h]).name@ by {
            assert(!has_node(nodes, hosts[h].name@));
        }
        assert forall|h: int| 0 <= h < hosts.len() implies #[trigger] binaries[h] by {
            let host = hosts[h];
        }
    }
    if hosts_sound(nodes, hosts, binaries) {
        assert forall|h: int| 0 <= h < hosts.len() implies !has_node(
            nodes,
            (#[trigger] hosts[h]).name@,
        ) && binaries[h] by {}
    }
}

proof fn lemma_serials_sound(topology: BayTopology)
    ensures
        topology.serials_error(0) is None <==> serials_sound(topology),
{
    let hosts = topology.host_nodes@;
    lemma_serials(topology, 0);
    if topology.serials_error(0) is None {
        assert forall|h: int, s: int|
            #![trigger hosts[h].serial_links@[s]]
            0 <= h < hosts.len() && 0 <= s < hosts[h].serial_links@.len() implies host_opens(
            topology,
            hosts[h].serial_links@[s].link@,
            topology.links@.len() as int,
        ) by {
            assert(host_serials_sound(topology, hosts[h]));
        }
    }
    if serials_sound(topology) {
        assert forall|h: int| 0 <= h < hosts.len() implies host_serials_sound(
            topology,
            #[trigger] hosts[h],
        ) by {}
    }
}

/// A bay is accepted exactly where it has nodes, each with a name of its own,
/// takes at least one sample and at most one a millisecond, every host program
/// has its binary and no node's name, every link can be wired, and every link
/// that a host program asks for is one that a host program opens.
pub proof fn law_sound_bays_are_accepted(topology: BayTopology, binaries: Seq<bool>)
    requires
        forall|l: int|
            0 <= l < topology.links@.len() ==> (#[trigger] topology.links@[l]).endpoints@.len()
                <= usize::MAX,
    ensures
        topology.error(binaries) is None <==> {
            &&& topology.nodes@.len() > 0
            &&& 1 <= topology.sample_count <= topology.virtual_time_ms
            &&& nodes_distinct(topology.nodes@)
            &&& hosts_sound(topology.nodes@, topology.host_nodes@, binaries)
            &&& forall|l: int|
                0 <= l < topology.links@.len() ==> link_sound(
                    topology,
                    #[trigger] topology.links@[l],
                )
            &&& serials_sound(topology)
        },
{
    lemma_nodes_distinct(topology);
    lemma_hosts_apart(topology, binaries);
    lemma_links_sound(topology, 0);
    lemma_serials_sound(topology);
}

/// A link with a host program at one end is a terminal that the program opens,
/// by the first of its entries for that link; else a CAN link is a CAN hub and
/// any other a UART hub.
pub proof fn law_how_links_are_wired(topology: BayTopology, l: int)
    requires
        0 <= l < topology.links@.len(),
        topology.links@[l].endpoints@.len() <= usize::MAX,
    ensures
        ({
            let link = topology.links@[l];
            let hosts = topology.host_nodes@;
            match topology.wiring(l) {
                Wiring::Host { endpoint, transport } => {
                    &&& endpoint < link.endpoints@.len()
                    &&& names_host(hosts, link.endpoints@[endpoint as int].node@)
                    &&& forall|h: int, s: int|
                        #![trigger first_serial(hosts[h].serial_links@, link.name@, s)]
                        first_host(hosts, link.endpoints@[endpoint as int].node@, h)
                            && first_serial(hosts[h].serial_links@, link.name@, s) ==> transport
                            == hosts[h].serial_links@[s].transport
                },
                Wiring::CanHub => link.kind == LinkKind::Can && forall|e: int|
                    0 <= e < link.endpoints@.len() ==> !names_host(
                        hosts,
                        (#[trigger] link.endpoints@[e]).node@,
                    ),
                Wiring::UartHub => link.kind != LinkKind::Can && forall|e: int|
                    0 <= e < link.endpoints@.len() ==> !names_host(
                        hosts,
                        (#[trigger] link.endpoints@[e]).node@,
                    ),
            }
        }),
{
    let hosts = topology.host_nodes@;
    let link = topology.links@[l];
    lemma_host_end(hosts, link.endpoints@, 0);
    match host_endpoint(hosts, link.endpoints@, 0) {
        Some(e) => {
            lemma_host_index(hosts, link.endpoints@[e].node@, 0);
            let h = host_index(hosts, link.endpoints@[e].node@, 0)->0;
            lemma_host_transport(hosts[h].serial_links@, link.name@, 0);
            assert forall|g: int, s: int|
                #![trigger first_serial(hosts[g].serial_links@, link.name@, s)]
                first_host(hosts, link.endpoints@[e].node@, g) && first_serial(
                    hosts[g].serial_links@,
                    link.name@,
                    s,
                ) implies host_transport(hosts[h].serial_links@, link.name@, 0)
                == hosts[g].serial_links@[s].transport by {
                assert(g == h);
            }
        },
        None => {},
    }
}

// ---------------------------------------------------------------------------
// What a bay's script asks for
// ---------------------------------------------------------------------------

proof fn lemma_node_read(
    node: Seq<char>,
    probes: Seq<MemoryProbe>,
    sample: int,
    end: int,
    p: int,
)
    requires
        0 <= p < end <= probes.len(),
    ensures
        contains(
            node_reads(node, probes, sample, end),
            read_command(bay_prefix(node, probes[p]), sample as nat, probes[p].symbol@),
        ),
    decreases end,
{
    let mark = bay_prefix(node, probes[p]);
    let piece = read_command(mark, sample as nat, probes[p].symbol@);
    lemma_pieces_are_kept(piece);
    if p < end - 1 {
        lemma_node_read(node, probes, sample, end - 1, p);
    } else {
        let before = node_reads(node, probes, sample, end - 1);
        let name = probes[p].name@;
        let who = safe_text(node);
        let number = dec(sample as nat);
        let read = "\"\nsysbus ReadDoubleWord `sysbus GetSymbolAddress \""@;
        let symbol = probes[p].symbol@;
        let close = "\"`\n"@;
        let open = "echo \"SEDS_BAY_PROBE "@;
        let bare = "SEDS_BAY_PROBE "@;
        assert(open == "echo \""@ + bare) by {
            reveal_strlit("echo \"SEDS_BAY_PROBE ");
            reveal_strlit("echo \"");
            reveal_strlit("SEDS_BAY_PROBE ");
            assert(open =~= "echo \""@ + bare);
        }
        let rest = who + (" "@ + (name + " "@));
        let first = open + rest;
        assert(first == "echo \""@ + mark) by {
            lemma_grouped("echo \""@, bare, rest);
            lemma_grouped(bare + who + " "@, name, " "@);
            lemma_grouped(bare + who, " "@, name + " "@);
            lemma_grouped(bare, who, " "@ + (name + " "@));
        }
        lemma_grouped(before + open + who + " "@, name, " "@);
        lemma_grouped(before + open + who, " "@, name + " "@);
        lemma_grouped(before + open, who, " "@ + (name + " "@));
        lemma_grouped(before, open, rest);
        let tail = symbol + close;
        lemma_grouped(before + first + number + read, symbol, close);
        lemma_grouped(before + first + number, read, tail);
        lemma_grouped(before + first, number, read + tail);
        lemma_grouped(before, first, number + (read + tail));
        lemma_grouped("echo \""@, mark, number + (read + tail));
        assert(node_reads(node, probes, sample, end) == before + piece);
    }
}

proof fn lemma_reads(
    topology: BayTopology,
    boards: Seq<NodeBoard>,
    sample: int,
    end: int,
    i: int,
    p: int,
)
    requires
        0 <= i < end,
        0 <= p < boards[i].layout.execution.memory_probes@.len(),
    ensures
        ({
            let probe = boards[i].layout.execution.memory_probes@[p];
            contains(
                topology.reads_text(boards, sample, end),
                read_command(
                    bay_prefix(topology.nodes@[i].name@, probe),
                    sample as nat,
                    probe.symbol@,
                ),
            )
        }),
    decreases end,
{
    let node = topology.nodes@[i].name@;
    let probes = boards[i].layout.execution.memory_probes@;
    lemma_pieces_are_kept(
        read_command(bay_prefix(node, probes[p]), sample as nat, probes[p].symbol@),
    );
    if i < end - 1 {
        lemma_reads(topology, boards, sample, end - 1, i, p);
    } else {
        lemma_node_read(node, probes, sample, probes.len() as int, p);
    }
}

proof fn lemma_samples(
    topology: BayTopology,
    boards: Seq<NodeBoard>,
    end: int,
    sample: int,
    i: int,
    p: int,
)
    requires
        0 <= sample < end,
        0 <= i < topology.nodes@.len(),
        0 <= p < boards[i].layout.execution.memory_probes@.len(),
    ensures
        ({
            let probe = boards[i].layout.execution.memory_probes@[p];
            contains(
                topology.samples_text(boards, end),
                read_command(
                    bay_prefix(topology.nodes@[i].name@, probe),
                    sample as nat,
                    probe.symbol@,
                ),
            )
        }),
    decreases end,
{
    let node = topology.nodes@[i].name@;
    let probes = boards[i].layout.execution.memory_probes@;
    lemma_pieces_are_kept(
        read_command(bay_prefix(node, probes[p]), sample as nat, probes[p].symbol@),
    );
    if sample < end - 1 {
        lemma_samples(topology, boards, end - 1, sample, i, p);
    } else {
        lemma_reads(topology, boards, sample, topology.nodes@.len() as int, i, p);
    }
}

/// Every sample of every probe of every node is read, under the mark by which
/// it is looked for in the output, from the symbol that the probe names.
pub proof fn law_every_node_probe_is_read(
    topology: BayTopology,
    boards: Seq<NodeBoard>,
    scratch: Seq<char>,
    sample: int,
    i: int,
    p: int,
)
    requires
        0 <= sample < topology.sample_count,
        0 <= i < topology.nodes@.len(),
        0 <= p < boards[i].layout.execution.memory_probes@.len(),
    ensures
        ({
            let probe = boards[i].layout.execution.memory_probes@[p];
            contains(
                topology.script_text(boards, scratch),
                read_command(
                    bay_prefix(topology.nodes@[i].name@, probe),
                    sample as nat,
                    probe.symbol@,
                ),
            )
        }),
{
    let probe = boards[i].layout.execution.memory_probes@[p];
    lemma_pieces_are_kept(
        read_command(bay_prefix(topology.nodes@[i].name@, probe), sample as nat, probe.symbol@),
    );
    lemma_samples(topology, boards, topology.sample_count as int, sample, i, p);
}

/// The command that connects a peripheral of a node to a link.
pub open spec fn connect_command(peripheral: Seq<char>, link: Seq<char>) -> Seq<char> {
    "connector Connect sysbus."@ + (safe_text(peripheral) + (" "@ + (safe_text(link) + "\n"@)))
}

proof fn lemma_endpoint_connected(node: Seq<char>, link: Link, end: int, e: int)
    requires
        0 <= e < end <= link.endpoints@.len(),
        link.endpoints@[e].node@ == node,
    ensures
        contains(
            endpoints_text(node, link, end),
            connect_command(link.endpoints@[e].peripheral@, link.name@),
        ),
    decreases end,
{
    let piece = connect_command(link.endpoints@[e].peripheral@, link.name@);
    lemma_pieces_are_kept(piece);
    if e < end - 1 {
        lemma_endpoint_connected(node, link, end - 1, e);
    } else {
        let before = endpoints_text(node, link, end - 1);
        let open = "connector Connect sysbus."@;
        let port = safe_text(link.endpoints@[e].peripheral@);
        let name = safe_text(link.name@);
        lemma_grouped(before + open + port + " "@, name, "\n"@);
        lemma_grouped(before + open + port, " "@, name + "\n"@);
        lemma_grouped(before + open, port, " "@ + (name + "\n"@));
        lemma_grouped(before, open, port + (" "@ + (name + "\n"@)));
        assert(endpoints_text(node, link, end) == before + piece);
    }
}

proof fn lemma_link_connected(node: Seq<char>, links: Seq<Link>, end: int, l: int, e: int)
    requires
        0 <= l < end <= links.len(),
        0 <= e < links[l].endpoints@.len(),
        links[l].endpoints@[e].node@ == node,
    ensures
        contains(
            connections_text(node, links, end),
            connect_command(links[l].endpoints@[e].peripheral@, links[l].name@),
        ),
    decreases end,
{
    lemma_pieces_are_kept(connect_command(links[l].endpoints@[e].peripheral@, links[l].name@));
    if l < end - 1 {
        lemma_link_connected(node, links, end - 1, l, e);
    } else {
        lemma_endpoint_connected(node, links[l], links[l].endpoints@.len() as int, e);
    }
}

proof fn lemma_node_part(
    topology: BayTopology,
    boards: Seq<NodeBoard>,
    end: int,
    i: int,
    piece: Seq<char>,
)
    requires
        0 <= i < end <= topology.nodes@.len(),
        contains(board_text(topology.nodes@[i].name@, boards[i]), piece) || contains(
            connections_text(
                topology.nodes@[i].name@,
                topology.links@,
                topology.links@.len() as int,
            ),
            piece,
        ),
    ensures
        contains(topology.nodes_text(boards, end), piece),
    decreases end,
{
    lemma_pieces_are_kept(piece);
    if i < end - 1 {
        lemma_node_part(topology, boards, end - 1, i, piece);
    }
}

/// Every peripheral that a link names on a node is connected to that link.
pub proof fn law_every_endpoint_is_connected(
    topology: BayTopology,
    boards: Seq<NodeBoard>,
    scratch: Seq<char>,
    i: int,
    l: int,
    e: int,
)
    requires
        0 <= i < topology.nodes@.len(),
        0 <= l < topology.links@.len(),
        0 <= e < topology.links@[l].endpoints@.len(),
        topology.links@[l].endpoints@[e].node@ == topology.nodes@[i].name@,
    ensures
        contains(
            topology.script_text(boards, scratch),
            connect_command(
                topology.links@[l].endpoints@[e].peripheral@,
                topology.links@[l].name@,
            ),
        ),
{
    let piece = connect_command(
        topology.links@[l].endpoints@[e].peripheral@,
        topology.links@[l].name@,
    );
    lemma_pieces_are_kept(piece);
    lemma_link_connected(
        topology.nodes@[i].name@,
        topology.links@,
        topology.links@.len() as int,
        l,
        e,
    );
    lemma_node_part(topology, boards, topology.nodes@.len() as int, i, piece);
}

/// Every node starts with its own stack at its own entry point and vector
/// table, and logs its own marker where it reaches its boot symbol.
pub proof fn law_every_node_is_started(
    topology: BayTopology,
    boards: Seq<NodeBoard>,
    scratch: Seq<char>,
    i: int,
)
    requires
        0 <= i < topology.nodes@.len(),
    ensures
        ({
            let script = topology.script_text(boards, scratch);
            let (stack, entry, table) = boards[i].vector;
            &&& contains(
                script,
                start_command(stack as nat, entry as nat) + ("\ncpu VectorTableOffset 0x"@ + hex8(
                    table as nat,
                )),
            )
            &&& contains(
                script,
                hook_command(
                    boards[i].layout.execution.boot_success_symbol@,
                    "\"` "@,
                    boot_marker(topology.nodes@[i].name@),
                ),
            )
        }),
{
    let node = topology.nodes@[i].name@;
    let board = boards[i];
    let (stack, entry, table) = board.vector;
    let (s, e, v) = (hex8(stack as nat), hex8(entry as nat), hex8(table as nat));
    let end = "\nphysicalFlash EndHostLoading\ncpu SetRegister 13 0x"@;
    let pc = "\ncpu PC 0x"@;
    let offset = "\ncpu VectorTableOffset 0x"@;
    let before = "mach create \""@ + safe_text(node) + "\"\nmachine LoadPlatformDescription @"@
        + board.platform@ + "\nmachine LoadPlatformDescription @"@ + board.overlay@ + "\n"@
        + strict_text(*board.layout) + pins_text(
        board.layout.board.pins@,
        board.layout.board.pins@.len() as int,
    ) + "sysbus LoadSymbolsFrom @"@ + board.elf@ + "\nsysbus LoadBinary @"@
        + board.firmware_image@ + " 0x"@ + hex8(board.layout.memory.flash_base as nat);
    let started = start_command(stack as nat, entry as nat) + (offset + v);
    let text = before + started;
    assert(before + end + s + pc + e + offset + v == text) by {
        lemma_grouped(before + end + s, pc, e);
        lemma_grouped(before + end, s, pc + e);
        lemma_grouped(before, end, s + (pc + e));
        let start = end + (s + (pc + e));
        lemma_grouped(before + start, offset, v);
        lemma_grouped(before, start, offset + v);
    }
    let symbol = board.layout.execution.boot_success_symbol@;
    let open = "cpu AddHook `sysbus GetSymbolAddress \""@;
    let log = "'self.InfoLog(\""@;
    let marker = boot_marker(node);
    let close = "\")'\n"@;
    let hook = hook_command(symbol, "\"` "@, marker);
    assert("\ncpu AddHook `sysbus GetSymbolAddress \""@ == "\n"@ + open) by {
        reveal_strlit("\ncpu AddHook `sysbus GetSymbolAddress \"");
        reveal_strlit("\n");
        reveal_strlit("cpu AddHook `sysbus GetSymbolAddress \"");
        assert("\ncpu AddHook `sysbus GetSymbolAddress \""@ =~= "\n"@ + open);
    }
    assert("\"` 'self.InfoLog(\""@ == "\"` "@ + log) by {
        reveal_strlit("\"` 'self.InfoLog(\"");
        reveal_strlit("\"` ");
        reveal_strlit("'self.InfoLog(\"");
        assert("\"` 'self.InfoLog(\""@ =~= "\"` "@ + log);
    }
    assert(board_text(node, board) == text + "\n"@ + hook) by {
        lemma_grouped(text, "\n"@, open);
        let line = text + "\n"@;
        let called = "\"` "@ + log;
        lemma_grouped(line + open + symbol + called, marker, close);
        lemma_grouped(line + open + symbol, called, marker + close);
        lemma_grouped("\"` "@, log, marker + close);
        lemma_grouped(line + open, symbol, called + (marker + close));
        lemma_grouped(line, open, symbol + (called + (marker + close)));
    }
    lemma_pieces_are_kept(started);
    lemma_node_part(topology, boards, topology.nodes@.len() as int, i, started);
    assert(contains(topology.script_text(boards, scratch), started));
    lemma_pieces_are_kept(hook);
    lemma_node_part(topology, boards, topology.nodes@.len() as int, i, hook);
}

proof fn lemma_link_created(topology: BayTopology, scratch: Seq<char>, end: int, l: int)
    requires
        0 <= l < end <= topology.links@.len(),
    ensures
        contains(topology.links_text(scratch, end), topology.link_text(scratch, l)),
    decreases end,
{
    lemma_pieces_are_kept(topology.link_text(scratch, l));
    if l < end - 1 {
        lemma_link_created(topology, scratch, end - 1, l);
    }
}

/// Every link is created: a terminal where a host program is at one end, else a
/// hub of its kind, of which a CAN hub does not loop frames back.
pub proof fn law_every_link_is_created(
    topology: BayTopology,
    boards: Seq<NodeBoard>,
    scratch: Seq<char>,
    l: int,
)
    requires
        0 <= l < topology.links@.len(),
        topology.links@[l].endpoints@.len() <= usize::MAX,
    ensures
        ({
            let script = topology.script_text(boards, scratch);
            let link = topology.links@[l];
            let name = safe_text(link.name@);
            let hosted = exists|e: int|
                0 <= e < link.endpoints@.len() && names_host(
                    topology.host_nodes@,
                    (#[trigger] link.endpoints@[e]).node@,
                );
            if hosted {
                contains(
                    script,
                    "emulation CreateUartPtyTerminal \""@ + name + "\" \""@ + (scratch + "/"@ + name
                        + ".pty"@) + "\"\n"@,
                )
            } else if link.kind == LinkKind::Can {
                contains(script, "emulation CreateCANHub \""@ + name + "\" false\n"@)
            } else {
                contains(script, "emulation CreateUARTHub \""@ + name + "\"\n"@)
            }
        }),
{
    law_how_links_are_wired(topology, l);
    lemma_link_created(topology, scratch, topology.links@.len() as int, l);
    lemma_pieces_are_kept(topology.link_text(scratch, l));
    reveal_strlit("");
    assert(""@ + scratch =~= scratch);
    let link = topology.links@[l];
    if topology.wiring(l) is Host {
        let e = topology.wiring(l)->endpoint as int;
        assert(names_host(topology.host_nodes@, link.endpoints@[e].node@));
    }
}

/// The last link of this name that a host program opens is the one that the
/// program is given: its socket where it is translated, its terminal otherwise.
pub proof fn law_what_a_host_program_opens(
    topology: BayTopology,
    scratch: Seq<char>,
    name: Seq<char>,
    l: int,
)
    requires
        0 <= l < topology.links@.len(),
        topology.links@[l].name@ == name,
        topology.wiring(l) is Host,
        forall|k: int|
            l < k < topology.links@.len() ==> (#[trigger] topology.links@[k]).name@ != name,
    ensures
        topology.host_path(scratch, name) == Some(
            scratch + "/"@ + safe_text(name) + if topology.wiring(l)->transport
                == HostLinkTransport::PicoFiI2cToUart {
                ".i2c.sock"@
            } else {
                ".pty"@
            },
        ),
{
    reveal_strlit("");
    assert(""@ + scratch =~= scratch);
    lemma_last_host_link(topology, name, l, topology.links@.len() as int);
}

proof fn lemma_last_host_link(topology: BayTopology, name: Seq<char>, l: int, end: int)
    requires
        0 <= l < end <= topology.links@.len(),
        topology.links@[l].name@ == name,
        topology.wiring(l) is Host,
        forall|k: int| l < k < end ==> (#[trigger] topology.links@[k]).name@ != name,
    ensures
        topology.host_link(name, end) == Some(l),
    decreases end,
{
    if l < end - 1 {
        assert(topology.links@[end - 1].name@ != name);
        lemma_last_host_link(topology, name, l, end - 1);
    }
}

/// The terminals that host programs open are those of the links that they are
/// on, each once and in order.
pub proof fn law_which_links_host_programs_open(topology: BayTopology, end: int)
    requires
        0 <= end <= topology.links@.len(),
    ensures
        forall|l: int|
            topology.host_links(end).contains(l) <==> 0 <= l < end && #[trigger] topology.wiring(
                l,
            ) is Host,
        forall|i: int, j: int|
            0 <= i < j < topology.host_links(end).len() ==> #[trigger] topology.host_links(end)[i]
                < #[trigger] topology.host_links(end)[j],
    decreases end,
{
    if end > 0 {
        law_which_links_host_programs_open(topology, end - 1);
        let earlier = topology.host_links(end - 1);
        let now = topology.host_links(end);
        assert forall|l: int| now.contains(l) <==> 0 <= l < end && #[trigger] topology.wiring(
            l,
        ) is Host by {
            if now.contains(l) {
                let at = choose|at: int| 0 <= at < now.len() && now[at] == l;
                if at < earlier.len() {
                    assert(earlier[at] == l);
                    assert(earlier.contains(l));
                }
            }
            if 0 <= l < end && topology.wiring(l) is Host {
                if l < end - 1 {
                    assert(earlier.contains(l));
                    let at = choose|at: int| 0 <= at < earlier.len() && earlier[at] == l;
                    assert(now[at] == l);
                } else {
                    assert(now[now.len() - 1] == l);
                }
            }
        }
        assert forall|i: int, j: int| 0 <= i < j < now.len() implies #[trigger] now[i]
            < #[trigger] now[j] by {
            assert(now[i] == earlier[i]);
            if j < earlier.len() {
                assert(now[j] == earlier[j]);
            } else {
                assert(earlier.contains(earlier[i]));
                let at = earlier[i];
                assert(topology.wiring(at) is Host && 0 <= at < end - 1);
            }
        }
    }
}

/// One sample after the other is taken: the bay runs for the time before it,
/// every node is read, and that it is done is told.
pub proof fn law_bay_samples_are_taken_in_turn(
    topology: BayTopology,
    boards: Seq<NodeBoard>,
    sample: int,
)
    requires
        0 <= sample,
    ensures
        topology.samples_text(boards, 0).len() == 0,
        topology.samples_text(boards, sample + 1) == topology.samples_text(boards, sample)
            + "emulation RunFor \""@ + millis(
            sample_ms(
                topology.virtual_time_ms as int,
                topology.sample_count as int,
                sample,
            ) as nat,
        ) + "s\"\n"@ + topology.reads_text(boards, sample, topology.nodes@.len() as int)
            + "echo \"SEDS_BAY_SAMPLE_DONE "@ + dec((sample + 1) as nat) + " "@ + dec(
            topology.sample_count as nat,
        ) + "\"\n"@,
{
    reveal_strlit("");
}

proof fn lemma_stopped(topology: BayTopology, end: int, i: int)
    requires
        0 <= i < end <= topology.nodes@.len(),
    ensures
        contains(
            topology.registers_text(end),
            "\"\necho \"SEDS_NODE "@ + (safe_text(topology.nodes@[i].name@)
                + " PC\"\ncpu PC\n"@),
        ),
    decreases end,
{
    let name = safe_text(topology.nodes@[i].name@);
    let open = "\"\necho \"SEDS_NODE "@;
    let close = " PC\"\ncpu PC\n"@;
    lemma_pieces_are_kept(open + (name + close));
    if i < end - 1 {
        lemma_stopped(topology, end - 1, i);
    } else {
        let before = topology.registers_text(end - 1) + "mach set \""@ + name;
        lemma_grouped(before + open, name, close);
        lemma_grouped(before, open, name + close);
    }
}

/// Where every node stopped is read, under its own name.
pub proof fn law_every_node_says_where_it_stopped(
    topology: BayTopology,
    boards: Seq<NodeBoard>,
    scratch: Seq<char>,
    i: int,
)
    requires
        0 <= i < topology.nodes@.len(),
    ensures
        contains(
            topology.script_text(boards, scratch),
            "\"\necho \"SEDS_NODE "@ + (safe_text(topology.nodes@[i].name@)
                + " PC\"\ncpu PC\n"@),
        ),
{
    lemma_stopped(topology, topology.nodes@.len() as int, i);
    lemma_pieces_are_kept(
        "\"\necho \"SEDS_NODE "@ + (safe_text(topology.nodes@[i].name@) + " PC\"\ncpu PC\n"@),
    );
}

proof fn lemma_unknown_end(topology: BayTopology, l: int, from: int)
    requires
        0 <= from,
    ensures
        topology.unknown_endpoint(l, from) matches Some(e) ==> from <= e
            < topology.links@[l].endpoints@.len() && !has_node(
            topology.nodes@,
            topology.links@[l].endpoints@[e].node@,
        ) && !names_host(topology.host_nodes@, topology.links@[l].endpoints@[e].node@),
    decreases topology.links@[l].endpoints@.len() - from,
{
    let endpoints = topology.links@[l].endpoints@;
    if from < endpoints.len() {
        lemma_host_index(topology.host_nodes@, endpoints[from].node@, 0);
        lemma_unknown_end(topology, l, from + 1);
    }
}

/// What a link is refused for is wrong with it.
pub proof fn law_links_are_refused_for_what_is_wrong(topology: BayTopology, l: int)
    requires
        0 <= l < topology.links@.len() <= usize::MAX,
        topology.links@[l].endpoints@.len() <= usize::MAX,
    ensures
        ({
            let link = topology.links@[l];
            let ends = link.endpoints@;
            let hosts = topology.host_nodes@;
            match topology.link_error(l) {
                None => true,
                Some(TopologyError::FewEndpoints(named)) => named == l && ends.len() < 2,
                Some(TopologyError::UnknownNode { link: named, endpoint }) => {
                    &&& named == l && endpoint < ends.len()
                    &&& !has_node(topology.nodes@, ends[endpoint as int].node@)
                    &&& !names_host(hosts, ends[endpoint as int].node@)
                },
                Some(TopologyError::ManyHosts(named)) => named == l && exists|j: int, k: int|
                    0 <= j < k < ends.len() && names_host(hosts, (#[trigger] ends[j]).node@)
                        && names_host(hosts, (#[trigger] ends[k]).node@),
                Some(TopologyError::HostOnCan { link: named, endpoint }) => {
                    &&& named == l && endpoint < ends.len()
                    &&& link.kind == LinkKind::Can
                    &&& names_host(hosts, ends[endpoint as int].node@)
                },
                Some(TopologyError::NotPicoFi(named)) => named == l && link.kind
                    != LinkKind::PicoFi && topology.wiring(l) is Host
                    && topology.wiring(l)->transport == HostLinkTransport::PicoFiI2cToUart,
                Some(_) => false,
            }
        }),
{
    let link = topology.links@[l];
    let ends = link.endpoints@;
    let hosts = topology.host_nodes@;
    lemma_unknown_end(topology, l, 0);
    lemma_host_end(hosts, ends, 0);
    if let Some(e) = host_endpoint(hosts, ends, 0) {
        lemma_host_end(hosts, ends, e + 1);
        if let Some(k) = host_endpoint(hosts, ends, e + 1) {
            assert(names_host(hosts, ends[e].node@) && names_host(hosts, ends[k].node@));
        }
    }
}

proof fn lemma_bay_faults(topology: BayTopology, binaries: Seq<bool>, from: int)
    requires
        0 <= from,
        topology.nodes@.len() <= usize::MAX,
        topology.host_nodes@.len() <= usize::MAX,
    ensures
        match topology.nodes_error(from) {
            None => true,
            Some(TopologyError::NodeTaken(i)) => i < topology.nodes@.len() && exists|j: int|
                0 <= j < i && (#[trigger] topology.nodes@[j]).name@
                    == topology.nodes@[i as int].name@,
            Some(_) => false,
        },
        match topology.hosts_error(binaries, from) {
            None => true,
            Some(TopologyError::HostIsNode(i)) => i < topology.host_nodes@.len() && has_node(
                topology.nodes@,
                topology.host_nodes@[i as int].name@,
            ),
            Some(TopologyError::HostBinary(i)) => i < topology.host_nodes@.len()
                && !binaries[i as int],
            Some(_) => false,
        },
    decreases topology.nodes@.len() + topology.host_nodes@.len() - from,
{
    if from < topology.nodes@.len() || from < topology.host_nodes@.len() {
        lemma_bay_faults(topology, binaries, from + 1);
        if from < topology.nodes@.len() && topology.node_taken(from) {
            let j = choose|j: int| 0 <= j < from && #[trigger] topology.same_node(j, from);
            assert(topology.nodes@[j].name@ == topology.nodes@[from].name@);
        }
    }
}

proof fn lemma_serial_fault(topology: BayTopology, host: int, from: int)
    requires
        0 <= from,
        0 <= host <= usize::MAX,
        topology.host_nodes@[host].serial_links@.len() <= usize::MAX,
    ensures
        topology.serial_error(host, from) matches Some(error) ==> {
            &&& error matches TopologyError::UnknownSerial { host: named, serial }
            &&& named == host
            &&& serial < topology.host_nodes@[host].serial_links@.len()
            &&& !host_opens(
                topology,
                topology.host_nodes@[host].serial_links@[serial as int].link@,
                topology.links@.len() as int,
            )
        },
    decreases topology.host_nodes@[host].serial_links@.len() - from,
{
    let serials = topology.host_nodes@[host].serial_links@;
    if from < serials.len() {
        lemma_host_link(topology, serials[from].link@, topology.links@.len() as int);
        lemma_serial_fault(topology, host, from + 1);
    }
}

proof fn lemma_serials_fault(topology: BayTopology, from: int)
    requires
        0 <= from,
        topology.host_nodes@.len() <= usize::MAX,
        forall|h: int|
            0 <= h < topology.host_nodes@.len() ==> (
            #[trigger] topology.host_nodes@[h]).serial_links@.len() <= usize::MAX,
    ensures
        topology.serials_error(from) matches Some(error) ==> {
            &&& error matches TopologyError::UnknownSerial { host, serial }
            &&& host < topology.host_nodes@.len()
            &&& serial < topology.host_nodes@[host as int].serial_links@.len()
            &&& !host_opens(
                topology,
                topology.host_nodes@[host as int].serial_links@[serial as int].link@,
                topology.links@.len() as int,
            )
        },
    decreases topology.host_nodes@.len() - from,
{
    if from < topology.host_nodes@.len() {
        lemma_serial_fault(topology, from, 0);
        lemma_serials_fault(topology, from + 1);
    }
}

proof fn lemma_links_fault(topology: BayTopology, from: int)
    requires
        0 <= from,
    ensures
        topology.links_error(from) matches Some(error) ==> exists|l: int|
            0 <= l < topology.links@.len() && #[trigger] topology.link_error(l) == Some(error),
    decreases topology.links@.len() - from,
{
    if from < topology.links@.len() {
        lemma_links_fault(topology, from + 1);
        if topology.link_error(from) is Some {
            assert(topology.link_error(from) == topology.links_error(from));
        }
    }
}

/// What a bay is refused for is wrong with it: with its samples, one of its
/// nodes or host programs, one of its links, or a link that a host program asks
/// for.
pub proof fn law_bays_are_refused_for_what_is_wrong(topology: BayTopology, binaries: Seq<bool>)
    requires
        topology.nodes@.len() <= usize::MAX,
        topology.host_nodes@.len() <= usize::MAX,
        forall|h: int|
            0 <= h < topology.host_nodes@.len() ==> (
            #[trigger] topology.host_nodes@[h]).serial_links@.len() <= usize::MAX,
    ensures
        match topology.error(binaries) {
            None => true,
            Some(TopologyError::NoNodes) => topology.nodes@.len() == 0,
            Some(TopologyError::NoSamples) => topology.sample_count == 0,
            Some(TopologyError::TooManySamples) => topology.sample_count
                > topology.virtual_time_ms,
            Some(TopologyError::NodeTaken(i)) => i < topology.nodes@.len() && exists|j: int|
                0 <= j < i && (#[trigger] topology.nodes@[j]).name@
                    == topology.nodes@[i as int].name@,
            Some(TopologyError::HostIsNode(i)) => i < topology.host_nodes@.len() && has_node(
                topology.nodes@,
                topology.host_nodes@[i as int].name@,
            ),
            Some(TopologyError::HostBinary(i)) => i < topology.host_nodes@.len()
                && !binaries[i as int],
            Some(TopologyError::UnknownSerial { host, serial }) => {
                &&& host < topology.host_nodes@.len()
                &&& serial < topology.host_nodes@[host as int].serial_links@.len()
                &&& !host_opens(
                    topology,
                    topology.host_nodes@[host as int].serial_links@[serial as int].link@,
                    topology.links@.len() as int,
                )
            },
            Some(error) => exists|l: int|
                0 <= l < topology.links@.len() && #[trigger] topology.link_error(l) == Some(error),
        },
{
    lemma_bay_faults(topology, binaries, 0);
    lemma_links_fault(topology, 0);
    lemma_serials_fault(topology, 0);
}

} // verus!
