use vstd::prelude::*;

verus! {

/// Microseconds since the Unix epoch.
pub type Timestamp = i64;

/// The earliest timestamp a log session can have seen.
pub const MIN_TIMESTAMP: i64 = i64::MIN;

/// Lifecycle state of a deployment.
#[derive(Clone, Copy, Debug, PartialEq, Eq, Structural)]
pub enum State {
    Queued,
    Building,
    Built,
    Loading,
    Running,
    Completed,
    Stopped,
    Crashed,
    Unknown,
}

/// A network endpoint: an IPv4 address as its 32-bit value, and a port.
#[derive(Clone, Copy, Debug, PartialEq, Eq, Structural)]
pub struct Address {
    pub ip: u32,
    pub port: u16,
}

/// One build-and-run attempt of a service. Ids are 128-bit uuid values.
#[derive(Clone, Copy, Debug, PartialEq, Eq, Structural)]
pub struct Deployment {
    pub id: u128,
    pub service_id: u128,
    pub state: State,
    pub last_update: Timestamp,
    pub address: Option<Address>,
}

/// Options given with an upload.
#[derive(Clone, Copy, Debug, PartialEq, Eq, Structural)]
pub struct DeployOptions {
    pub skip_tests: bool,
}

/// What went wrong with a request.
#[derive(Clone, Copy, Debug, PartialEq, Eq, Structural)]
pub enum Error {
    /// The service or deployment looked up does not exist.
    NotFound,
    /// The registry or the queue could not do what was asked.
    UpstreamFailure,
    /// The uploaded stream was malformed or cut short.
    InputError,
}

pub ghost struct ServiceModel {
    pub id: u128,
    pub name: Seq<char>,
}

#[derive(Debug)]
pub struct Service {
    pub id: u128,
    pub name: String,
}

impl View for Service {
    type V = ServiceModel;

    open spec fn view(&self) -> ServiceModel {
        ServiceModel { id: self.id, name: self.name@ }
    }
}

impl Service {
    pub fn duplicate(&self) -> (r: Service)
        ensures
            r@ == self@,
    {
        Service { id: self.id, name: self.name.clone() }
    }
}

pub ghost struct SecretModel {
    pub service_id: u128,
    pub key: Seq<char>,
    pub value: Seq<char>,
}

#[derive(Debug)]
pub struct Secret {
    pub service_id: u128,
    pub key: String,
    pub value: String,
}

impl View for Secret {
    type V = SecretModel;

    open spec fn view(&self) -> SecretModel {
        SecretModel { service_id: self.service_id, key: self.key@, value: self.value@ }
    }
}

pub ghost struct ResourceModel {
    pub service_id: u128,
    pub kind: Seq<char>,
}

/// A resource (a database, a bucket) provisioned for a service.
#[derive(Debug)]
pub struct Resource {
    pub service_id: u128,
    pub kind: String,
}

impl View for Resource {
    type V = ResourceModel;

    open spec fn view(&self) -> ResourceModel {
        ResourceModel { service_id: self.service_id, kind: self.kind@ }
    }
}

impl Resource {
    pub fn duplicate(&self) -> (r: Resource)
        ensures
            r@ == self@,
    {
        Resource { service_id: self.service_id, kind: self.kind.clone() }
    }
}

pub ghost struct LogLine {
    pub deployment_id: u128,
    pub timestamp: int,
    pub line: Option<Seq<char>>,
}

/// One log entry of a deployment. `line` is `None` where the entry has
/// nothing to show to a reader.
#[derive(Debug)]
pub struct LogEntry {
    pub deployment_id: u128,
    pub timestamp: Timestamp,
    pub line: Option<String>,
}

impl View for LogEntry {
    type V = LogLine;

    open spec fn view(&self) -> LogLine {
        LogLine {
            deployment_id: self.deployment_id,
            timestamp: self.timestamp as int,
            line: match self.line {
                Some(s) => Some(s@),
                None => None,
            },
        }
    }
}

impl LogEntry {
    pub fn duplicate(&self) -> (r: LogEntry)
        ensures
            r@ == self@,
    {
        let line = match &self.line {
            Some(s) => Some(s.clone()),
            None => None,
        };
        LogEntry { deployment_id: self.deployment_id, timestamp: self.timestamp, line }
    }

    pub fn is_renderable(&self) -> (r: bool)
        ensures
            r == self@.line.is_some(),
    {
        self.line.is_some()
    }
}

pub open spec fn views_of_logs(s: Seq<LogEntry>) -> Seq<LogLine> {
    s.map_values(|e: LogEntry| e@)
}

} // verus!
