use vstd::prelude::*;

use crate::logstream::{all_of, non_decreasing};
use crate::model::{
    views_of_logs, Deployment, Error, LogEntry, LogLine, Resource, ResourceModel, Secret,
    SecretModel, Service, ServiceModel, State, Timestamp,
};

verus! {

pub open spec fn has_deployment(s: Seq<Deployment>, id: u128) -> bool {
    exists|i: int| 0 <= i < s.len() && s[i].id == id
}

pub open spec fn deployment_ids_unique(s: Seq<Deployment>) -> bool {
    forall|i: int, j: int| 0 <= i < s.len() && 0 <= j < s.len() && s[i].id == s[j].id ==> i == j
}

pub open spec fn has_service_id(s: Seq<ServiceModel>, id: u128) -> bool {
    exists|i: int| 0 <= i < s.len() && s[i].id == id
}

pub open spec fn has_service_named(s: Seq<ServiceModel>, name: Seq<char>) -> bool {
    exists|i: int| 0 <= i < s.len() && s[i].name == name
}

pub open spec fn services_unique(s: Seq<ServiceModel>) -> bool {
    forall|i: int, j: int|
        0 <= i < s.len() && 0 <= j < s.len() && (s[i].id == s[j].id || s[i].name == s[j].name)
            ==> i == j
}

/// The deployments that belong to service `sid`, in their order.
pub open spec fn deployments_of(s: Seq<Deployment>, sid: u128) -> Seq<Deployment> {
    s.filter(|d: Deployment| d.service_id == sid)
}

/// The deployments that belong to any service but `sid`, in their order.
pub open spec fn deployments_not_of(s: Seq<Deployment>, sid: u128) -> Seq<Deployment> {
    s.filter(|d: Deployment| d.service_id != sid)
}

pub open spec fn services_but(s: Seq<ServiceModel>, sid: u128) -> Seq<ServiceModel> {
    s.filter(|v: ServiceModel| v.id != sid)
}

pub open spec fn secrets_of(s: Seq<SecretModel>, sid: u128) -> Seq<SecretModel> {
    s.filter(|v: SecretModel| v.service_id == sid)
}

pub open spec fn resources_of(s: Seq<ResourceModel>, sid: u128) -> Seq<ResourceModel> {
    s.filter(|v: ResourceModel| v.service_id == sid)
}

pub open spec fn logs_of(s: Seq<LogLine>, id: u128) -> Seq<LogLine> {
    s.filter(|v: LogLine| v.deployment_id == id)
}

/// For each deployment, its entries come in non-decreasing timestamp order.
pub open spec fn logs_ordered(s: Seq<LogLine>) -> bool {
    forall|i: int, j: int|
        0 <= i < j < s.len() && s[i].deployment_id == s[j].deployment_id ==> s[i].timestamp
            <= s[j].timestamp
}

/// The entries of one deployment, read from an ordered log, are all of that
/// deployment and in non-decreasing timestamp order.
pub proof fn lemma_logs_of_ordered(s: Seq<LogLine>, id: u128)
    requires
        logs_ordered(s),
    ensures
        all_of(id, logs_of(s, id)),
        non_decreasing(logs_of(s, id)),
    decreases s.len(),
{
    if s.len() == 0 {
        reveal(Seq::filter);
    } else {
        let p = s.drop_last();
        let x = s.last();
        assert(s =~= p.push(x));
        assert(logs_ordered(p));
        lemma_logs_of_ordered(p, id);
        p.lemma_filter_push(x, |v: LogLine| v.deployment_id == id);
        let f = logs_of(p, id);
        assert forall|k: int| 0 <= k < f.len() implies #[trigger] f[k].deployment_id == id && (
        x.deployment_id == id ==> f[k].timestamp <= x.timestamp) by {
            assert(f.contains(f[k]));
            p.lemma_filter_contains_rev(|v: LogLine| v.deployment_id == id, f[k]);
            let m = choose|m: int| 0 <= m < p.len() && p[m] == f[k];
            assert(s[m] == p[m]);
            assert(s[p.len() as int] == x);
        }
        if x.deployment_id == id {
            assert(logs_of(s, id) == f.push(x));
            assert(all_of(id, logs_of(s, id)));
            assert(non_decreasing(logs_of(s, id)));
        }
    }
}

/// The index of the first deployment of service `sid` that is running.
pub open spec fn first_running(s: Seq<Deployment>, sid: u128, i: int) -> bool {
    0 <= i < s.len() && s[i].service_id == sid && s[i].state == State::Running && forall|k: int|
        0 <= k < i ==> !(s[k].service_id == sid && s[k].state == State::Running)
}

pub open spec fn views_of_services(s: Seq<Service>) -> Seq<ServiceModel> {
    s.map_values(|v: Service| v@)
}

pub open spec fn views_of_secrets(s: Seq<Secret>) -> Seq<SecretModel> {
    s.map_values(|v: Secret| v@)
}

pub open spec fn views_of_resources(s: Seq<Resource>) -> Seq<ResourceModel> {
    s.map_values(|v: Resource| v@)
}

/// The durable store of services, deployments, secrets, resources and logs.
pub struct Registry {
    services: Vec<Service>,
    deployments: Vec<Deployment>,
    secrets: Vec<Secret>,
    resources: Vec<Resource>,
    logs: Vec<LogEntry>,
}

impl Registry {
    pub closed spec fn services(&self) -> Seq<ServiceModel> {
        views_of_services(self.services@)
    }

    pub closed spec fn deployments(&self) -> Seq<Deployment> {
        self.deployments@
    }

    pub closed spec fn secrets(&self) -> Seq<SecretModel> {
        views_of_secrets(self.secrets@)
    }

    pub closed spec fn resources(&self) -> Seq<ResourceModel> {
        views_of_resources(self.resources@)
    }

    pub closed spec fn logs(&self) -> Seq<LogLine> {
        views_of_logs(self.logs@)
    }

    /// Deployment ids are unique; service ids and service names are unique;
    /// each deployment's log entries are in non-decreasing timestamp order.
    pub open spec fn wf(&self) -> bool {
        deployment_ids_unique(self.deployments()) && services_unique(self.services())
            && logs_ordered(self.logs())
    }

    pub fn new() -> (r: Registry)
        ensures
            r.wf(),
            r.services().len() == 0,
            r.deployments().len() == 0,
            r.secrets().len() == 0,
            r.resources().len() == 0,
            r.logs().len() == 0,
    {
        let r = Registry {
            services: Vec::new(),
            deployments: Vec::new(),
            secrets: Vec::new(),
            resources: Vec::new(),
            logs: Vec::new(),
        };
        assert(r.services() =~= Seq::<ServiceModel>::empty());
        assert(r.secrets() =~= Seq::<SecretModel>::empty());
        assert(r.resources() =~= Seq::<ResourceModel>::empty());
        assert(r.logs() =~= Seq::<LogLine>::empty());
        r
    }

    /// Looks a deployment up by id.
    pub fn get_deployment(&self, id: u128) -> (r: Option<Deployment>)
        requires
            self.wf(),
        ensures
            r.is_none() <==> !has_deployment(self.deployments(), id),
            r matches Some(d) ==> d.id == id && self.deployments().contains(d),
    {
        let mut i: usize = 0;
        while i < self.deployments.len()
            invariant
                0 <= i <= self.deployments@.len(),
                forall|k: int| 0 <= k < i ==> self.deployments@[k].id != id,
            decreases self.deployments@.len() - i,
        {
            if self.deployments[i].id == id {
                return Some(self.deployments[i]);
            }
            i = i + 1;
        }
        None
    }

    /// Adds a deployment; fails where its id is taken.
    pub fn insert_deployment(&mut self, d: Deployment) -> (r: Result<(), Error>)
        requires
            old(self).wf(),
        ensures
            final(self).wf(),
            r is Err <==> has_deployment(old(self).deployments(), d.id),
            r is Err ==> r == Err::<(), Error>(Error::UpstreamFailure) && *final(self) == *old(self),
            r is Ok ==> final(self).deployments() == old(self).deployments().push(d),
            final(self).services() == old(self).services(),
            final(self).secrets() == old(self).secrets(),
            final(self).resources() == old(self).resources(),
            final(self).logs() == old(self).logs(),
    {
        if self.get_deployment(d.id).is_some() {
            return Err(Error::UpstreamFailure);
        }
        self.deployments.push(d);
        assert(deployment_ids_unique(self.deployments())) by {
            assert(forall|k: int| 0 <= k < old(self).deployments().len() ==> self.deployments()[k]
                == old(self).deployments()[k]);
        }
        Ok(())
    }

    /// Records a state change made by the build engine.
    pub fn set_state(&mut self, id: u128, state: State, now: Timestamp) -> (r: Result<(), Error>)
        requires
            old(self).wf(),
        ensures
            final(self).wf(),
            r is Err <==> !has_deployment(old(self).deployments(), id),
            r is Err ==> r == Err::<(), Error>(Error::NotFound) && *final(self) == *old(self),
            r is Ok ==> exists|i: int|
                0 <= i < old(self).deployments().len() && old(self).deployments()[i].id == id
                    && final(self).deployments() == old(self).deployments().update(
                    i,
                    Deployment { state, last_update: now, ..old(self).deployments()[i] },
                ),
            final(self).services() == old(self).services(),
            final(self).secrets() == old(self).secrets(),
            final(self).resources() == old(self).resources(),
            final(self).logs() == old(self).logs(),
    {
        let mut i: usize = 0;
        while i < self.deployments.len()
            invariant
                *self == *old(self),
                old(self).wf(),
                0 <= i <= self.deployments@.len(),
                forall|k: int| 0 <= k < i ==> self.deployments@[k].id != id,
            decreases self.deployments@.len() - i,
        {
            if self.deployments[i].id == id {
                let d = self.deployments[i];
                let ghost before = self.deployments@;
                self.deployments.set(i, Deployment { state, last_update: now, ..d });
                assert(deployment_ids_unique(self.deployments())) by {
                    assert(forall|k: int| 0 <= k < before.len() ==> self.deployments()[k].id
                        == before[k].id);
                }
                return Ok(());
            }
            i = i + 1;
        }
        Err(Error::NotFound)
    }
    /// Looks a service up by name.
    pub fn get_service_by_name(&self, name: &String) -> (r: Option<Service>)
        requires
            self.wf(),
        ensures
            r.is_none() <==> !has_service_named(self.services(), name@),
            r matches Some(v) ==> v@.name == name@ && self.services().contains(v@),
    {
        let mut i: usize = 0;
        while i < self.services.len()
            invariant
                0 <= i <= self.services@.len(),
                forall|k: int| 0 <= k < i ==> self.services()[k].name != name@,
            decreases self.services@.len() - i,
        {
            if self.services[i].name == *name {
                let v = self.services[i].duplicate();
                assert(self.services()[i as int] == v@);
                return Some(v);
            }
            i = i + 1;
        }
        None
    }

    /// The service named `name`, created with id `fresh_id` where none
    /// exists; fails where it has to be created and `fresh_id` is taken.
    pub fn get_or_create_service(&mut self, name: &String, fresh_id: u128) -> (r: Result<
        Service,
        Error,
    >)
        requires
            old(self).wf(),
        ensures
            final(self).wf(),
            r is Err <==> !has_service_named(old(self).services(), name@) && has_service_id(
                old(self).services(),
                fresh_id,
            ),
            r is Err ==> r == Err::<Service, Error>(Error::UpstreamFailure) && *final(self) == *old(
                self,
            ),
            has_service_named(old(self).services(), name@) ==> final(self).services() == old(
                self,
            ).services(),
            !has_service_named(old(self).services(), name@) && r is Ok ==> final(self).services()
                == old(self).services().push(ServiceModel { id: fresh_id, name: name@ }),
            r is Err ==> final(self).services() == old(self).services(),
            r matches Ok(v) ==> v@.name == name@ && final(self).services().contains(v@),
            final(self).deployments() == old(self).deployments(),
            final(self).secrets() == old(self).secrets(),
            final(self).resources() == old(self).resources(),
            final(self).logs() == old(self).logs(),
    {
        match self.get_service_by_name(name) {
            Some(v) => Ok(v),
            None => {
                let mut i: usize = 0;
                while i < self.services.len()
                    invariant
                        *self == *old(self),
                        old(self).wf(),
                        !has_service_named(old(self).services(), name@),
                        0 <= i <= self.services@.len(),
                        forall|k: int| 0 <= k < i ==> self.services()[k].id != fresh_id,
                    decreases self.services@.len() - i,
                {
                    if self.services[i].id == fresh_id {
                        assert(self.services()[i as int].id == fresh_id);
                        return Err(Error::UpstreamFailure);
                    }
                    i = i + 1;
                }
                let v = Service { id: fresh_id, name: name.clone() };
                let ghost before = self.services();
                self.services.push(v.duplicate());
                assert(self.services() =~= before.push(v@));
                assert(self.services()[before.len() as int] == v@);
                assert(services_unique(self.services()));
                Ok(v)
            },
        }
    }

    /// Every service, in the order they were created.
    pub fn get_all_services(&self) -> (r: Vec<Service>)
        ensures
            views_of_services(r@) == self.services(),
    {
        let mut out: Vec<Service> = Vec::new();
        let mut i: usize = 0;
        while i < self.services.len()
            invariant
                0 <= i <= self.services@.len(),
                views_of_services(out@) =~= self.services().take(i as int),
            decreases self.services@.len() - i,
        {
            let ghost prev = views_of_services(out@);
            out.push(self.services[i].duplicate());
            assert(views_of_services(out@) =~= prev.push(self.services()[i as int]));
            assert(self.services().take(i + 1) =~= self.services().take(i as int).push(
                self.services()[i as int],
            ));
            i = i + 1;
        }
        assert(self.services().take(i as int) =~= self.services());
        out
    }
    /// The deployments of service `sid`, and all others, each in their order.
    fn partition_deployments(&self, sid: u128) -> (r: (Vec<Deployment>, Vec<Deployment>))
        requires
            self.wf(),
        ensures
            r.0@ == deployments_of(self.deployments(), sid),
            r.1@ == deployments_not_of(self.deployments(), sid),
            deployment_ids_unique(r.1@),
    {
        let ghost s = self.deployments();
        let mut mine: Vec<Deployment> = Vec::new();
        let mut others: Vec<Deployment> = Vec::new();
        let mut i: usize = 0;
        proof {
            reveal(Seq::filter);
            assert(s.take(0) =~= Seq::<Deployment>::empty());
        }
        while i < self.deployments.len()
            invariant
                s == self.deployments(),
                deployment_ids_unique(s),
                0 <= i <= s.len(),
                mine@ == deployments_of(s.take(i as int), sid),
                others@ == deployments_not_of(s.take(i as int), sid),
                deployment_ids_unique(others@),
                forall|m: int| 0 <= m < others@.len() ==> has_deployment(s.take(i as int), #[trigger] others@[m].id),
            decreases s.len() - i,
        {
            let d = self.deployments[i];
            proof {
                assert(s.take(i + 1) =~= s.take(i as int).push(d));
                s.take(i as int).lemma_filter_push(d, |d: Deployment| d.service_id == sid);
                s.take(i as int).lemma_filter_push(d, |d: Deployment| d.service_id != sid);
                assert forall|m: int| 0 <= m < others@.len() implies has_deployment(s.take(i + 1), #[trigger] others@[m].id) by {
                    let k = choose|k: int| 0 <= k < i && s.take(i as int)[k].id == others@[m].id;
                    assert(s.take(i + 1)[k] == s.take(i as int)[k]);
                }
                assert forall|m: int| 0 <= m < others@.len() implies #[trigger] others@[m].id != d.id by {
                    let k = choose|k: int| 0 <= k < i && s.take(i as int)[k].id == others@[m].id;
                    assert(s[k].id == others@[m].id);
                }
            }
            if d.service_id == sid {
                mine.push(d);
            } else {
                let ghost prev = others@;
                others.push(d);
                proof {
                    assert(s.take(i + 1)[i as int] == d);
                    assert forall|m: int| 0 <= m < others@.len() implies has_deployment(s.take(i + 1), #[trigger] others@[m].id) by {
                        if m < prev.len() {
                            assert(others@[m] == prev[m]);
                        }
                    }
                }
            }
            i = i + 1;
        }
        assert(s.take(i as int) =~= s);
        (mine, others)
    }

    /// The deployments of service `sid`, in their order.
    pub fn get_deployments(&self, sid: u128) -> (r: Vec<Deployment>)
        requires
            self.wf(),
        ensures
            r@ == deployments_of(self.deployments(), sid),
    {
        let (mine, _others) = self.partition_deployments(sid);
        mine
    }

    /// Removes every deployment of service `sid` and returns them, in their order.
    pub fn delete_deployments_by_service_id(&mut self, sid: u128) -> (r: Vec<Deployment>)
        requires
            old(self).wf(),
        ensures
            final(self).wf(),
            r@ == deployments_of(old(self).deployments(), sid),
            final(self).deployments() == deployments_not_of(old(self).deployments(), sid),
            final(self).services() == old(self).services(),
            final(self).secrets() == old(self).secrets(),
            final(self).resources() == old(self).resources(),
            final(self).logs() == old(self).logs(),
    {
        let (mine, others) = self.partition_deployments(sid);
        self.deployments = others;
        mine
    }

    /// The first deployment of service `sid` that is running, if any.
    pub fn get_active_deployment(&self, sid: u128) -> (r: Option<Deployment>)
        ensures
            r is None <==> forall|k: int|
                0 <= k < self.deployments().len() ==> !(self.deployments()[k].service_id == sid
                    && self.deployments()[k].state == State::Running),
            r matches Some(d) ==> exists|i: int|
                first_running(self.deployments(), sid, i) && self.deployments()[i] == d,
    {
        let mut i: usize = 0;
        while i < self.deployments.len()
            invariant
                0 <= i <= self.deployments@.len(),
                forall|k: int|
                    0 <= k < i ==> !(self.deployments()[k].service_id == sid
                        && self.deployments()[k].state == State::Running),
            decreases self.deployments@.len() - i,
        {
            let d = self.deployments[i];
            if d.service_id == sid && d.state == State::Running {
                assert(first_running(self.deployments(), sid, i as int));
                return Some(d);
            }
            i = i + 1;
        }
        None
    }
    /// Removes the service with id `sid`, where there is one.
    pub fn delete_service(&mut self, sid: u128)
        requires
            old(self).wf(),
        ensures
            final(self).wf(),
            !has_service_id(old(self).services(), sid) ==> final(self).services() == old(
                self,
            ).services(),
            has_service_id(old(self).services(), sid) ==> exists|i: int|
                0 <= i < old(self).services().len() && old(self).services()[i].id == sid
                    && final(self).services() == old(self).services().remove(i),
            !has_service_id(final(self).services(), sid),
            final(self).deployments() == old(self).deployments(),
            final(self).secrets() == old(self).secrets(),
            final(self).resources() == old(self).resources(),
            final(self).logs() == old(self).logs(),
    {
        let mut i: usize = 0;
        while i < self.services.len()
            invariant
                *self == *old(self),
                old(self).wf(),
                0 <= i <= self.services@.len(),
                forall|k: int| 0 <= k < i ==> self.services()[k].id != sid,
            decreases self.services@.len() - i,
        {
            if self.services[i].id == sid {
                let ghost before = self.services();
                assert(before[i as int].id == sid);
                assert(has_service_id(old(self).services(), sid));
                let _gone = self.services.remove(i);
                assert(self.services() =~= before.remove(i as int));
                assert(services_unique(self.services())) by {
                    assert(forall|k: int| 0 <= k < self.services().len() ==> #[trigger] self.services()[k] == before[if k < i { k } else { k + 1 }]);
                }
                assert forall|k: int| 0 <= k < self.services().len() implies #[trigger] self.services()[k].id != sid by {
                    let j = if k < i { k } else { k + 1 };
                    assert(self.services()[k] == before[j]);
                    assert(j != i);
                }
                return;
            }
            i = i + 1;
        }
    }

    /// The secrets of service `sid`, in their order.
    pub fn get_secrets(&self, sid: u128) -> (r: Vec<Secret>)
        ensures
            views_of_secrets(r@) == secrets_of(self.secrets(), sid),
    {
        let ghost s = self.secrets();
        let mut out: Vec<Secret> = Vec::new();
        let mut i: usize = 0;
        proof {
            reveal(Seq::filter);
            assert(s.take(0) =~= Seq::<SecretModel>::empty());
            assert(views_of_secrets(out@) =~= secrets_of(s.take(0), sid));
        }
        while i < self.secrets.len()
            invariant
                s == self.secrets(),
                0 <= i <= s.len(),
                views_of_secrets(out@) == secrets_of(s.take(i as int), sid),
            decreases s.len() - i,
        {
            let v = &self.secrets[i];
            proof {
                assert(s.take(i + 1) =~= s.take(i as int).push(v@));
                s.take(i as int).lemma_filter_push(v@, |v: SecretModel| v.service_id == sid);
            }
            if v.service_id == sid {
                let ghost prev = views_of_secrets(out@);
                out.push(Secret { service_id: v.service_id, key: v.key.clone(), value: v.value.clone() });
                assert(views_of_secrets(out@) =~= prev.push(v@));
            }
            i = i + 1;
        }
        assert(s.take(i as int) =~= s);
        out
    }

    /// The resources of service `sid`, in their order.
    pub fn get_service_resources(&self, sid: u128) -> (r: Vec<Resource>)
        ensures
            views_of_resources(r@) == resources_of(self.resources(), sid),
    {
        let ghost s = self.resources();
        let mut out: Vec<Resource> = Vec::new();
        let mut i: usize = 0;
        proof {
            reveal(Seq::filter);
            assert(s.take(0) =~= Seq::<ResourceModel>::empty());
            assert(views_of_resources(out@) =~= resources_of(s.take(0), sid));
        }
        while i < self.resources.len()
            invariant
                s == self.resources(),
                0 <= i <= s.len(),
                views_of_resources(out@) == resources_of(s.take(i as int), sid),
            decreases s.len() - i,
        {
            let v = &self.resources[i];
            proof {
                assert(s.take(i + 1) =~= s.take(i as int).push(v@));
                s.take(i as int).lemma_filter_push(v@, |v: ResourceModel| v.service_id == sid);
            }
            if v.service_id == sid {
                let ghost prev = views_of_resources(out@);
                out.push(v.duplicate());
                assert(views_of_resources(out@) =~= prev.push(v@));
            }
            i = i + 1;
        }
        assert(s.take(i as int) =~= s);
        out
    }

    /// The log entries of deployment `id`, in the order they were appended.
    pub fn get_deployment_logs(&self, id: u128) -> (r: Vec<LogEntry>)
        ensures
            views_of_logs(r@) == logs_of(self.logs(), id),
    {
        let ghost s = self.logs();
        let mut out: Vec<LogEntry> = Vec::new();
        let mut i: usize = 0;
        proof {
            reveal(Seq::filter);
            assert(s.take(0) =~= Seq::<LogLine>::empty());
            assert(views_of_logs(out@) =~= logs_of(s.take(0), id));
        }
        while i < self.logs.len()
            invariant
                s == self.logs(),
                0 <= i <= s.len(),
                views_of_logs(out@) == logs_of(s.take(i as int), id),
            decreases s.len() - i,
        {
            let v = &self.logs[i];
            proof {
                assert(s.take(i + 1) =~= s.take(i as int).push(v@));
                s.take(i as int).lemma_filter_push(v@, |v: LogLine| v.deployment_id == id);
            }
            if v.deployment_id == id {
                let ghost prev = views_of_logs(out@);
                out.push(v.duplicate());
                assert(views_of_logs(out@) =~= prev.push(v@));
            }
            i = i + 1;
        }
        assert(s.take(i as int) =~= s);
        out
    }

    /// Attaches a secret to a service.
    pub fn add_secret(&mut self, secret: Secret)
        requires
            old(self).wf(),
        ensures
            final(self).wf(),
            final(self).secrets() == old(self).secrets().push(secret@),
            final(self).services() == old(self).services(),
            final(self).deployments() == old(self).deployments(),
            final(self).resources() == old(self).resources(),
            final(self).logs() == old(self).logs(),
    {
        let ghost before = self.secrets();
        self.secrets.push(secret);
        assert(self.secrets() =~= before.push(secret@));
    }

    /// Attaches a resource to a service.
    pub fn add_resource(&mut self, resource: Resource)
        requires
            old(self).wf(),
        ensures
            final(self).wf(),
            final(self).resources() == old(self).resources().push(resource@),
            final(self).services() == old(self).services(),
            final(self).deployments() == old(self).deployments(),
            final(self).secrets() == old(self).secrets(),
            final(self).logs() == old(self).logs(),
    {
        let ghost before = self.resources();
        self.resources.push(resource);
        assert(self.resources() =~= before.push(resource@));
    }

    /// Appends a log entry written by the build engine; fails where the
    /// deployment already has a newer entry.
    pub fn append_log(&mut self, entry: LogEntry) -> (r: Result<(), Error>)
        requires
            old(self).wf(),
        ensures
            final(self).wf(),
            r is Err <==> exists|k: int|
                0 <= k < old(self).logs().len() && old(self).logs()[k].deployment_id
                    == entry.deployment_id && old(self).logs()[k].timestamp > entry.timestamp,
            r is Err ==> r == Err::<(), Error>(Error::InputError) && *final(self) == *old(self),
            r is Ok ==> final(self).logs() == old(self).logs().push(entry@),
            final(self).services() == old(self).services(),
            final(self).deployments() == old(self).deployments(),
            final(self).secrets() == old(self).secrets(),
            final(self).resources() == old(self).resources(),
    {
        let mut i: usize = 0;
        while i < self.logs.len()
            invariant
                *self == *old(self),
                old(self).wf(),
                0 <= i <= self.logs@.len(),
                forall|k: int|
                    0 <= k < i ==> !(self.logs()[k].deployment_id == entry.deployment_id
                        && self.logs()[k].timestamp > entry.timestamp),
            decreases self.logs@.len() - i,
        {
            if self.logs[i].deployment_id == entry.deployment_id && self.logs[i].timestamp
                > entry.timestamp {
                assert(self.logs()[i as int] == self.logs@[i as int]@);
                return Err(Error::InputError);
            }
            i = i + 1;
        }
        let ghost before = self.logs();
        self.logs.push(entry);
        assert(self.logs() =~= before.push(entry@));
        Ok(())
    }
}

} // verus!
