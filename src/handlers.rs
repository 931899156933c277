use vstd::prelude::*;

use crate::logstream::{all_of, live_start, non_decreasing, shown, LogSession};
use crate::model::{
    views_of_logs, DeployOptions, Deployment, Error, LogEntry, Resource, Secret,
    SecretModel, Service, ServiceModel, State,
};
use crate::queue::{after_cancel, JobModel, Queue, QueuedJob};
use crate::registry::{
    deployment_ids_unique, deployments_not_of, deployments_of, has_deployment, has_service_id,
    has_service_named, logs_of, resources_of, secrets_of, services_unique, views_of_resources,
    views_of_secrets, views_of_services, Registry, first_running,
    lemma_logs_of_ordered,
};

verus! {

/// The index of the service named `name`; names are unique in a well-formed registry.
pub open spec fn named_index(s: Seq<ServiceModel>, name: Seq<char>) -> int {
    choose|i: int| 0 <= i < s.len() && s[i].name == name
}

/// The build job for deployment `d` of service `name` with `data`.
pub open spec fn job_for(d: Deployment, name: Seq<char>, data: Seq<u8>, options: DeployOptions) -> JobModel {
    JobModel {
        deployment_id: d.id,
        service_id: d.service_id,
        service_name: name,
        data,
        will_run_tests: !options.skip_tests,
    }
}

pub open spec fn keys_of(s: Seq<SecretModel>) -> Seq<Seq<char>> {
    s.map_values(|v: SecretModel| v.key)
}

pub open spec fn views_of_keys(s: Seq<String>) -> Seq<Seq<char>> {
    s.map_values(|v: String| v@)
}

/// A service with its deployments, resources and secret keys.
pub struct ServiceDetail {
    pub name: String,
    pub deployments: Vec<Deployment>,
    pub resources: Vec<Resource>,
    pub secrets: Vec<String>,
}

/// A service with its running deployment and resources; the service is
/// reached at `https://` followed by `host`.
pub struct ServiceSummary {
    pub host: String,
    pub name: String,
    pub deployment: Option<Deployment>,
    pub resources: Vec<Resource>,
}

/// Relies on uuid::Uuid::new_v4 for a random version-4 uuid, handed on as its
/// 128-bit value; nothing is known of which value comes.
#[verifier::external_body]
fn new_id() -> (r: u128) {
    uuid::Uuid::new_v4().as_u128()
}

/// Relies on chrono::Utc::now for the current time, in microseconds since the
/// Unix epoch (DateTime::timestamp_micros). `Utc::now` panics on a system clock
/// set before the epoch, so a returned time is never negative.
#[verifier::external_body]
fn now_micros() -> (r: i64)
    ensures
        r >= 0,
{
    chrono::Utc::now().timestamp_micros()
}

/// The keys of `secrets`, in their order.
fn secret_keys(secrets: &Vec<Secret>) -> (r: Vec<String>)
    ensures
        views_of_keys(r@) == keys_of(views_of_secrets(secrets@)),
{
    let ghost s = views_of_secrets(secrets@);
    let mut out: Vec<String> = Vec::new();
    let mut i: usize = 0;
    while i < secrets.len()
        invariant
            s == views_of_secrets(secrets@),
            0 <= i <= secrets@.len(),
            views_of_keys(out@) =~= keys_of(s).take(i as int),
        decreases secrets@.len() - i,
    {
        let ghost prev = views_of_keys(out@);
        out.push(secrets[i].key.clone());
        assert(views_of_keys(out@) =~= prev.push(keys_of(s)[i as int]));
        assert(keys_of(s).take(i + 1) =~= keys_of(s).take(i as int).push(keys_of(s)[i as int]));
        i = i + 1;
    }
    assert(keys_of(s).take(i as int) =~= keys_of(s));
    out
}

/// Accepts an upload for the service named `service_name` under the given
/// deployment id, creating the service with `service_id` where none has that
/// name, and hands one build job to the queue.
pub fn accept_upload(
    registry: &mut Registry,
    queue: &mut Queue,
    service_name: &String,
    data: Vec<u8>,
    options: DeployOptions,
    deployment_id: u128,
    service_id: u128,
    now: i64,
) -> (r: Result<Deployment, Error>)
    requires
        old(registry).wf(),
        old(queue).wf(),
    ensures
        final(registry).wf(),
        final(queue).wf(),
        r is Ok <==> !has_deployment(old(registry).deployments(), deployment_id) && (
        has_service_named(old(registry).services(), service_name@) || !has_service_id(
            old(registry).services(),
            service_id,
        )),
        r is Err ==> r == Err::<Deployment, Error>(Error::UpstreamFailure) && *final(registry)
            == *old(registry) && *final(queue) == *old(queue),
        r matches Ok(d) ==> {
            &&& d.id == deployment_id
            &&& d.state == State::Queued
            &&& d.last_update == now
            &&& d.address is None
            &&& final(registry).deployments() == old(registry).deployments().push(d)
            &&& final(queue).jobs() == old(queue).jobs().push(
                job_for(d, service_name@, data@, options),
            )
            &&& final(queue).cancellations() == old(queue).cancellations()
            &&& has_service_named(old(registry).services(), service_name@) ==> {
                &&& final(registry).services() == old(registry).services()
                &&& d.service_id == old(registry).services()[named_index(
                    old(registry).services(),
                    service_name@,
                )].id
            }
            &&& !has_service_named(old(registry).services(), service_name@) ==> {
                &&& d.service_id == service_id
                &&& final(registry).services() == old(registry).services().push(
                    ServiceModel { id: service_id, name: service_name@ },
                )
            }
        },
        final(registry).secrets() == old(registry).secrets(),
        final(registry).resources() == old(registry).resources(),
        final(registry).logs() == old(registry).logs(),
{
    if registry.get_deployment(deployment_id).is_some() {
        return Err(Error::UpstreamFailure);
    }
    let ghost before = *registry;
    let service = match registry.get_or_create_service(service_name, service_id) {
        Ok(v) => v,
        Err(e) => {
            return Err(e);
        },
    };
    proof {
        if has_service_named(before.services(), service_name@) {
            let i = named_index(before.services(), service_name@);
            assert(before.services()[i].name == service_name@);
        } else {
            let j = choose|j: int| 0 <= j < registry.services().len() && registry.services()[j] == service@;
            if j < before.services().len() {
                assert(registry.services()[j] == before.services()[j]);
            }
        }
    }
    let deployment = Deployment {
        id: deployment_id,
        service_id: service.id,
        state: State::Queued,
        last_update: now,
        address: None,
    };
    let inserted = registry.insert_deployment(deployment);
    assert(inserted is Ok);
    let job = QueuedJob {
        deployment_id,
        service_id: service.id,
        service_name: service.name,
        data,
        will_run_tests: !options.skip_tests,
    };
    queue.queue_push(job);
    Ok(deployment)
}

/// Accepts an upload for the service named `service_name`: a fresh random
/// deployment id (and service id, where the service is new) is drawn, the
/// deployment is recorded as queued, and one build job goes to the queue.
pub fn post_service(
    registry: &mut Registry,
    queue: &mut Queue,
    service_name: &String,
    data: Vec<u8>,
    options: DeployOptions,
) -> (r: Result<Deployment, Error>)
    requires
        old(registry).wf(),
        old(queue).wf(),
    ensures
        final(registry).wf(),
        final(queue).wf(),
        r is Err ==> r == Err::<Deployment, Error>(Error::UpstreamFailure) && *final(registry)
            == *old(registry) && *final(queue) == *old(queue),
        r matches Ok(d) ==> {
            &&& d.state == State::Queued
            &&& d.address is None
            &&& !has_deployment(old(registry).deployments(), d.id)
            &&& final(registry).deployments() == old(registry).deployments().push(d)
            &&& final(queue).jobs() == old(queue).jobs().push(
                job_for(d, service_name@, data@, options),
            )
            &&& final(queue).cancellations() == old(queue).cancellations()
            &&& has_service_named(final(registry).services(), service_name@)
            &&& d.service_id == final(registry).services()[named_index(
                final(registry).services(),
                service_name@,
            )].id
            &&& has_service_named(old(registry).services(), service_name@) ==> {
                &&& final(registry).services() == old(registry).services()
                &&& d.service_id == old(registry).services()[named_index(
                    old(registry).services(),
                    service_name@,
                )].id
            }
            &&& !has_service_named(old(registry).services(), service_name@) ==> exists|sid: u128|
                {
                    &&& !has_service_id(old(registry).services(), sid)
                    &&& d.service_id == sid
                    &&& final(registry).services() == old(registry).services().push(
                        ServiceModel { id: sid, name: service_name@ },
                    )
                }
        },
        old(registry).deployments().len() == 0 && (old(registry).services().len() == 0
            || has_service_named(old(registry).services(), service_name@)) ==> r is Ok,
        final(registry).secrets() == old(registry).secrets(),
        final(registry).resources() == old(registry).resources(),
        final(registry).logs() == old(registry).logs(),
{
    let deployment_id = new_id();
    let service_id = new_id();
    let now = now_micros();
    let ghost before = registry.services();
    let r = accept_upload(registry, queue, service_name, data, options, deployment_id, service_id, now);
    proof {
        if r is Ok && has_service_named(before, service_name@) {
            let i = named_index(before, service_name@);
            assert(registry.services()[i].name == service_name@);
            lemma_named(registry.services(), service_name@, before[i]);
        } else if r is Ok {
            let v = ServiceModel { id: service_id, name: service_name@ };
            assert(registry.services()[before.len() as int] == v);
            lemma_named(registry.services(), service_name@, v);
        }
    }
    r
}

/// Reads the deployment with id `id`.
pub fn get_deployment(registry: &Registry, id: u128) -> (r: Result<Deployment, Error>)
    requires
        registry.wf(),
    ensures
        r is Err <==> !has_deployment(registry.deployments(), id),
        r is Err ==> r == Err::<Deployment, Error>(Error::NotFound),
        r matches Ok(d) ==> d.id == id && registry.deployments().contains(d),
{
    match registry.get_deployment(id) {
        Some(d) => Ok(d),
        None => Err(Error::NotFound),
    }
}

/// Asks the build engine to cancel deployment `id` and returns its record as
/// it was before; the cancellation is not waited for.
pub fn delete_deployment(registry: &Registry, queue: &mut Queue, id: u128) -> (r: Result<
    Deployment,
    Error,
>)
    requires
        registry.wf(),
        old(queue).wf(),
    ensures
        final(queue).wf(),
        r is Err <==> !has_deployment(registry.deployments(), id),
        r is Err ==> r == Err::<Deployment, Error>(Error::NotFound) && *final(queue) == *old(
            queue,
        ),
        r matches Ok(d) ==> {
            &&& d.id == id
            &&& registry.deployments().contains(d)
            &&& final(queue).cancellations() == after_cancel(old(queue).cancellations(), id)
            &&& final(queue).jobs() == old(queue).jobs()
        },
{
    match registry.get_deployment(id) {
        Some(d) => {
            queue.kill(d.id);
            Ok(d)
        },
        None => Err(Error::NotFound),
    }
}

/// Cancelling a deployment a second time has no further effect: the pending
/// cancellations stay as the first request left them, and both requests
/// return the same record, as a registry holds one record per id.
pub proof fn lemma_cancel_twice(
    deployments: Seq<Deployment>,
    cancellations: Seq<u128>,
    id: u128,
    first: Deployment,
    second: Deployment,
)
    requires
        deployment_ids_unique(deployments),
        deployments.contains(first),
        deployments.contains(second),
        first.id == id,
        second.id == id,
    ensures
        after_cancel(after_cancel(cancellations, id), id) == after_cancel(cancellations, id),
        first == second,
{
    let once = after_cancel(cancellations, id);
    if !cancellations.contains(id) {
        assert(once[cancellations.len() as int] == id);
    }
}

proof fn lemma_named(s: Seq<ServiceModel>, name: Seq<char>, v: ServiceModel)
    requires
        services_unique(s),
        s.contains(v),
        v.name == name,
    ensures
        has_service_named(s, name),
        0 <= named_index(s, name) < s.len(),
        s[named_index(s, name)] == v,
{
    let j = choose|j: int| 0 <= j < s.len() && s[j] == v;
    assert(s[j].name == name);
}

/// The ids of `s`, in their order.
pub open spec fn ids_of(s: Seq<Deployment>) -> Seq<u128> {
    s.map_values(|d: Deployment| d.id)
}

/// The pending cancellations after asking to cancel each of `ids`, in order.
pub open spec fn after_cancels(c: Seq<u128>, ids: Seq<u128>) -> Seq<u128>
    decreases ids.len(),
{
    if ids.len() == 0 {
        c
    } else {
        after_cancel(after_cancels(c, ids.drop_last()), ids.last())
    }
}

/// Deletes the service named `name`: its deployments are removed and each
/// of them is cancelled, then the service itself is removed. The result
/// holds the service as it was, with its resources and secret keys.
pub fn delete_service(registry: &mut Registry, queue: &mut Queue, name: &String) -> (r: Result<
    ServiceDetail,
    Error,
>)
    requires
        old(registry).wf(),
        old(queue).wf(),
    ensures
        final(registry).wf(),
        final(queue).wf(),
        r is Err <==> !has_service_named(old(registry).services(), name@),
        r is Err ==> r == Err::<ServiceDetail, Error>(Error::NotFound) && *final(registry) == *old(
            registry,
        ) && *final(queue) == *old(queue),
        r matches Ok(detail) ==> {
            let i = named_index(old(registry).services(), name@);
            let sid = old(registry).services()[i].id;
            &&& 0 <= i < old(registry).services().len()
            &&& detail.name@ == name@
            &&& detail.deployments@ == deployments_of(old(registry).deployments(), sid)
            &&& final(registry).deployments() == deployments_not_of(old(registry).deployments(), sid)
            &&& final(queue).cancellations() == after_cancels(
                old(queue).cancellations(),
                ids_of(detail.deployments@),
            )
            &&& forall|k: int|
                0 <= k < detail.deployments@.len() ==> final(queue).cancellations().contains(
                    #[trigger] detail.deployments@[k].id,
                )
            &&& final(queue).jobs() == old(queue).jobs()
            &&& views_of_resources(detail.resources@) == resources_of(old(registry).resources(), sid)
            &&& views_of_keys(detail.secrets@) == keys_of(secrets_of(old(registry).secrets(), sid))
            &&& final(registry).services() == old(registry).services().remove(i)
            &&& !has_service_id(final(registry).services(), sid)
        },
        final(registry).secrets() == old(registry).secrets(),
        final(registry).resources() == old(registry).resources(),
        final(registry).logs() == old(registry).logs(),
{
    let service = match registry.get_service_by_name(name) {
        Some(v) => v,
        None => {
            return Err(Error::NotFound);
        },
    };
    let ghost before = *registry;
    proof {
        lemma_named(before.services(), name@, service@);
    }
    let old_deployments = registry.delete_deployments_by_service_id(service.id);
    let mut j: usize = 0;
    assert(ids_of(old_deployments@).take(0) =~= Seq::<u128>::empty());
    while j < old_deployments.len()
        invariant
            queue.wf(),
            0 <= j <= old_deployments@.len(),
            queue.jobs() == old(queue).jobs(),
            queue.cancellations() == after_cancels(
                old(queue).cancellations(),
                ids_of(old_deployments@).take(j as int),
            ),
            forall|k: int| 0 <= k < j ==> queue.cancellations().contains(#[trigger] old_deployments@[k].id),
        decreases old_deployments@.len() - j,
    {
        let ghost c = queue.cancellations();
        queue.kill(old_deployments[j].id);
        proof {
            let id = old_deployments@[j as int].id;
            let ids = ids_of(old_deployments@);
            assert(ids.take(j + 1).drop_last() =~= ids.take(j as int));
            assert(ids.take(j + 1).last() == id);
            if !c.contains(id) {
                assert(queue.cancellations()[c.len() as int] == id);
                assert forall|k: int| 0 <= k < j implies queue.cancellations().contains(#[trigger] old_deployments@[k].id) by {
                    let x = choose|x: int| 0 <= x < c.len() && c[x] == old_deployments@[k].id;
                    assert(queue.cancellations()[x] == c[x]);
                }
            }
        }
        j = j + 1;
    }
    assert(ids_of(old_deployments@).take(j as int) =~= ids_of(old_deployments@));
    let resources = registry.get_service_resources(service.id);
    let secrets = registry.get_secrets(service.id);
    let keys = secret_keys(&secrets);
    let ghost mid = registry.services();
    registry.delete_service(service.id);
    proof {
        let i = named_index(before.services(), name@);
        let k = choose|k: int| 0 <= k < mid.len() && mid[k].id == service.id && registry.services() == mid.remove(k);
        assert(before.services()[i].id == service.id);
        assert(k == i);
    }
    Ok(ServiceDetail { name: service.name, deployments: old_deployments, resources, secrets: keys })
}

/// Reads the service named `name` with its deployments, resources and secret keys.
pub fn get_service(registry: &Registry, name: &String) -> (r: Result<ServiceDetail, Error>)
    requires
        registry.wf(),
    ensures
        r is Err <==> !has_service_named(registry.services(), name@),
        r is Err ==> r == Err::<ServiceDetail, Error>(Error::NotFound),
        r matches Ok(detail) ==> {
            let sid = registry.services()[named_index(registry.services(), name@)].id;
            &&& detail.name@ == name@
            &&& detail.deployments@ == deployments_of(registry.deployments(), sid)
            &&& views_of_resources(detail.resources@) == resources_of(registry.resources(), sid)
            &&& views_of_keys(detail.secrets@) == keys_of(secrets_of(registry.secrets(), sid))
        },
{
    let service = match registry.get_service_by_name(name) {
        Some(v) => v,
        None => {
            return Err(Error::NotFound);
        },
    };
    proof {
        lemma_named(registry.services(), name@, service@);
    }
    let deployments = registry.get_deployments(service.id);
    let resources = registry.get_service_resources(service.id);
    let secrets = registry.get_secrets(service.id);
    let keys = secret_keys(&secrets);
    Ok(ServiceDetail { name: service.name, deployments, resources, secrets: keys })
}

/// Reads the service named `name` with its first running deployment, if
/// any, and its resources.
pub fn get_service_summary(registry: &Registry, name: &String, host: &String) -> (r: Result<
    ServiceSummary,
    Error,
>)
    requires
        registry.wf(),
    ensures
        r is Err <==> !has_service_named(registry.services(), name@),
        r is Err ==> r == Err::<ServiceSummary, Error>(Error::NotFound),
        r matches Ok(summary) ==> {
            let sid = registry.services()[named_index(registry.services(), name@)].id;
            &&& summary.host@ == host@
            &&& summary.name@ == name@
            &&& summary.deployment is None <==> forall|k: int|
                0 <= k < registry.deployments().len() ==> !(registry.deployments()[k].service_id
                    == sid && registry.deployments()[k].state == State::Running)
            &&& summary.deployment matches Some(d) ==> exists|i: int|
                first_running(registry.deployments(), sid, i) && registry.deployments()[i] == d
            &&& views_of_resources(summary.resources@) == resources_of(registry.resources(), sid)
        },
{
    let service = match registry.get_service_by_name(name) {
        Some(v) => v,
        None => {
            return Err(Error::NotFound);
        },
    };
    proof {
        lemma_named(registry.services(), name@, service@);
    }
    let deployment = registry.get_active_deployment(service.id);
    let resources = registry.get_service_resources(service.id);
    Ok(ServiceSummary { host: host.clone(), name: service.name, deployment, resources })
}

/// The secret keys of the service named `name`.
pub fn get_secrets(registry: &Registry, name: &String) -> (r: Result<Vec<String>, Error>)
    requires
        registry.wf(),
    ensures
        r is Err <==> !has_service_named(registry.services(), name@),
        r is Err ==> r == Err::<Vec<String>, Error>(Error::NotFound),
        r matches Ok(keys) ==> views_of_keys(keys@) == keys_of(
            secrets_of(
                registry.secrets(),
                registry.services()[named_index(registry.services(), name@)].id,
            ),
        ),
{
    let service = match registry.get_service_by_name(name) {
        Some(v) => v,
        None => {
            return Err(Error::NotFound);
        },
    };
    proof {
        lemma_named(registry.services(), name@, service@);
    }
    let secrets = registry.get_secrets(service.id);
    Ok(secret_keys(&secrets))
}

/// The logs of deployment `id` that have something to show, in order.
pub fn get_logs(registry: &Registry, id: u128) -> (r: Result<Vec<LogEntry>, Error>)
    requires
        registry.wf(),
    ensures
        r is Err <==> !has_deployment(registry.deployments(), id),
        r is Err ==> r == Err::<Vec<LogEntry>, Error>(Error::NotFound),
        r matches Ok(logs) ==> views_of_logs(logs@) == shown(logs_of(registry.logs(), id)),
{
    match registry.get_deployment(id) {
        Some(d) => {
            let backlog = registry.get_deployment_logs(d.id);
            let mut session = LogSession::new(d.id);
            Ok(session.replay_backlog(&backlog))
        },
        None => Err(Error::NotFound),
    }
}

/// Starts a log session for deployment `id`: the durable backlog is read and
/// replayed. The session then takes live events through `on_event`. Entries
/// that reach the registry after this read and before the caller subscribes
/// to the live feed are not delivered by this session.
pub fn open_log_session(registry: &Registry, id: u128) -> (r: (LogSession, Vec<LogEntry>))
    requires
        registry.wf(),
    ensures
        r.0.target() == id,
        r.0.last() == live_start(logs_of(registry.logs(), id)),
        views_of_logs(r.1@) == shown(logs_of(registry.logs(), id)),
        all_of(id, logs_of(registry.logs(), id)),
        non_decreasing(logs_of(registry.logs(), id)),
{
    proof {
        lemma_logs_of_ordered(registry.logs(), id);
    }
    let backlog = registry.get_deployment_logs(id);
    let mut session = LogSession::new(id);
    let sent = session.replay_backlog(&backlog);
    (session, sent)
}

/// Every service, in the order they were created.
pub fn list_services(registry: &Registry) -> (r: Vec<Service>)
    ensures
        views_of_services(r@) == registry.services(),
{
    registry.get_all_services()
}

/// The liveness answer.
pub fn get_status() -> (r: String)
    ensures
        r@ == "Ok"@,
{
    "Ok".to_owned()
}

/// Deleting a service leaves none of its deployments behind, and every
/// deployment it had is among those removed, each of which is cancelled.
pub proof fn lemma_service_cascade(deployments: Seq<Deployment>, sid: u128)
    ensures
        deployments_of(deployments_not_of(deployments, sid), sid).len() == 0,
        forall|i: int|
            0 <= i < deployments.len() && deployments[i].service_id == sid ==> deployments_of(
                deployments,
                sid,
            ).contains(#[trigger] deployments[i]),
    decreases deployments.len(),
{
    if deployments.len() == 0 {
        reveal(Seq::filter);
    } else {
        let p = deployments.drop_last();
        let x = deployments.last();
        lemma_service_cascade(p, sid);
        assert(deployments =~= p.push(x));
        p.lemma_filter_push(x, |d: Deployment| d.service_id != sid);
        p.lemma_filter_push(x, |d: Deployment| d.service_id == sid);
        let rest = deployments_not_of(p, sid);
        rest.lemma_filter_push(x, |d: Deployment| d.service_id == sid);
        assert forall|i: int|
            0 <= i < deployments.len() && deployments[i].service_id == sid implies deployments_of(
                deployments,
                sid,
            ).contains(#[trigger] deployments[i]) by {
            if i < p.len() {
                assert(deployments[i] == p[i]);
                let k = choose|k: int| 0 <= k < deployments_of(p, sid).len() && deployments_of(p, sid)[k] == p[i];
                assert(deployments_of(deployments, sid)[k] == p[i]);
            } else {
                assert(deployments_of(deployments, sid).last() == x);
            }
        }
    }
}

/// Right after an upload is accepted, the registry holds a record with the
/// new deployment's id, it is the accepted one, and its state is queued; a
/// read of that id therefore finds it.
pub proof fn lemma_accepted_is_queued(before: Seq<Deployment>, d: Deployment)
    requires
        deployment_ids_unique(before.push(d)),
        d.state == State::Queued,
    ensures
        has_deployment(before.push(d), d.id),
        forall|e: Deployment|
            before.push(d).contains(e) && e.id == d.id ==> e == d && e.state == State::Queued,
{
    let after = before.push(d);
    assert(after[before.len() as int] == d);
    assert forall|e: Deployment| after.contains(e) && e.id == d.id implies e == d by {
        let k = choose|k: int| 0 <= k < after.len() && after[k] == e;
        assert(after[k].id == after[before.len() as int].id);
    }
}

} // verus!
