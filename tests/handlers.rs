use deployer::handlers::{
    accept_upload, delete_deployment, delete_service, get_deployment, get_logs, get_secrets,
    get_service, get_service_summary, get_status, list_services, open_log_session, post_service,
};
use deployer::model::{DeployOptions, Error, LogEntry, Resource, Secret, State};
use deployer::queue::Queue;
use deployer::registry::Registry;

fn entry(id: u128, ts: i64, line: &str) -> LogEntry {
    LogEntry { deployment_id: id, timestamp: ts, line: Some(line.to_string()) }
}

fn name(s: &str) -> String {
    s.to_string()
}

#[test]
fn upload_of_ten_bytes_is_queued() {
    let mut reg = Registry::new();
    let mut queue = Queue::new();
    let data: Vec<u8> = (0u8..10).collect();
    let d = post_service(&mut reg, &mut queue, &name("web"), data.clone(), DeployOptions { skip_tests: false })
        .unwrap();
    assert_eq!(d.state, State::Queued);
    assert_eq!(d.address, None);
    assert!(d.last_update > 0);
    assert_eq!(get_deployment(&reg, d.id), Ok(d));
    let jobs = queue.take_jobs();
    assert_eq!(jobs.len(), 1);
    assert_eq!(jobs[0].deployment_id, d.id);
    assert_eq!(jobs[0].service_id, d.service_id);
    assert_eq!(jobs[0].service_name, "web");
    assert_eq!(jobs[0].data, data);
    assert!(jobs[0].will_run_tests);
    assert!(queue.take_jobs().is_empty());
}

#[test]
fn skip_tests_reaches_the_job() {
    let mut reg = Registry::new();
    let mut queue = Queue::new();
    post_service(&mut reg, &mut queue, &name("web"), vec![1, 2], DeployOptions { skip_tests: true }).unwrap();
    assert!(!queue.take_jobs()[0].will_run_tests);
}

#[test]
fn uploads_get_fresh_ids_and_share_the_service() {
    let mut reg = Registry::new();
    let mut queue = Queue::new();
    let opts = DeployOptions { skip_tests: false };
    let a = post_service(&mut reg, &mut queue, &name("web"), vec![1], opts).unwrap();
    let b = post_service(&mut reg, &mut queue, &name("web"), vec![2], opts).unwrap();
    assert_ne!(a.id, b.id);
    assert_eq!(a.service_id, b.service_id);
    assert_eq!(list_services(&reg).len(), 1);
    assert_eq!(queue.take_jobs().len(), 2);
}

#[test]
fn accept_upload_with_taken_id_fails() {
    let mut reg = Registry::new();
    let mut queue = Queue::new();
    let opts = DeployOptions { skip_tests: false };
    let d = accept_upload(&mut reg, &mut queue, &name("web"), vec![1], opts, 7, 100, 5).unwrap();
    assert_eq!(d.id, 7);
    assert_eq!(d.service_id, 100);
    assert_eq!(d.last_update, 5);
    let again = accept_upload(&mut reg, &mut queue, &name("api"), vec![1], opts, 7, 101, 6);
    assert_eq!(again, Err(Error::UpstreamFailure));
    let clash = accept_upload(&mut reg, &mut queue, &name("api"), vec![1], opts, 8, 100, 6);
    assert_eq!(clash, Err(Error::UpstreamFailure));
    assert_eq!(list_services(&reg).len(), 1);
    assert_eq!(queue.take_jobs().len(), 1);
    let same_service = accept_upload(&mut reg, &mut queue, &name("web"), vec![1], opts, 8, 100, 6).unwrap();
    assert_eq!(same_service.service_id, 100);
}

#[test]
fn read_of_missing_deployment_is_not_found() {
    let mut reg = Registry::new();
    let mut queue = Queue::new();
    assert_eq!(get_deployment(&reg, 42), Err(Error::NotFound));
    let opts = DeployOptions { skip_tests: false };
    accept_upload(&mut reg, &mut queue, &name("web"), vec![], opts, 42, 1, 0).unwrap();
    assert!(get_deployment(&reg, 42).is_ok());
    assert_eq!(get_deployment(&reg, 43), Err(Error::NotFound));
}

#[test]
fn cancelling_twice_is_like_once() {
    let mut reg = Registry::new();
    let mut queue = Queue::new();
    let opts = DeployOptions { skip_tests: false };
    let d = accept_upload(&mut reg, &mut queue, &name("web"), vec![], opts, 9, 1, 0).unwrap();
    let first = delete_deployment(&reg, &mut queue, 9);
    let second = delete_deployment(&reg, &mut queue, 9);
    assert_eq!(first, Ok(d));
    assert_eq!(second, Ok(d));
    assert_eq!(queue.take_cancellations(), vec![9]);
    assert_eq!(get_deployment(&reg, 9), Ok(d));
    assert_eq!(delete_deployment(&reg, &mut queue, 10), Err(Error::NotFound));
    assert!(queue.take_cancellations().is_empty());
}

#[test]
fn deleting_a_service_cascades() {
    let mut reg = Registry::new();
    let mut queue = Queue::new();
    let opts = DeployOptions { skip_tests: false };
    accept_upload(&mut reg, &mut queue, &name("web"), vec![], opts, 1, 100, 0).unwrap();
    accept_upload(&mut reg, &mut queue, &name("api"), vec![], opts, 2, 200, 0).unwrap();
    accept_upload(&mut reg, &mut queue, &name("web"), vec![], opts, 3, 100, 0).unwrap();
    reg.add_secret(Secret { service_id: 100, key: name("TOKEN"), value: name("SECRET-REDACTED") });
    reg.add_resource(Resource { service_id: 100, kind: name("database") });
    let detail = delete_service(&mut reg, &mut queue, &name("web")).unwrap();
    assert_eq!(detail.name, "web");
    let ids: Vec<u128> = detail.deployments.iter().map(|d| d.id).collect();
    assert_eq!(ids, vec![1, 3]);
    assert_eq!(detail.secrets, vec![name("TOKEN")]);
    assert_eq!(detail.resources.len(), 1);
    assert_eq!(detail.resources[0].kind, "database");
    let mut cancelled = queue.take_cancellations();
    cancelled.sort();
    assert_eq!(cancelled, vec![1, 3]);
    assert_eq!(get_deployment(&reg, 1), Err(Error::NotFound));
    assert_eq!(get_deployment(&reg, 3), Err(Error::NotFound));
    assert!(get_deployment(&reg, 2).is_ok());
    assert!(get_service(&reg, &name("web")).is_err());
    assert_eq!(list_services(&reg).len(), 1);
    assert_eq!(delete_service(&mut reg, &mut queue, &name("web")).err(), Some(Error::NotFound));
}

#[test]
fn service_detail_and_secrets() {
    let mut reg = Registry::new();
    let mut queue = Queue::new();
    let opts = DeployOptions { skip_tests: false };
    accept_upload(&mut reg, &mut queue, &name("web"), vec![], opts, 1, 100, 0).unwrap();
    accept_upload(&mut reg, &mut queue, &name("api"), vec![], opts, 2, 200, 0).unwrap();
    reg.add_secret(Secret { service_id: 100, key: name("A"), value: name("x") });
    reg.add_secret(Secret { service_id: 200, key: name("B"), value: name("y") });
    reg.add_secret(Secret { service_id: 100, key: name("C"), value: name("z") });
    let detail = get_service(&reg, &name("web")).unwrap();
    assert_eq!(detail.name, "web");
    assert_eq!(detail.deployments.len(), 1);
    assert_eq!(detail.deployments[0].id, 1);
    assert_eq!(detail.secrets, vec![name("A"), name("C")]);
    assert_eq!(get_secrets(&reg, &name("api")), Ok(vec![name("B")]));
    assert_eq!(get_secrets(&reg, &name("none")), Err(Error::NotFound));
    assert!(get_service(&reg, &name("none")).is_err());
}

#[test]
fn summary_shows_the_running_deployment() {
    let mut reg = Registry::new();
    let mut queue = Queue::new();
    let opts = DeployOptions { skip_tests: false };
    accept_upload(&mut reg, &mut queue, &name("web"), vec![], opts, 1, 100, 0).unwrap();
    accept_upload(&mut reg, &mut queue, &name("web"), vec![], opts, 2, 100, 0).unwrap();
    let s = get_service_summary(&reg, &name("web"), &name("web.example.org")).unwrap();
    assert!(s.deployment.is_none());
    assert_eq!(s.host, "web.example.org");
    assert_eq!(reg.set_state(2, State::Running, 10), Ok(()));
    assert_eq!(reg.set_state(5, State::Running, 10), Err(Error::NotFound));
    let s = get_service_summary(&reg, &name("web"), &name("web.example.org")).unwrap();
    let d = s.deployment.unwrap();
    assert_eq!(d.id, 2);
    assert_eq!(d.state, State::Running);
    assert_eq!(d.last_update, 10);
    assert!(get_service_summary(&reg, &name("x"), &name("h")).is_err());
}

#[test]
fn logs_show_only_renderable_entries_of_the_deployment() {
    let mut reg = Registry::new();
    let mut queue = Queue::new();
    let opts = DeployOptions { skip_tests: false };
    accept_upload(&mut reg, &mut queue, &name("web"), vec![], opts, 1, 100, 0).unwrap();
    reg.append_log(entry(1, 10, "a")).unwrap();
    reg.append_log(LogEntry { deployment_id: 1, timestamp: 11, line: None }).unwrap();
    reg.append_log(entry(2, 12, "other")).unwrap();
    reg.append_log(entry(1, 13, "b")).unwrap();
    let logs = get_logs(&reg, 1).unwrap();
    let lines: Vec<String> = logs.into_iter().map(|e| e.line.unwrap()).collect();
    assert_eq!(lines, vec![name("a"), name("b")]);
    assert_eq!(get_logs(&reg, 3).err(), Some(Error::NotFound));
}

#[test]
fn status_is_ok() {
    assert_eq!(get_status(), "Ok");
}

#[test]
fn session_replays_backlog_then_goes_live() {
    let mut reg = Registry::new();
    let mut queue = Queue::new();
    let d = post_service(&mut reg, &mut queue, &name("web"), vec![0; 10], DeployOptions { skip_tests: false })
        .unwrap();
    assert_eq!(d.state, State::Queued);
    reg.append_log(entry(d.id, 100, "t1")).unwrap();
    let (mut session, sent) = open_log_session(&reg, d.id);
    assert_eq!(sent.len(), 1);
    assert_eq!(sent[0].timestamp, 100);
    // The build engine persists t2 and t3 and publishes them, with t1 again.
    reg.append_log(entry(d.id, 200, "t2")).unwrap();
    reg.append_log(entry(d.id, 300, "t3")).unwrap();
    let mut live = Vec::new();
    for e in vec![entry(d.id, 100, "t1"), entry(d.id + 1, 150, "x"), entry(d.id, 200, "t2"), entry(d.id, 300, "t3")] {
        if let Some(out) = session.on_event(e) {
            live.push(out);
        }
    }
    let stamps: Vec<i64> = live.iter().map(|e| e.timestamp).collect();
    assert_eq!(stamps, vec![200, 300]);
}

#[test]
fn entry_in_the_subscription_gap_is_not_delivered() {
    let mut reg = Registry::new();
    reg.append_log(entry(5, 100, "t1")).unwrap();
    let (mut session, sent) = open_log_session(&reg, 5);
    assert_eq!(sent.len(), 1);
    // Written and published after the backlog read, before the session subscribed.
    reg.append_log(entry(5, 200, "gap")).unwrap();
    let after_subscribe = vec![entry(5, 300, "t3")];
    let mut live = Vec::new();
    for e in after_subscribe {
        if let Some(out) = session.on_event(e) {
            live.push(out);
        }
    }
    assert_eq!(live.len(), 1);
    assert_eq!(live[0].timestamp, 300);
    assert!(sent.iter().chain(live.iter()).all(|e| e.timestamp != 200));
}

#[test]
fn older_log_entry_of_same_deployment_is_refused() {
    let mut reg = Registry::new();
    reg.append_log(entry(1, 20, "a")).unwrap();
    assert_eq!(reg.append_log(entry(1, 19, "late")), Err(Error::InputError));
    assert_eq!(reg.append_log(entry(2, 5, "other deployment")), Ok(()));
    assert_eq!(reg.append_log(entry(1, 20, "same time")), Ok(()));
    let (_session, sent) = open_log_session(&reg, 1);
    let lines: Vec<String> = sent.into_iter().map(|e| e.line.unwrap()).collect();
    assert_eq!(lines, vec![name("a"), name("same time")]);
}

#[test]
fn upload_to_fresh_registry_succeeds() {
    let mut reg = Registry::new();
    let mut queue = Queue::new();
    let d = post_service(&mut reg, &mut queue, &name("svc"), vec![0u8; 10], DeployOptions { skip_tests: false })
        .unwrap();
    let detail = get_service(&reg, &name("svc")).unwrap();
    assert_eq!(detail.deployments, vec![d]);
    assert!(queue.take_cancellations().is_empty());
}
