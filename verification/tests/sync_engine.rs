use std::cell::RefCell;
use std::rc::Rc;

use vesshelm::config::{Chart, Config, Destination, RepoType, Repository};
use vesshelm::engine::{
    GitClient, HelmClient, SyncEngine, SyncEvent, SyncOptions, SyncStats,
};
use vesshelm::lock::Lockfile;

struct FakeHelm {
    pull_calls: Rc<RefCell<Vec<String>>>,
    repo_adds: RefCell<Vec<String>>,
    repo_updates: RefCell<u32>,
    fail_pull_for: Option<String>,
    dest_present: bool,
}

impl FakeHelm {
    fn new(dest_present: bool) -> Self {
        FakeHelm {
            pull_calls: Rc::new(RefCell::new(Vec::new())),
            repo_adds: RefCell::new(Vec::new()),
            repo_updates: RefCell::new(0),
            fail_pull_for: None,
            dest_present,
        }
    }
}

impl HelmClient for FakeHelm {
    fn repo_add(&self, name: &str, url: &str) -> Result<(), String> {
        self.repo_adds.borrow_mut().push(format!("{} {}", name, url));
        Ok(())
    }

    fn repo_update(&self) -> Result<(), String> {
        *self.repo_updates.borrow_mut() += 1;
        Ok(())
    }

    fn pull(&self, repo: &str, chart: &str, version: &str, dest_dir: &str) -> Result<(), String> {
        self.pull_calls
            .borrow_mut()
            .push(format!("{} {} {} {}", repo, chart, version, dest_dir));
        match &self.fail_pull_for {
            Some(bad) if bad == chart => Err("pull failed".to_string()),
            _ => Ok(()),
        }
    }

    fn ensure_dir(&self, _path: &str) -> Result<(), String> {
        Ok(())
    }

    fn dest_exists(&self, _path: &str) -> bool {
        self.dest_present
    }

    fn is_plugin_installed(&self, _plugin_name: &str) -> Result<bool, String> {
        Ok(true)
    }

    fn install_plugin(&self, _plugin_name: &str, _url: &str, _verify: bool) -> Result<(), String> {
        Ok(())
    }

    fn uninstall(&self, _name: &str, _namespace: &str) -> Result<(), String> {
        Ok(())
    }
}

struct FakeGit;

impl GitClient for FakeGit {
    fn temp_workspace(&self) -> Result<String, String> {
        Ok("work".to_string())
    }

    fn clone_repo(&self, _url: &str, _path: &str) -> Result<(), String> {
        Ok(())
    }

    fn checkout(&self, _path: &str, _revision: &str) -> Result<(), String> {
        Ok(())
    }

    fn export_chart(
        &self,
        _repo_dir: &str,
        _chart_path: &str,
        _dest_dir: &str,
        _chart: &str,
    ) -> Result<(), String> {
        Ok(())
    }
}

fn nginx_config() -> Config {
    Config {
        repositories: vec![Repository {
            name: "stable".to_string(),
            url: "https://charts.helm.sh/stable".to_string(),
            repo_type: RepoType::Helm,
        }],
        charts: vec![Chart {
            name: "nginx".to_string(),
            repo_name: Some("stable".to_string()),
            version: Some("1.0.0".to_string()),
            namespace: "default".to_string(),
            dest: Some("default".to_string()),
            chart_path: None,
            no_sync: false,
            no_deploy: false,
            comment: None,
            values_files: None,
            helm_args_append: None,
            helm_args_override: None,
            depends: None,
        }],
        destinations: vec![Destination {
            name: "default".to_string(),
            path: "./target/test-charts".to_string(),
        }],
        helm: None,
    }
}

#[test]
fn test_sync_helm_chart() {
    let helm = FakeHelm::new(false);
    let engine = SyncEngine::new(helm, FakeGit);
    let config = nginx_config();
    let mut lockfile = Lockfile::default();
    let options = SyncOptions { ignore_skip: false, charts: None };

    let run = engine.sync(&config, &mut lockfile, &options).unwrap();
    assert_eq!(
        run.stats,
        SyncStats { synced: 1, failed: 0, skipped: 0 }
    );
}

#[test]
fn test_first_sync_then_up_to_date() {
    // first sync: one success and a fresh lock entry; second sync with the
    // destination present: one up-to-date skip, no provider fetch, and the
    // lock entry unchanged
    let config = nginx_config();
    let mut lockfile = Lockfile::default();
    let options = SyncOptions { ignore_skip: false, charts: None };

    let helm = FakeHelm::new(false);
    let engine = SyncEngine::new(helm, FakeGit);
    let run = engine.sync(&config, &mut lockfile, &options).unwrap();
    assert_eq!(run.stats, SyncStats { synced: 1, failed: 0, skipped: 0 });
    let success_events = run
        .events
        .iter()
        .filter(|e| matches!(e, SyncEvent::ChartSyncSuccess { .. }))
        .count();
    assert_eq!(success_events, 1);
    let entry = lockfile.get("nginx", "stable").unwrap();
    assert_eq!(entry.version, "1.0.0");

    let helm2 = FakeHelm::new(true);
    let pulls2 = Rc::clone(&helm2.pull_calls);
    let engine2 = SyncEngine::new(helm2, FakeGit);
    let run2 = engine2.sync(&config, &mut lockfile, &options).unwrap();
    assert_eq!(run2.stats, SyncStats { synced: 0, failed: 0, skipped: 1 });
    assert_eq!(pulls2.borrow().len(), 0);
    assert!(run2.events.iter().any(|e| matches!(
        e,
        SyncEvent::ChartSkipped { reason, .. } if reason == "up to date"
    )));
    assert_eq!(lockfile.get("nginx", "stable").unwrap().version, "1.0.0");
}

#[test]
fn test_missing_destination_forces_refetch() {
    // a matching lock entry does not spare the fetch when the materialized
    // directory is gone
    let config = nginx_config();
    let mut lockfile = Lockfile::default();
    lockfile.update("nginx".to_string(), "stable".to_string(), "1.0.0".to_string());
    let options = SyncOptions { ignore_skip: false, charts: None };

    let helm = FakeHelm::new(false);
    let engine = SyncEngine::new(helm, FakeGit);
    let run = engine.sync(&config, &mut lockfile, &options).unwrap();
    assert_eq!(run.stats, SyncStats { synced: 1, failed: 0, skipped: 0 });
}

#[test]
fn test_ignore_skip_forces_refetch() {
    let config = nginx_config();
    let mut lockfile = Lockfile::default();
    lockfile.update("nginx".to_string(), "stable".to_string(), "1.0.0".to_string());
    let options = SyncOptions { ignore_skip: true, charts: None };

    let helm = FakeHelm::new(true);
    let engine = SyncEngine::new(helm, FakeGit);
    let run = engine.sync(&config, &mut lockfile, &options).unwrap();
    assert_eq!(run.stats, SyncStats { synced: 1, failed: 0, skipped: 0 });
}

#[test]
fn test_failure_isolation() {
    // two independent charts; the provider fails for exactly one: one
    // failure, one success, and only the successful chart's lock entry moves
    let mut config = nginx_config();
    config.charts.push(Chart {
        name: "redis".to_string(),
        repo_name: Some("stable".to_string()),
        version: Some("2.0.0".to_string()),
        namespace: "default".to_string(),
        dest: Some("default".to_string()),
        chart_path: None,
        no_sync: false,
        no_deploy: false,
        comment: None,
        values_files: None,
        helm_args_append: None,
        helm_args_override: None,
        depends: None,
    });

    let mut helm = FakeHelm::new(false);
    helm.fail_pull_for = Some("nginx".to_string());
    let engine = SyncEngine::new(helm, FakeGit);
    let mut lockfile = Lockfile::default();
    let options = SyncOptions { ignore_skip: false, charts: None };

    let run = engine.sync(&config, &mut lockfile, &options).unwrap();
    assert_eq!(run.stats, SyncStats { synced: 1, failed: 1, skipped: 0 });
    let failed = run
        .events
        .iter()
        .filter(|e| matches!(e, SyncEvent::ChartSyncFailed { .. }))
        .count();
    let succeeded = run
        .events
        .iter()
        .filter(|e| matches!(e, SyncEvent::ChartSyncSuccess { .. }))
        .count();
    assert_eq!(failed, 1);
    assert_eq!(succeeded, 1);
    assert!(lockfile.get("nginx", "stable").is_none());
    assert_eq!(lockfile.get("redis", "stable").unwrap().version, "2.0.0");
}

#[test]
fn test_no_sync_flag_skips() {
    let mut config = nginx_config();
    config.charts[0].no_sync = true;
    let helm = FakeHelm::new(false);
    let engine = SyncEngine::new(helm, FakeGit);
    let mut lockfile = Lockfile::default();
    let options = SyncOptions { ignore_skip: false, charts: None };

    let run = engine.sync(&config, &mut lockfile, &options).unwrap();
    assert_eq!(run.stats, SyncStats { synced: 0, failed: 0, skipped: 1 });
    assert!(run.events.iter().any(|e| matches!(
        e,
        SyncEvent::ChartSkipped { reason, .. } if reason == "no_sync=true"
    )));
    assert!(lockfile.get("nginx", "stable").is_none());
}

#[test]
fn test_local_chart_skips() {
    let mut config = nginx_config();
    config.charts[0].repo_name = None;
    config.charts[0].chart_path = Some("./local/nginx".to_string());
    let helm = FakeHelm::new(false);
    let engine = SyncEngine::new(helm, FakeGit);
    let mut lockfile = Lockfile::default();
    let options = SyncOptions { ignore_skip: false, charts: None };

    let run = engine.sync(&config, &mut lockfile, &options).unwrap();
    assert_eq!(run.stats, SyncStats { synced: 0, failed: 0, skipped: 1 });
    assert!(run.events.iter().any(|e| matches!(
        e,
        SyncEvent::ChartSkipped { reason, .. } if reason == "local chart"
    )));
}

#[test]
fn test_filter_excludes_charts() {
    let mut config = nginx_config();
    config.charts.push(Chart {
        name: "redis".to_string(),
        repo_name: Some("stable".to_string()),
        version: Some("2.0.0".to_string()),
        namespace: "default".to_string(),
        dest: Some("default".to_string()),
        chart_path: None,
        no_sync: false,
        no_deploy: false,
        comment: None,
        values_files: None,
        helm_args_append: None,
        helm_args_override: None,
        depends: None,
    });
    let helm = FakeHelm::new(false);
    let engine = SyncEngine::new(helm, FakeGit);
    let mut lockfile = Lockfile::default();
    let options = SyncOptions { ignore_skip: false, charts: Some(vec!["redis".to_string()]) };

    let run = engine.sync(&config, &mut lockfile, &options).unwrap();
    assert_eq!(run.stats, SyncStats { synced: 1, failed: 0, skipped: 0 });
    assert!(lockfile.get("nginx", "stable").is_none());
    assert!(lockfile.get("redis", "stable").is_some());
}

#[test]
fn test_unknown_repository_aborts() {
    let mut config = nginx_config();
    config.charts[0].repo_name = Some("ghost".to_string());
    let helm = FakeHelm::new(false);
    let engine = SyncEngine::new(helm, FakeGit);
    let mut lockfile = Lockfile::default();
    let options = SyncOptions { ignore_skip: false, charts: None };

    let r = engine.sync(&config, &mut lockfile, &options);
    assert!(matches!(
        r,
        Err(vesshelm::engine::SyncError::RepositoryNotFound { .. })
    ));
}

#[test]
fn test_repo_refresh_happens_once() {
    let mut config = nginx_config();
    config.charts.push(Chart {
        name: "redis".to_string(),
        repo_name: Some("stable".to_string()),
        version: Some("2.0.0".to_string()),
        namespace: "default".to_string(),
        dest: Some("default".to_string()),
        chart_path: None,
        no_sync: false,
        no_deploy: false,
        comment: None,
        values_files: None,
        helm_args_append: None,
        helm_args_override: None,
        depends: None,
    });
    let helm = FakeHelm::new(false);
    let engine = SyncEngine::new(helm, FakeGit);
    let mut lockfile = Lockfile::default();
    let options = SyncOptions { ignore_skip: false, charts: None };

    let run = engine.sync(&config, &mut lockfile, &options).unwrap();
    let starts = run
        .events
        .iter()
        .filter(|e| matches!(e, SyncEvent::RepoUpdateStart))
        .count();
    assert_eq!(starts, 1);
    assert_eq!(run.stats.synced, 2);
}

#[test]
fn test_oci_chart_uses_scheme() {
    let mut config = nginx_config();
    config.repositories[0].repo_type = RepoType::Oci;
    config.repositories[0].url = "registry.example.com/library".to_string();
    let helm = FakeHelm::new(false);
    let pulls = Rc::clone(&helm.pull_calls);
    let engine = SyncEngine::new(helm, FakeGit);
    let mut lockfile = Lockfile::default();
    let options = SyncOptions { ignore_skip: false, charts: None };

    let run = engine.sync(&config, &mut lockfile, &options).unwrap();
    assert_eq!(run.stats.synced, 1);
    assert!(run.events.iter().any(|e| matches!(
        e,
        SyncEvent::ChartSyncSuccess { repo_type, .. } if repo_type == "OCI"
    )));
    // the registry URL was fetched with the scheme prefixed
    assert_eq!(
        pulls.borrow()[0],
        "oci://registry.example.com/library nginx 1.0.0 ./target/test-charts"
    );
}
