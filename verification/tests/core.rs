use vesshelm::config::{Chart, Config, Destination, RepoType, Repository};
use vesshelm::dag::{get_dependents, sort_charts};
use vesshelm::deploy::{construct_helm_args, diff_indicates_no_change, interpolate_variables};
use vesshelm::encryption::is_sops_encrypted;
use vesshelm::filter::validate_only_args;
use vesshelm::source::{derive_git, derive_oci, get_source, map_package_to_details, parse_ah_url};
use vesshelm::source::{Package, SourceKind};
use vesshelm::config::{validate_config, ConfigError};
use vesshelm::updater::{ChartConfig, ConfigUpdater, UpdateError};
use vesshelm::versions::is_update_available;

fn parse_version(v: &str) -> Result<semver::Version, semver::Error> {
    semver::Version::parse(v.strip_prefix('v').unwrap_or(v))
}

fn create_chart(name: &str, depends: Option<Vec<String>>) -> Chart {
    Chart {
        name: name.to_string(),
        repo_name: Some("test".to_string()),
        version: Some("1.0.0".to_string()),
        namespace: "default".to_string(),
        dest: None,
        chart_path: None,
        no_sync: false,
        no_deploy: false,
        comment: None,
        values_files: None,
        helm_args_append: None,
        helm_args_override: None,
        depends,
    }
}

#[test]
fn test_sort_no_deps() {
    let charts = vec![create_chart("a", None), create_chart("b", None)];
    let sorted = sort_charts(&charts).unwrap();
    assert_eq!(sorted.len(), 2);
    let names: Vec<&str> = sorted.iter().map(|c| c.name.as_str()).collect();
    assert!(names.contains(&"a"));
    assert!(names.contains(&"b"));
}

#[test]
fn test_sort_simple_dep() {
    let charts = vec![
        create_chart("b", Some(vec!["a".to_string()])),
        create_chart("a", None),
    ];
    let sorted = sort_charts(&charts).unwrap();
    assert_eq!(sorted[0].name, "a");
    assert_eq!(sorted[1].name, "b");
}

#[test]
fn test_sort_chain() {
    let charts = vec![
        create_chart("c", Some(vec!["b".to_string()])),
        create_chart("a", None),
        create_chart("b", Some(vec!["a".to_string()])),
    ];
    let sorted = sort_charts(&charts).unwrap();
    assert_eq!(sorted[0].name, "a");
    assert_eq!(sorted[1].name, "b");
    assert_eq!(sorted[2].name, "c");
}

#[test]
fn test_cycle() {
    let charts = vec![
        create_chart("a", Some(vec!["b".to_string()])),
        create_chart("b", Some(vec!["a".to_string()])),
    ];
    assert!(sort_charts(&charts).is_err());
}

#[test]
fn test_self_dependency_is_a_cycle() {
    let charts = vec![create_chart("a", Some(vec!["a".to_string()]))];
    let r = sort_charts(&charts);
    assert!(matches!(r, Err(vesshelm::dag::DagError::CycleDetected { .. })));
}

#[test]
fn test_missing_dep() {
    let charts = vec![create_chart("a", Some(vec!["full-missing".to_string()]))];
    assert!(sort_charts(&charts).is_err());
}

#[test]
fn test_missing_dep_names_the_pair() {
    let charts = vec![create_chart("a", Some(vec!["full-missing".to_string()]))];
    match sort_charts(&charts) {
        Err(vesshelm::dag::DagError::UnknownDependency { chart, dependency }) => {
            assert_eq!(chart, "a");
            assert_eq!(dependency, "full-missing");
        }
        other => panic!("expected an unknown-dependency fault, got {:?}", other.is_ok()),
    }
}

#[test]
fn test_get_dependents() {
    let charts = vec![
        create_chart("root", None),
        create_chart("child1", Some(vec!["root".to_string()])),
        create_chart("child2", Some(vec!["root".to_string()])),
        create_chart("grandchild", Some(vec!["child1".to_string()])),
    ];

    let deps_root = get_dependents(&charts, "root").unwrap();
    assert_eq!(deps_root.len(), 2);
    let names_root: Vec<&str> = deps_root.iter().map(|c| c.name.as_str()).collect();
    assert!(names_root.contains(&"child1"));
    assert!(names_root.contains(&"child2"));

    let deps_child1 = get_dependents(&charts, "child1").unwrap();
    assert_eq!(deps_child1.len(), 1);
    assert_eq!(deps_child1[0].name, "grandchild");

    let deps_grandchild = get_dependents(&charts, "grandchild").unwrap();
    assert!(deps_grandchild.is_empty());
}

#[test]
fn test_get_dependents_sorted_by_name() {
    let charts = vec![
        create_chart("root", None),
        create_chart("zeta", Some(vec!["root".to_string()])),
        create_chart("alpha", Some(vec!["root".to_string()])),
        create_chart("mid", Some(vec!["root".to_string()])),
    ];
    let deps = get_dependents(&charts, "root").unwrap();
    let names: Vec<&str> = deps.iter().map(|c| c.name.as_str()).collect();
    assert_eq!(names, vec!["alpha", "mid", "zeta"]);
}

#[test]
fn test_get_dependents_unknown_target() {
    let charts = vec![create_chart("a", None)];
    let r = get_dependents(&charts, "nope");
    assert!(matches!(r, Err(vesshelm::dag::DagError::ChartNotFound { .. })));
}

#[test]
fn test_add_repository_empty() {
    let repo = Repository {
        name: "test-repo".to_string(),
        url: "https://example.com".to_string(),
        repo_type: RepoType::Helm,
    };
    let content = ConfigUpdater::add_repository("", &repo);
    assert!(content.contains("repositories:"));
    assert!(content.contains("- name: test-repo"));
    assert!(content.contains("url: https://example.com"));
}

#[test]
fn test_add_repository_append() {
    let base = "repositories:\n  - name: existing\n    url: http://ex.com".to_string();
    let repo = Repository {
        name: "new-repo".to_string(),
        url: "git://github.com/foo/bar.git".to_string(),
        repo_type: RepoType::Git,
    };
    let content = ConfigUpdater::add_repository(&base, &repo);
    assert!(content.contains("type: git"));
    let lines: Vec<&str> = content.lines().collect();
    assert!(lines.len() > 3);
}

#[test]
fn test_add_chart() {
    let base = "charts:\n".to_string();
    let chart = ChartConfig {
        name: "my-chart".to_string(),
        repo_name: "my-repo".to_string(),
        namespace: "default".to_string(),
        version: Some("1.2.3".to_string()),
        chart_path: Some("charts/foo".to_string()),
        comment: None,
    };
    let content = ConfigUpdater::add_chart(&base, &chart);
    assert!(content.contains("- name: my-chart"));
    assert!(content.contains("repo_name: my-repo"));
    assert!(content.contains("version: 1.2.3"));
    assert!(content.contains("chart_path: charts/foo"));
}

#[test]
fn test_verify_regex_replacement() {
    let yaml_content = r#"
charts:
  - name: chart1
    repo_name: repo1
    version: 1.0.0 # comment
    other: field
  - name: chart2
    version: 2.0.0
    # comment line
    some: value
"#;

    let updated =
        ConfigUpdater::replace_chart_version_in_text(yaml_content, "chart1", "1.0.1")
            .expect("replacement failed");

    assert!(updated.contains("version: 1.0.1 # comment"));
    assert!(updated.contains("version: 2.0.0"));
    assert!(updated.contains("other: field"));

    let yaml_content_2 = r#"
charts:
  - name: my-chart
    version: v1.2.3
  - name: other
    version: 1.0.0
"#;

    let updated_2 =
        ConfigUpdater::replace_chart_version_in_text(yaml_content_2, "my-chart", "v1.2.4")
            .expect("replacement failed");
    assert!(updated_2.contains("version: v1.2.4"));
    assert!(!updated_2.contains("version: v1.2.3"));
}

#[test]
fn test_replace_version_chart_not_found() {
    let doc = "charts:\n  - name: a\n    version: 1.0.0\n";
    let r = ConfigUpdater::replace_chart_version_in_text(doc, "missing", "2.0.0");
    assert_eq!(r.unwrap_err(), UpdateError::ChartNotFound);
}

#[test]
fn test_replace_version_field_missing() {
    let doc = "charts:\n  - name: a\n    namespace: default\n";
    let r = ConfigUpdater::replace_chart_version_in_text(doc, "a", "2.0.0");
    assert_eq!(r.unwrap_err(), UpdateError::VersionNotFound);
}

#[test]
fn test_replace_version_crossed_boundary() {
    // chart1 carries no version of its own; the first version field below
    // belongs to chart2 and must not be edited
    let doc = "charts:\n  - name: chart1\n    repo_name: r\n  - name: chart2\n    version: 2.0.0\n";
    let r = ConfigUpdater::replace_chart_version_in_text(doc, "chart1", "9.9.9");
    assert_eq!(r.unwrap_err(), UpdateError::CrossedBoundary);
}

#[test]
fn test_remove_chart_round_trip() {
    let original = "charts:\n  - name: keep\n    namespace: default\n    version: 1.0.0\n\ndestinations:\n  - name: default\n    path: ./charts\n";
    let chart = ChartConfig {
        name: "temp".to_string(),
        repo_name: "stable".to_string(),
        namespace: "edge".to_string(),
        version: Some("0.1.0".to_string()),
        chart_path: None,
        comment: None,
    };
    let inserted = ConfigUpdater::add_chart(original, &chart);
    assert!(inserted.contains("- name: temp"));
    let restored = ConfigUpdater::remove_chart_in_text(&inserted, "temp", "edge");
    assert_eq!(restored, original);
}

#[test]
fn test_remove_chart_absent_is_not_an_error() {
    let doc = "charts:\n  - name: a\n    namespace: default\n";
    let out = ConfigUpdater::remove_chart_in_text(doc, "nope", "default");
    assert_eq!(out, doc);
}

#[test]
fn test_remove_chart_keeps_section_separator() {
    let doc = "charts:\n  - name: a\n    namespace: default\n\n# the destinations\ndestinations:\n  - name: default\n    path: ./charts\n";
    let out = ConfigUpdater::remove_chart_in_text(doc, "a", "default");
    assert_eq!(
        out,
        "charts:\n\n# the destinations\ndestinations:\n  - name: default\n    path: ./charts\n"
    );
}

#[test]
fn test_is_sops_encrypted() {
    let sops_content = r#"
key: ENC[AES256_GCM,data:...]
sops:
    mac: ENC[AES256_GCM,data:...]
    version: 3.7.1
"#;
    assert!(is_sops_encrypted(sops_content));

    let plain_content = r#"
key: value
sops_no_mac:
    version: 1.0
"#;
    assert!(!is_sops_encrypted(plain_content));
}

#[test]
fn test_validate_only_args_all_exist() {
    let charts = vec!["foo", "bar", "baz"];
    let only = vec!["foo".to_string(), "baz".to_string()];
    assert!(validate_only_args(&charts, &only).is_ok());
}

#[test]
fn test_validate_only_args_missing_one() {
    let charts = vec!["foo", "bar"];
    let only = vec!["foo".to_string(), "missing".to_string()];
    let err = validate_only_args(&charts, &only).unwrap_err();
    assert_eq!(
        err.to_string(),
        "The following charts specified in --only do not exist: missing"
    );
}

#[test]
fn test_validate_only_args_missing_multiple() {
    let charts = vec!["foo"];
    let only = vec!["missing1".to_string(), "missing2".to_string()];
    let err = validate_only_args(&charts, &only).unwrap_err();
    assert_eq!(
        err.to_string(),
        "The following charts specified in --only do not exist: missing1, missing2"
    );
}

#[test]
fn test_validate_only_args_empty_only_list() {
    let charts = vec!["foo"];
    let only = vec![];
    assert!(validate_only_args(&charts, &only).is_ok());
}

#[test]
fn test_derive_git() {
    let url = "https://github.com/kubernetes-csi/csi-driver-smb";
    let path = "charts/v1.19.1/csi-driver-smb";
    let (repo, chart) = derive_git(url, path);
    assert_eq!(repo, "csi-driver-smb");
    assert_eq!(chart, "csi-driver-smb");
}

#[test]
fn test_map_package_helm() {
    let pkg = Package {
        name: "chart-helm".to_string(),
        version: "1.2.3".to_string(),
        repository: vesshelm::source::Repository {
            name: "repo".to_string(),
            url: "https://charts.example.com".to_string(),
        },
    };

    let details = map_package_to_details(pkg, None);
    assert_eq!(details.repo_type, RepoType::Helm);
    assert_eq!(details.repo_url, "https://charts.example.com");
}

#[test]
fn test_map_package_oci() {
    let pkg = Package {
        name: "chart-oci".to_string(),
        version: "0.0.1".to_string(),
        repository: vesshelm::source::Repository {
            name: "repo".to_string(),
            url: "oci://registry.example.com/repo/chart-oci".to_string(),
        },
    };

    let details = map_package_to_details(pkg, None);
    assert_eq!(details.repo_type, RepoType::Oci);
    assert_eq!(details.repo_url, "oci://registry.example.com/repo/chart-oci");
}

#[test]
fn test_derive_oci() {
    let url = "oci://code.forgejo.org/forgejo-helm/forgejo";
    let (repo_name, repo_url, chart_name) = derive_oci(url);
    assert_eq!(repo_name, "forgejo");
    assert_eq!(chart_name, "forgejo");
    assert_eq!(repo_url, "oci://code.forgejo.org/forgejo-helm");
}

#[test]
fn test_parse_ah_url_valid() {
    let url = "https://artifacthub.io/packages/helm/gissilabs/vaultwarden";
    let (repo, chart) = parse_ah_url(url).unwrap();
    assert_eq!(repo, "gissilabs");
    assert_eq!(chart, "vaultwarden");
}

#[test]
fn test_parse_ah_url_invalid() {
    let url = "https://google.com";
    assert!(parse_ah_url(url).is_err());
}

#[test]
fn test_get_source_mapping() {
    assert_eq!(get_source(0), Some(SourceKind::ArtifactHub));
    assert_eq!(get_source(1), Some(SourceKind::Git));
    assert_eq!(get_source(2), Some(SourceKind::Oci));
    assert_eq!(get_source(3), None);
}

#[test]
fn test_parse_version() {
    assert_eq!(parse_version("1.2.3").unwrap(), semver::Version::new(1, 2, 3));
    assert_eq!(parse_version("v1.2.3").unwrap(), semver::Version::new(1, 2, 3));
    assert!(parse_version("invalid").is_err());
}

#[test]
fn test_version_comparison() {
    let v1 = parse_version("1.18.4").unwrap();
    let v2 = parse_version("1.19.0-pre.3").unwrap();
    assert!(v2 > v1);
    assert!(v1 <= v2);

    let v3 = parse_version("1.19.2").unwrap();
    let v4 = parse_version("v1.19.2").unwrap();
    assert_eq!(v3, v4);
    assert!(v3 <= v4);
}

#[test]
fn test_is_update_available_semver_order() {
    // by semantic-version order 1.9.0 is older than 1.10.0, although the
    // raw strings differ either way
    assert!(!is_update_available("1.10.0", "1.9.0"));
    assert!(is_update_available("1.9.0", "1.10.0"));
}

#[test]
fn test_is_update_available_v_prefix() {
    // a leading `v` is dropped before comparing: equal versions, no update
    assert!(!is_update_available("v1.19.2", "1.19.2"));
}

#[test]
fn test_is_update_available_fallback() {
    // not semantic versions: plain string inequality decides
    assert!(is_update_available("devel", "nightly"));
    assert!(!is_update_available("devel", "devel"));
}

#[test]
fn test_interpolate_variables() {
    let chart = create_chart_full("my-chart", Some("stable"), Some("1.0.0"), "my-ns");
    let dest = "./charts/my-chart";
    let template = "upgrade {{ name }} {{ destination }} -n {{ namespace }} --version {{ version }}";

    let result = interpolate_variables(template, &chart, dest);
    assert_eq!(
        result,
        "upgrade my-chart ./charts/my-chart -n my-ns --version 1.0.0"
    );
}

fn create_chart_full(name: &str, repo: Option<&str>, version: Option<&str>, ns: &str) -> Chart {
    Chart {
        name: name.to_string(),
        repo_name: repo.map(|s| s.to_string()),
        version: version.map(|s| s.to_string()),
        namespace: ns.to_string(),
        dest: None,
        chart_path: None,
        no_sync: false,
        no_deploy: false,
        comment: None,
        values_files: None,
        helm_args_append: None,
        helm_args_override: None,
        depends: None,
    }
}

#[test]
fn test_construct_helm_args_override() {
    let mut chart = create_chart_full("test", Some("test"), Some("1.0.0"), "default");
    chart.helm_args_append = Some("--ignore-this".to_string());
    chart.helm_args_override = Some("override".to_string());
    let global = vesshelm::config::HelmConfig {
        args: "default".to_string(),
        diff_enabled: false,
        diff_args: None,
    };

    let result = construct_helm_args(&chart, &global);
    assert_eq!(result, "override");
}

#[test]
fn test_construct_helm_args_append() {
    let mut chart = create_chart_full("test", Some("test"), Some("1.0.0"), "default");
    chart.helm_args_append = Some("--extra".to_string());
    let global = vesshelm::config::HelmConfig {
        args: "default".to_string(),
        diff_enabled: false,
        diff_args: None,
    };

    let result = construct_helm_args(&chart, &global);
    assert_eq!(result, "default --extra");
}

#[test]
fn test_take_ownership_flag_logic() {
    let mut args = "upgrade my-release".to_string();
    let take_ownership = true;

    if take_ownership {
        args.push_str(" --take-ownership");
    }

    assert_eq!(args, "upgrade my-release --take-ownership");
}

#[test]
fn test_diff_no_change_detection() {
    // nothing but color codes and whitespace means no change
    assert!(diff_indicates_no_change("\u{1b}[31m\u{1b}[0m  \n"));
    assert!(diff_indicates_no_change(""));
    assert!(!diff_indicates_no_change("\u{1b}[32m+ replicas: 2\u{1b}[0m"));
}

#[test]
fn test_validate_config_rules() {
    let config = Config {
        repositories: vec![Repository {
            name: "stable".to_string(),
            url: "https://charts.example.com".to_string(),
            repo_type: RepoType::Helm,
        }],
        charts: vec![create_chart_full("a", Some("stable"), Some("1.0.0"), "default")],
        destinations: vec![Destination {
            name: "default".to_string(),
            path: "./charts".to_string(),
        }],
        helm: None,
    };
    assert!(validate_config(&config).is_ok());

    let mut dup = config;
    dup.charts.push(create_chart_full("a", Some("stable"), Some("1.0.0"), "default"));
    match validate_config(&dup) {
        Err(ConfigError::DuplicateChart { name, namespace }) => {
            assert_eq!(name, "a");
            assert_eq!(namespace, "default");
        }
        _ => panic!("expected a duplicate-chart fault"),
    }

    dup.charts.pop();
    dup.charts.push(create_chart_full("b", Some("ghost"), Some("1.0.0"), "default"));
    assert!(matches!(
        validate_config(&dup),
        Err(ConfigError::ChartRepoNotFound { .. })
    ));
}

#[test]
fn test_lockfile_get_and_update() {
    let mut lock = vesshelm::lock::Lockfile::default();
    assert!(lock.get("nginx", "stable").is_none());
    lock.update("nginx".to_string(), "stable".to_string(), "1.0.0".to_string());
    let entry = lock.get("nginx", "stable").unwrap();
    assert_eq!(entry.version, "1.0.0");
    lock.update("nginx".to_string(), "stable".to_string(), "2.0.0".to_string());
    assert_eq!(lock.charts.len(), 1);
    assert_eq!(lock.get("nginx", "stable").unwrap().version, "2.0.0");
}
