use std::path::PathBuf;

use eks::kubeconfig::{
    set_current_context, Candidate, ClusterSpec, Content, ContextSpec, Error, KubeConfig,
    NamedCluster, NamedContext,
};
use serde_yaml_ng::Value;

fn text(value: &Value, key: &str) -> Option<String> {
    value.get(key)?.as_str().map(str::to_owned)
}

fn list(value: &Value, key: &str) -> Vec<Value> {
    value
        .get(key)
        .and_then(Value::as_sequence)
        .cloned()
        .unwrap_or_default()
}

/// A kubeconfig, as its YAML says.
fn document(yaml: &str) -> Result<KubeConfig, serde_yaml_ng::Error> {
    let root: Value = serde_yaml_ng::from_str(yaml)?;
    let mut config = KubeConfig::default();
    config.current_context = text(&root, "current-context");
    for entry in list(&root, "contexts") {
    let context = &entry["context"];
        config.contexts.push(NamedContext {
            name: text(&entry, "name").unwrap(),
            context: ContextSpec {
                cluster: text(context, "cluster").unwrap_or_default(),
                user: text(context, "user").unwrap_or_default(),
                namespace: text(context, "namespace"),
            },
        });
    }
    for entry in list(&root, "clusters") {
        config.clusters.push(NamedCluster {
            name: text(&entry, "name").unwrap(),
            cluster: ClusterSpec {
                server: text(&entry["cluster"], "server"),
            },
        });
    }
    Ok(config)
}

fn parse(yaml: &str) -> KubeConfig {
    KubeConfig::parse(yaml, document(yaml)).unwrap()
}

/// A file of a search path, and what is in it, if it exists.
type File = (PathBuf, Option<String>);

fn file(name: &str, body: &str) -> File {
    (PathBuf::from(name), Some(body.to_owned()))
}

fn missing(name: &str) -> File {
    (PathBuf::from(name), None)
}

fn load_from(files: &[File]) -> Result<KubeConfig, Error<(), String>> {
    let candidates = files
        .iter()
        .map(|(path, body)| Candidate {
            path: path.clone(),
            shown: path.display().to_string(),
            content: match body {
                None => Content::Missing,
                Some(body) => match KubeConfig::parse(body, document(body)) {
                    Ok(config) => Content::Parsed(config),
                    Err(error) => Content::Malformed(error.to_string()),
                },
            },
        })
        .collect();
    KubeConfig::load_from(candidates)
}

const SAMPLE: &str = r"
apiVersion: v1
kind: Config
current-context: arn:aws:eks:us-east-1:111122223333:cluster/prod
clusters:
  - name: arn:aws:eks:us-east-1:111122223333:cluster/prod
    cluster:
      server: https://AAAA.gr7.us-east-1.eks.amazonaws.com
      certificate-authority-data: Zm9v
  - name: arn:aws:eks:us-west-2:111122223333:cluster/staging
    cluster:
      server: https://BBBB.gr7.us-west-2.eks.amazonaws.com
contexts:
  - name: arn:aws:eks:us-east-1:111122223333:cluster/prod
    context:
      cluster: arn:aws:eks:us-east-1:111122223333:cluster/prod
      user: arn:aws:eks:us-east-1:111122223333:cluster/prod
  - name: staging
    context:
      cluster: arn:aws:eks:us-west-2:111122223333:cluster/staging
      user: arn:aws:eks:us-west-2:111122223333:cluster/staging
      namespace: payments
users:
  - name: arn:aws:eks:us-east-1:111122223333:cluster/prod
    user:
      exec:
        apiVersion: client.authentication.k8s.io/v1beta1
        command: aws
";

#[test]
fn parses_contexts_and_clusters() {
    let config = parse(SAMPLE);
    assert_eq!(config.contexts.len(), 2);
    assert_eq!(config.clusters.len(), 2);
    assert_eq!(
        config.current_context.as_deref(),
        Some("arn:aws:eks:us-east-1:111122223333:cluster/prod")
    );
}

#[test]
fn parses_empty_document_as_empty_config() {
    let config = parse("   \n");
    assert!(config.contexts.is_empty());
    assert!(config.current_context.is_none());
}

#[test]
fn resolves_context_against_cluster_server() {
    let config = parse(SAMPLE);
    let staging = config.resolved_context("staging").unwrap();

    assert_eq!(
        staging.server.as_deref(),
        Some("https://BBBB.gr7.us-west-2.eks.amazonaws.com")
    );
    assert_eq!(staging.namespace.as_deref(), Some("payments"));
    assert!(!staging.is_current);
}

#[test]
fn namespace_defaults_to_default_when_unset() {
    let config = parse(SAMPLE);
    let prod = config.current().unwrap();

    assert!(prod.namespace.is_none());
    assert_eq!(prod.effective_namespace(), "default");
}

#[test]
fn current_is_none_when_current_context_dangles() {
    let config = parse("current-context: ghost\ncontexts: []\n");
    assert!(config.current().is_none());
}

#[test]
fn merge_prefers_the_earlier_file_on_name_collisions() {
    let first = file(
        "first.yaml",
        "current-context: alpha\ncontexts:\n  - name: alpha\n    context:\n      cluster: c1\n      user: u1\n",
    );
    let second = file(
        "second.yaml",
        "current-context: beta\ncontexts:\n  - name: alpha\n    context:\n      cluster: OVERWRITTEN\n      user: u9\n  - name: beta\n    context:\n      cluster: c2\n      user: u2\n",
    );

    let merged = load_from(&[first.clone(), second]).unwrap();

    assert_eq!(merged.current_context.as_deref(), Some("alpha"));
    assert_eq!(merged.contexts.len(), 2);
    assert_eq!(merged.resolved_context("alpha").unwrap().cluster_name, "c1");
    assert_eq!(merged.primary_source(), Some(&first.0));
}

#[test]
fn merge_skips_missing_files_but_errors_when_none_exist() {
    let real = file("real.yaml", SAMPLE);
    let ghost = missing("ghost.yaml");

    let merged = load_from(&[ghost.clone(), real]).unwrap();
    assert_eq!(merged.contexts.len(), 2);

    let err = load_from(&[ghost]).unwrap_err();
    assert!(matches!(err, Error::NotFound { .. }));
}

#[test]
fn set_current_context_preserves_unmodelled_fields() {
    let rewrite = set_current_context(SAMPLE, "staging").unwrap();
    assert_eq!(
        rewrite.previous.as_deref(),
        Some("arn:aws:eks:us-east-1:111122223333:cluster/prod")
    );

    let rewritten = rewrite.text;
    // The exec credential plugin is not part of our typed model; losing it
    // would break authentication entirely.
    assert!(rewritten.contains("client.authentication.k8s.io/v1beta1"));
    assert!(rewritten.contains("certificate-authority-data"));

    let reloaded = load_from(&[file("config", &rewritten)]).unwrap();
    assert_eq!(reloaded.current_context.as_deref(), Some("staging"));
    assert_eq!(reloaded.contexts.len(), 2);
}
