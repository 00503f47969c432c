use std::path::PathBuf;

use eks::kubeconfig::{
    search_paths, select_context, set_current_context, temp_suffix, Candidate, ClusterSpec, Content, ContextSpec,
    Error, KubeConfig, NamedCluster, NamedContext,
};
use eks::yaml::Yaml;
use serde_yaml_ng::Value;

fn parsed(text: &str) -> Value {
    serde_yaml_ng::from_str(text).unwrap()
}

#[test]
fn selecting_a_context_changes_nothing_else() {
    let before = "kind: Config\ncurrent-context: a\nport: 8080\nratio: 0.5\nlist:\n- 1\n- x\n\
                  flag: true\nnothing: null\n7: seven\nusers:\n- name: u\n  user: !exec {command: aws}\n";
    let rewritten = set_current_context(before, "b").unwrap();
    assert_eq!(rewritten.previous.as_deref(), Some("a"));

    let mut expected = parsed(before);
    expected["current-context"] = Value::String("b".to_owned());
    assert_eq!(parsed(&rewritten.text), expected);

    // In its place, not at the end.
    let keys = |value: &Value| {
        value
            .as_mapping()
            .unwrap()
            .keys()
            .cloned()
            .collect::<Vec<_>>()
    };
    assert_eq!(keys(&parsed(&rewritten.text)), keys(&parsed(before)));
}

#[test]
fn a_file_that_selects_nothing_gains_the_entry() {
    for before in ["", "# nothing\n", "null\n", "!tag null\n"] {
        let rewritten = set_current_context(before, "b").unwrap();
        assert_eq!(rewritten.previous, None);
        assert_eq!(rewritten.text, "current-context: b\n");
    }
    let rewritten = set_current_context("kind: Config\n", "b").unwrap();
    assert_eq!(rewritten.text, "kind: Config\ncurrent-context: b\n");
}

#[test]
fn a_selection_that_is_not_a_string_is_replaced_and_not_reported() {
    let rewritten = set_current_context("current-context: 7\n", "b").unwrap();
    assert_eq!(rewritten.previous, None);
    assert_eq!(rewritten.text, "current-context: b\n");
    // A tagged one is a string still.
    let rewritten = set_current_context("current-context: !old a\n", "b").unwrap();
    assert_eq!(rewritten.previous.as_deref(), Some("a"));
}

#[test]
fn a_tagged_root_keeps_its_tag() {
    let rewritten = set_current_context("!config\ncurrent-context: a\n", "b").unwrap();
    assert_eq!(rewritten.previous.as_deref(), Some("a"));
    assert!(rewritten.text.starts_with("!config"), "{}", rewritten.text);
}

#[test]
fn what_is_not_a_kubeconfig_is_refused() {
    assert_eq!(
        set_current_context("- a\n- b\n", "b").unwrap_err(),
        "kubeconfig root is not a mapping"
    );
    let problem = set_current_context("a: [", "b").unwrap_err();
    assert_eq!(
        problem,
        serde_yaml_ng::from_str::<Value>("a: [").unwrap_err().to_string()
    );
}

#[test]
fn every_failure_has_its_words() {
    type Failure = Error<(), ()>;
    let path = || "/home/u/.kube/config".to_owned();
    for (failure, words) in [
        (
            Failure::NotFound {
                searched: vec!["/a".to_owned(), "/b".to_owned()],
            },
            "no kubeconfig found (looked at /a, /b)",
        ),
        (
            Failure::NotFound {
                searched: Vec::new(),
            },
            "no kubeconfig found (looked at <nothing>)",
        ),
        (
            Failure::NoHomeDirectory,
            "could not determine your home directory; set KUBECONFIG explicitly",
        ),
        (
            Failure::Read {
                path: path(),
                source: (),
            },
            "failed to read /home/u/.kube/config",
        ),
        (
            Failure::Write {
                path: path(),
                source: (),
            },
            "failed to write /home/u/.kube/config",
        ),
        (
            Failure::Parse {
                path: path(),
                source: (),
            },
            "/home/u/.kube/config is not valid kubeconfig YAML",
        ),
        (
            Failure::UnknownContext {
                name: "gh\"ost".to_owned(),
            },
            "no context named \"gh\\\"ost\"",
        ),
    ] {
        assert_eq!(failure.message(), words);
    }
}

fn candidate(name: &str, content: Content<i32, &'static str>) -> Candidate<i32, &'static str> {
    Candidate {
        path: PathBuf::from(name),
        shown: name.to_owned(),
        content,
    }
}

fn config(current: Option<&str>, names: &[(&str, &str)]) -> KubeConfig {
    let mut config = KubeConfig::default();
    config.current_context = current.map(str::to_owned);
    for (context, cluster) in names {
        config.contexts.push(NamedContext {
            name: (*context).to_owned(),
            context: ContextSpec {
                cluster: (*cluster).to_owned(),
                user: String::new(),
                namespace: None,
            },
        });
        config.clusters.push(NamedCluster {
            name: (*cluster).to_owned(),
            cluster: ClusterSpec {
                server: Some(format!("https://{context}")),
            },
        });
    }
    config
}

#[test]
fn the_first_file_to_say_something_is_the_one_believed() {
    let merged = KubeConfig::load_from(vec![
        candidate("a", Content::Missing),
        candidate("b", Content::Parsed(config(None, &[("x", "1"), ("x", "2")]))),
        candidate("c", Content::Parsed(config(Some("y"), &[("y", "1"), ("x", "3")]))),
        candidate("d", Content::Parsed(config(Some("x"), &[]))),
    ])
    .unwrap();
    assert_eq!(merged.current_context.as_deref(), Some("y"));
    let clusters: Vec<(String, String)> = merged
        .resolved_contexts()
        .into_iter()
        .map(|context| (context.name, context.cluster_name))
        .collect();
    assert_eq!(
        clusters,
        [
            ("x".to_owned(), "1".to_owned()),
            ("y".to_owned(), "1".to_owned())
        ]
    );
    // The cluster both point at is the one the earlier file defines.
    let current = merged.current().unwrap();
    assert!(current.is_current);
    assert_eq!(current.server.as_deref(), Some("https://x"));
    assert!(merged.has_context("x"));
    assert!(!merged.has_context("1"));
    let sources: Vec<PathBuf> = ["b", "c", "d"].map(PathBuf::from).into();
    assert_eq!(merged.sources, sources);
}

#[test]
fn the_first_file_that_cannot_be_used_stops_the_search() {
    let failed = KubeConfig::load_from(vec![
        candidate("a", Content::Parsed(config(None, &[]))),
        candidate("b", Content::Unreadable(13)),
        candidate("c", Content::Malformed("bad")),
    ]);
    assert!(
        matches!(failed, Err(Error::Read { path, source: 13 }) if path == "b"),
        "the unreadable file comes first"
    );
    let failed = KubeConfig::load_from(vec![candidate("c", Content::Malformed("bad"))]);
    assert!(matches!(failed, Err(Error::Parse { path, source: "bad" }) if path == "c"));
    let failed = KubeConfig::load_from::<i32, &'static str>(Vec::new());
    assert!(matches!(failed, Err(Error::NotFound { searched }) if searched.is_empty()));
}

#[test]
fn the_home_directory_is_only_asked_where_nothing_is_listed() {
    type Paths = Result<Vec<PathBuf>, Error<(), ()>>;
    let home = || Some(PathBuf::from("/home/u/.kube/config"));
    let listed: Paths = search_paths(vec![PathBuf::from("/a")], home());
    assert_eq!(listed.unwrap(), [PathBuf::from("/a")]);
    let fallback: Paths = search_paths(Vec::new(), home());
    assert_eq!(fallback.unwrap(), [PathBuf::from("/home/u/.kube/config")]);
    let lost: Paths = search_paths(Vec::new(), None);
    assert!(matches!(lost, Err(Error::NoHomeDirectory)));
}

#[test]
fn a_temporary_file_is_marked_by_its_process() {
    assert_eq!(temp_suffix(4242), ".eks-tmp.4242");
}

fn text(words: &str) -> Yaml {
    Yaml::Text(words.to_owned())
}

/// The strings of a mapping of strings.
fn strings(document: &Yaml) -> Vec<(&str, &str)> {
    let Yaml::Mapping(entries) = document else {
        panic!("expected a mapping");
    };
    entries
        .iter()
        .map(|entry| match entry {
            (Yaml::Text(key), Yaml::Text(value)) => (key.as_str(), value.as_str()),
            _ => panic!("expected strings"),
        })
        .collect()
}

#[test]
fn a_context_is_selected_in_the_document_itself() {
    let document = Yaml::Mapping(vec![
        (text("kind"), text("Config")),
        (text("current-context"), text("a")),
        (text("z"), text("last")),
    ]);
    let selected = select_context(document, "b").unwrap();
    assert_eq!(selected.previous.as_deref(), Some("a"));
    assert_eq!(
        strings(&selected.document),
        [("kind", "Config"), ("current-context", "b"), ("z", "last")]
    );

    let selected = select_context(Yaml::Null, "b").unwrap();
    assert_eq!(selected.previous, None);
    assert_eq!(strings(&selected.document), [("current-context", "b")]);

    assert!(select_context(text("a"), "b").is_none());
    assert!(select_context(Yaml::Other(Value::Bool(true)), "b").is_none());
}
