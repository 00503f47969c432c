//! Reading and (carefully) rewriting `kubeconfig` files.
//!
//! A kubeconfig is a user's most annoying file to rebuild, so nothing may be
//! lost. It is read into a typed view, but a rewrite goes through the untyped
//! YAML tree, so that fields not modelled here (exec plugins, extensions, proxy
//! settings) survive untouched.
//!
//! Finding, reading and replacing the files belongs to the program around this
//! library, as does turning YAML into a [`KubeConfig`].

use vstd::prelude::*;
use vstd::string::*;

use crate::k8s::pods::held;
use crate::text;
use crate::text::{debug_form, decimal_nat, is_blank, joined, texts};
use crate::yaml;
use crate::yaml::{
    document, document_text, string_under, tags_of, untagged, with_string, Tree, Yaml,
};

verus! {

/// A path of the file system, carried through.
#[verifier::external_type_specification]
#[verifier::external_body]
pub struct ExPathBuf(std::path::PathBuf);

/// Failures that can occur while locating, parsing, or rewriting a kubeconfig.
///
/// `R` is what reading or writing a file says went wrong, and `P` what parsing
/// one does. A path is held as it is shown.
#[derive(Debug)]
pub enum Error<R, P> {
    NotFound { searched: Vec<String> },
    NoHomeDirectory,
    Read { path: String, source: R },
    Write { path: String, source: R },
    Parse { path: String, source: P },
    UnknownContext { name: String },
}

/// Paths as shown in a message.
pub open spec fn paths_text(paths: Seq<Seq<char>>) -> Seq<char> {
    if paths.len() == 0 {
        "<nothing>"@
    } else {
        joined(paths, ", "@)
    }
}

fn format_paths(paths: &Vec<String>) -> (text: String)
    ensures
        text@ == paths_text(texts(paths@)),
{
    assert(texts(paths@).len() == paths@.len());
    if paths.len() == 0 {
        return "<nothing>".to_owned();
    }
    text::join(paths, ", ")
}

impl<R, P> Error<R, P> {
    /// What [`Error::message`] says.
    pub open spec fn wording(self) -> Seq<char> {
        match self {
            Error::NotFound { searched } => "no kubeconfig found (looked at "@ + paths_text(
                texts(searched@),
            ) + ")"@,
            Error::NoHomeDirectory =>
                "could not determine your home directory; set KUBECONFIG explicitly"@,
            Error::Read { path, source } => "failed to read "@ + path@,
            Error::Write { path, source } => "failed to write "@ + path@,
            Error::Parse { path, source } => path@ + " is not valid kubeconfig YAML"@,
            Error::UnknownContext { name } => "no context named "@ + debug_form(name@),
        }
    }

    /// The failure in words, without what lies behind it.
    pub fn message(&self) -> (message: String)
        ensures
            message@ == self.wording(),
    {
        match self {
            Error::NotFound { searched } => "no kubeconfig found (looked at ".to_owned().concat(
                format_paths(searched).as_str(),
            ).concat(")"),
            Error::NoHomeDirectory =>
                "could not determine your home directory; set KUBECONFIG explicitly".to_owned(),
            Error::Read { path, source: _ } => "failed to read ".to_owned().concat(path.as_str()),
            Error::Write { path, source: _ } => "failed to write ".to_owned().concat(
                path.as_str(),
            ),
            Error::Parse { path, source: _ } => path.clone().concat(
                " is not valid kubeconfig YAML",
            ),
            Error::UnknownContext { name } => "no context named ".to_owned().concat(
                text::quoted(name.as_str()).as_str(),
            ),
        }
    }
}

/// A `contexts[].context` entry.
#[derive(Debug, Clone, PartialEq, Eq)]
pub struct ContextSpec {
    /// Name of the entry in `clusters[]` this context points at.
    pub cluster: String,
    pub user: String,
    /// The namespace a bare `kubectl` call would act on.
    pub namespace: Option<String>,
}

/// A named entry in `contexts[]`.
#[derive(Debug, Clone, PartialEq, Eq)]
pub struct NamedContext {
    pub name: String,
    pub context: ContextSpec,
}

/// A `clusters[].cluster` entry. Only the fields that are displayed are here.
#[derive(Debug, Clone, PartialEq, Eq)]
pub struct ClusterSpec {
    pub server: Option<String>,
}

/// A named entry in `clusters[]`.
#[derive(Debug, Clone, PartialEq, Eq)]
pub struct NamedCluster {
    pub name: String,
    pub cluster: ClusterSpec,
}

/// The subset of a kubeconfig that is read.
#[derive(Debug, Clone)]
pub struct KubeConfig {
    pub current_context: Option<String>,
    pub contexts: Vec<NamedContext>,
    pub clusters: Vec<NamedCluster>,
    /// The files this view was assembled from, in precedence order. Empty when
    /// the config was parsed from a string rather than loaded from disk.
    pub sources: Vec<std::path::PathBuf>,
}

/// Whether there is nothing in a kubeconfig.
pub open spec fn is_empty_config(config: KubeConfig) -> bool {
    &&& config.current_context is None
    &&& config.contexts@.len() == 0
    &&& config.clusters@.len() == 0
    &&& config.sources@.len() == 0
}

impl Default for KubeConfig {
    /// A kubeconfig with nothing in it.
    fn default() -> (config: Self)
        ensures
            is_empty_config(config),
    {
        KubeConfig {
            current_context: None,
            contexts: Vec::new(),
            clusters: Vec::new(),
            sources: Vec::new(),
        }
    }
}

/// A context joined with the cluster it references.
#[derive(Debug, Clone, PartialEq, Eq)]
pub struct ResolvedContext {
    pub name: String,
    pub cluster_name: String,
    pub user: String,
    pub namespace: Option<String>,
    pub server: Option<String>,
    pub is_current: bool,
}

impl ResolvedContext {
    /// The namespace a command should default to when the user names none.
    #[must_use]
    pub fn effective_namespace(&self) -> (namespace: &str)
        ensures
            namespace@ == match self.namespace {
                Some(namespace) => namespace@,
                None => "default"@,
            },
    {
        match &self.namespace {
            Some(namespace) => namespace.as_str(),
            None => "default",
        }
    }
}

/// What came of trying one file of the search path.
pub enum Content<R, P> {
    /// It does not exist.
    Missing,
    /// It could not be read.
    Unreadable(R),
    /// It is not a kubeconfig.
    Malformed(P),
    /// It is this kubeconfig.
    Parsed(KubeConfig),
}

/// One file of the search path.
pub struct Candidate<R, P> {
    /// Where it is.
    pub path: std::path::PathBuf,
    /// The same, as shown to a person.
    pub shown: String,
    /// What came of trying it.
    pub content: Content<R, P>,
}

/// Whether one of these contexts has a name.
pub open spec fn context_named(contexts: Seq<NamedContext>, name: Seq<char>) -> bool {
    exists|i: int| 0 <= i < contexts.len() && (#[trigger] contexts[i]).name@ == name
}

/// Whether one of these clusters has a name.
pub open spec fn cluster_named(clusters: Seq<NamedCluster>, name: Seq<char>) -> bool {
    exists|i: int| 0 <= i < clusters.len() && (#[trigger] clusters[i]).name@ == name
}

/// Contexts with more added, leaving out those whose name is taken.
pub open spec fn contexts_with(have: Seq<NamedContext>, more: Seq<NamedContext>) -> Seq<
    NamedContext,
>
    decreases more.len(),
{
    if more.len() == 0 {
        have
    } else {
        let before = contexts_with(have, more.drop_last());
        if context_named(before, more.last().name@) {
            before
        } else {
            before.push(more.last())
        }
    }
}

/// Clusters with more added, leaving out those whose name is taken.
pub open spec fn clusters_with(have: Seq<NamedCluster>, more: Seq<NamedCluster>) -> Seq<
    NamedCluster,
>
    decreases more.len(),
{
    if more.len() == 0 {
        have
    } else {
        let before = clusters_with(have, more.drop_last());
        if cluster_named(before, more.last().name@) {
            before
        } else {
            before.push(more.last())
        }
    }
}

/// What a merged kubeconfig holds.
#[verifier::ext_equal]
pub struct Merged {
    /// The context the first file to name one names.
    pub current: Option<Seq<char>>,
    /// The contexts, the first of each name.
    pub contexts: Seq<NamedContext>,
    /// The clusters, the first of each name.
    pub clusters: Seq<NamedCluster>,
    /// The files, in order.
    pub sources: Seq<std::path::PathBuf>,
}

impl KubeConfig {
    /// What a kubeconfig holds.
    pub open spec fn holds(self) -> Merged {
        Merged {
            current: held(self.current_context),
            contexts: self.contexts@,
            clusters: self.clusters@,
            sources: self.sources@,
        }
    }
}

/// What the files of a search path add up to: earlier files win, so that a name
/// defined in two files resolves to the first, and the current context comes from
/// the first file that sets it. Files that are missing add nothing.
pub open spec fn merged<R, P>(files: Seq<Candidate<R, P>>) -> Merged
    decreases files.len(),
{
    if files.len() == 0 {
        Merged { current: None, contexts: seq![], clusters: seq![], sources: seq![] }
    } else {
        let before = merged(files.drop_last());
        match files.last().content {
            Content::Parsed(config) => Merged {
                current: if before.current is Some {
                    before.current
                } else {
                    held(config.current_context)
                },
                contexts: contexts_with(before.contexts, config.contexts@),
                clusters: clusters_with(before.clusters, config.clusters@),
                sources: before.sources.push(files.last().path),
            },
            _ => before,
        }
    }
}

/// Whether a file stops the search: it is there and cannot be used.
pub open spec fn is_broken<R, P>(file: Candidate<R, P>) -> bool {
    file.content is Unreadable || file.content is Malformed
}

/// The place of the first file that is there and cannot be used, or how many
/// files there are where none is.
pub open spec fn first_broken<R, P>(files: Seq<Candidate<R, P>>) -> int
    decreases files.len(),
{
    if files.len() == 0 || is_broken(files[0]) {
        0
    } else {
        1 + first_broken(files.skip(1))
    }
}

/// How the files of a search path are shown.
pub open spec fn shown_paths<R, P>(files: Seq<Candidate<R, P>>) -> Seq<Seq<char>> {
    Seq::new(files.len(), |i: int| files[i].shown@)
}

/// What [`KubeConfig::load_from`] makes of the files of a search path.
pub open spec fn loads<R, P>(
    files: Seq<Candidate<R, P>>,
    loaded: Result<KubeConfig, Error<R, P>>,
) -> bool {
    let broken = first_broken(files);
    if broken < files.len() {
        match files[broken].content {
            Content::Unreadable(source) => match loaded {
                Err(Error::Read { path, source: said }) => path@ == files[broken].shown@ && said
                    == source,
                _ => false,
            },
            Content::Malformed(source) => match loaded {
                Err(Error::Parse { path, source: said }) => path@ == files[broken].shown@ && said
                    == source,
                _ => false,
            },
            _ => false,
        }
    } else if forall|i: int| 0 <= i < files.len() ==> (#[trigger] files[i]).content is Missing {
        match loaded {
            Err(Error::NotFound { searched }) => texts(searched@) == shown_paths(files),
            _ => false,
        }
    } else {
        match loaded {
            Ok(config) => config.holds() == merged(files),
            _ => false,
        }
    }
}

fn has_named_context(contexts: &[NamedContext], name: &str) -> (answer: bool)
    ensures
        answer == context_named(contexts@, name@),
{
    let mut i: usize = 0;
    while i < contexts.len()
        invariant
            i <= contexts@.len(),
            forall|j: int| 0 <= j < i ==> (#[trigger] contexts@[j]).name@ != name@,
        decreases contexts@.len() - i,
    {
        if text::same(contexts[i].name.as_str(), name) {
            assert(contexts@[i as int].name@ == name@);
            return true;
        }
        i = i + 1;
    }
    false
}

fn has_named_cluster(clusters: &[NamedCluster], name: &str) -> (answer: bool)
    ensures
        answer == cluster_named(clusters@, name@),
{
    let mut i: usize = 0;
    while i < clusters.len()
        invariant
            i <= clusters@.len(),
            forall|j: int| 0 <= j < i ==> (#[trigger] clusters@[j]).name@ != name@,
        decreases clusters@.len() - i,
    {
        if text::same(clusters[i].name.as_str(), name) {
            assert(clusters@[i as int].name@ == name@);
            return true;
        }
        i = i + 1;
    }
    false
}

/// Whether a resolved context is what a context entry comes to.
pub open spec fn resolves(resolved: ResolvedContext, entry: NamedContext, config: KubeConfig) -> bool {
    &&& resolved.name@ == entry.name@
    &&& resolved.cluster_name@ == entry.context.cluster@
    &&& resolved.user@ == entry.context.user@
    &&& held(resolved.namespace) == held(entry.context.namespace)
    &&& held(resolved.server) == server_of(config.clusters@, entry.context.cluster@)
    &&& resolved.is_current == (held(config.current_context) == Some(entry.name@))
}

/// The server of the first cluster of a name, if it has one.
pub open spec fn server_of(clusters: Seq<NamedCluster>, name: Seq<char>) -> Option<Seq<char>>
    decreases clusters.len(),
{
    if clusters.len() == 0 {
        None
    } else if clusters[0].name@ == name {
        held(clusters[0].cluster.server)
    } else {
        server_of(clusters.skip(1), name)
    }
}

/// The first context of a name.
pub open spec fn first_named(contexts: Seq<NamedContext>, name: Seq<char>) -> Option<NamedContext>
    decreases contexts.len(),
{
    if contexts.len() == 0 {
        None
    } else if contexts[0].name@ == name {
        Some(contexts[0])
    } else {
        first_named(contexts.skip(1), name)
    }
}

/// Whether a context found by name is what the first context of that name comes
/// to, and none is found where there is none.
pub open spec fn finds(found: Option<ResolvedContext>, config: KubeConfig, name: Seq<char>) -> bool {
    match (found, first_named(config.contexts@, name)) {
        (Some(found), Some(entry)) => resolves(found, entry, config),
        (None, None) => true,
        _ => false,
    }
}

fn copy_of(original: &Option<String>) -> (copied: Option<String>)
    ensures
        held(copied) == held(*original),
{
    match original {
        Some(original) => Some(original.clone()),
        None => None,
    }
}

impl KubeConfig {
    /// Parse a single kubeconfig document from YAML, given what reading the YAML
    /// as a kubeconfig comes to.
    ///
    /// An empty file is a legitimate (if useless) kubeconfig; reading it would
    /// otherwise be rejected as a null document.
    pub fn parse<E>(yaml: &str, document: Result<Self, E>) -> (parsed: Result<Self, E>)
        ensures
            if is_blank(yaml@) {
                parsed is Ok && is_empty_config(parsed->Ok_0)
            } else {
                parsed == document
            },
    {
        if text::blank(yaml) {
            return Ok(KubeConfig::default());
        }
        document
    }

    /// Merge the files of a search path, in order. Missing files are skipped so a
    /// stale entry on the path does not break anything; one that is there and
    /// cannot be used does.
    pub fn load_from<R, P>(files: Vec<Candidate<R, P>>) -> (loaded: Result<Self, Error<R, P>>)
        ensures
            loads(files@, loaded),
    {
        let mut left = files;
        let ghost all = left@;
        let count = left.len();
        let mut config = KubeConfig::default();
        let mut searched: Vec<String> = Vec::new();
        let mut found_any = false;
        let mut done: usize = 0;
        assert(all.skip(0) =~= all);
        assert(all.take(0) =~= seq![]);
        assert(config.holds() =~= merged(all.take(0)));
        assert(texts(searched@) =~= shown_paths(all.take(0)));
        while done < count
            invariant
                all == files@,
                count == all.len(),
                done <= count,
                left@ == all.skip(done as int),
                first_broken(all) == done + first_broken(all.skip(done as int)),
                config.holds() == merged(all.take(done as int)),
                texts(searched@) == shown_paths(all.take(done as int)),
                found_any == !(forall|i: int|
                    0 <= i < done ==> (#[trigger] all[i]).content is Missing),
            decreases count - done,
        {
            let ghost ahead = all.skip(done as int);
            let ghost upto = all.take(done + 1);
            assert(ahead[0] == all[done as int]);
            assert(ahead.skip(1) =~= all.skip(done + 1));
            assert(upto.drop_last() =~= all.take(done as int));
            assert(upto.last() == all[done as int]);
            let file = left.remove(0);
            assert(file == all[done as int]);
            assert(left@ =~= all.skip(done + 1));
            let ghost had = searched@;
            let ghost name = file.shown@;
            assert(texts(had).len() == had.len());
            assert(shown_paths(all.take(done as int)).len() == done);
            let Candidate { path, shown, content } = file;
            match content {
                Content::Missing => {
                    searched.push(shown);
                },
                Content::Unreadable(source) => {
                    return Err(Error::Read { path: shown, source });
                },
                Content::Malformed(source) => {
                    return Err(Error::Parse { path: shown, source });
                },
                Content::Parsed(parsed) => {
                    found_any = true;
                    assert(!(all[done as int].content is Missing));
                    searched.push(shown);
                    config = config.absorb(parsed, path);
                },
            }
            assert(texts(searched@) =~= texts(had).push(name));
            assert(shown_paths(upto) =~= shown_paths(all.take(done as int)).push(name));
            done = done + 1;
        }
        assert(all.take(done as int) =~= all);
        assert(first_broken(all.skip(done as int)) == 0);
        if !found_any {
            return Err(Error::NotFound { searched });
        }
        Ok(config)
    }

    /// Add what another file says, where nothing was said before.
    fn absorb(self, parsed: KubeConfig, path: std::path::PathBuf) -> (both: Self)
        ensures
            both.holds() == (Merged {
                current: if held(self.current_context) is Some {
                    held(self.current_context)
                } else {
                    held(parsed.current_context)
                },
                contexts: contexts_with(self.contexts@, parsed.contexts@),
                clusters: clusters_with(self.clusters@, parsed.clusters@),
                sources: self.sources@.push(path),
            }),
    {
        let current_context = match self.current_context {
            Some(current) => Some(current),
            None => parsed.current_context,
        };
        let mut contexts = self.contexts;
        let ghost have = contexts@;
        let mut more = parsed.contexts;
        let ghost new = more@;
        let count = more.len();
        let mut done: usize = 0;
        assert(new.skip(0) =~= new);
        assert(new.take(0) =~= seq![]);
        while done < count
            invariant
                count == new.len(),
                done <= count,
                more@ == new.skip(done as int),
                contexts@ == contexts_with(have, new.take(done as int)),
            decreases count - done,
        {
            let context = more.remove(0);
            assert(more@ =~= new.skip(done + 1));
            assert(new.take(done + 1).drop_last() =~= new.take(done as int));
            if !has_named_context(&contexts, context.name.as_str()) {
                contexts.push(context);
            }
            done = done + 1;
        }
        assert(new.take(done as int) =~= new);
        let mut clusters = self.clusters;
        let ghost had = clusters@;
        let mut more = parsed.clusters;
        let ghost fresh = more@;
        let count = more.len();
        let mut done: usize = 0;
        assert(fresh.skip(0) =~= fresh);
        assert(fresh.take(0) =~= seq![]);
        while done < count
            invariant
                count == fresh.len(),
                done <= count,
                more@ == fresh.skip(done as int),
                clusters@ == clusters_with(had, fresh.take(done as int)),
            decreases count - done,
        {
            let cluster = more.remove(0);
            assert(more@ =~= fresh.skip(done + 1));
            assert(fresh.take(done + 1).drop_last() =~= fresh.take(done as int));
            if !has_named_cluster(&clusters, cluster.name.as_str()) {
                clusters.push(cluster);
            }
            done = done + 1;
        }
        assert(fresh.take(done as int) =~= fresh);
        let mut sources = self.sources;
        sources.push(path);
        KubeConfig { current_context, contexts, clusters, sources }
    }

    /// The file a write should target: the first file that actually exists.
    #[must_use]
    pub fn primary_source(&self) -> (source: Option<&std::path::PathBuf>)
        ensures
            match source {
                Some(source) => self.sources@.len() > 0 && *source == self.sources@[0],
                None => self.sources@.len() == 0,
            },
    {
        if self.sources.len() > 0 {
            Some(&self.sources[0])
        } else {
            None
        }
    }

    fn resolve(&self, entry: &NamedContext) -> (resolved: ResolvedContext)
        ensures
            resolves(resolved, *entry, *self),
    {
        let is_current = match &self.current_context {
            Some(current) => text::same(current.as_str(), entry.name.as_str()),
            None => false,
        };
        ResolvedContext {
            name: entry.name.clone(),
            cluster_name: entry.context.cluster.clone(),
            user: entry.context.user.clone(),
            namespace: copy_of(&entry.context.namespace),
            server: self.server_named(entry.context.cluster.as_str()),
            is_current,
        }
    }

    fn server_named(&self, name: &str) -> (server: Option<String>)
        ensures
            held(server) == server_of(self.clusters@, name@),
    {
        let ghost all = self.clusters@;
        let mut i: usize = 0;
        assert(all.skip(0) =~= all);
        while i < self.clusters.len()
            invariant
                all == self.clusters@,
                i <= all.len(),
                server_of(all, name@) == server_of(all.skip(i as int), name@),
            decreases all.len() - i,
        {
            assert(all.skip(i as int)[0] == all[i as int]);
            assert(all.skip(i as int).skip(1) =~= all.skip(i + 1));
            if text::same(self.clusters[i].name.as_str(), name) {
                return copy_of(&self.clusters[i].cluster.server);
            }
            i = i + 1;
        }
        None
    }

    /// Every context, joined against `clusters[]`, in file order.
    #[must_use]
    pub fn resolved_contexts(&self) -> (contexts: Vec<ResolvedContext>)
        ensures
            contexts@.len() == self.contexts@.len(),
            forall|i: int|
                0 <= i < contexts@.len() ==> resolves(
                    #[trigger] contexts@[i],
                    self.contexts@[i],
                    *self,
                ),
    {
        let mut contexts: Vec<ResolvedContext> = Vec::new();
        let mut i: usize = 0;
        while i < self.contexts.len()
            invariant
                i <= self.contexts@.len(),
                contexts@.len() == i,
                forall|j: int|
                    0 <= j < i ==> resolves(#[trigger] contexts@[j], self.contexts@[j], *self),
            decreases self.contexts@.len() - i,
        {
            contexts.push(self.resolve(&self.contexts[i]));
            i = i + 1;
        }
        contexts
    }

    /// Look up a single context by name.
    #[must_use]
    pub fn resolved_context(&self, name: &str) -> (found: Option<ResolvedContext>)
        ensures
            finds(found, *self, name@),
    {
        let ghost all = self.contexts@;
        let mut i: usize = 0;
        assert(all.skip(0) =~= all);
        while i < self.contexts.len()
            invariant
                all == self.contexts@,
                i <= all.len(),
                first_named(all, name@) == first_named(all.skip(i as int), name@),
            decreases all.len() - i,
        {
            assert(all.skip(i as int)[0] == all[i as int]);
            assert(all.skip(i as int).skip(1) =~= all.skip(i + 1));
            if text::same(self.contexts[i].name.as_str(), name) {
                return Some(self.resolve(&self.contexts[i]));
            }
            i = i + 1;
        }
        None
    }

    /// The currently selected context, if `current-context` names a real one.
    #[must_use]
    pub fn current(&self) -> (current: Option<ResolvedContext>)
        ensures
            match held(self.current_context) {
                Some(name) => finds(current, *self, name) && (current is Some
                    ==> current->0.is_current),
                None => current is None,
            },
    {
        match &self.current_context {
            Some(name) => {
                proof {
                    lemma_first_named(self.contexts@, name@);
                }
                self.resolved_context(name.as_str())
            },
            None => None,
        }
    }

    /// Whether a context with this exact name exists.
    #[must_use]
    pub fn has_context(&self, name: &str) -> (answer: bool)
        ensures
            answer == context_named(self.contexts@, name@),
    {
        has_named_context(&self.contexts, name)
    }
}

proof fn lemma_first_named(contexts: Seq<NamedContext>, name: Seq<char>)
    ensures
        first_named(contexts, name) matches Some(entry) ==> entry.name@ == name,
        first_named(contexts, name) is Some <==> context_named(contexts, name),
    decreases contexts.len(),
{
    if contexts.len() > 0 {
        let rest = contexts.skip(1);
        lemma_first_named(rest, name);
        if contexts[0].name@ == name {
            assert(context_named(contexts, name));
        }
        if context_named(rest, name) {
            let i = choose|i: int| 0 <= i < rest.len() && (#[trigger] rest[i]).name@ == name;
            assert(contexts[i + 1].name@ == name);
        }
        if context_named(contexts, name) && contexts[0].name@ != name {
            let i = choose|i: int| 0 <= i < contexts.len() && (#[trigger] contexts[i]).name@ == name;
            assert(rest[i - 1].name@ == name);
        }
    }
}

/// A context can be looked up exactly where it exists.
pub proof fn law_lookup_finds_what_exists(
    config: KubeConfig,
    name: Seq<char>,
    found: Option<ResolvedContext>,
)
    requires
        finds(found, config, name),
    ensures
        found is Some <==> context_named(config.contexts@, name),
        found is Some ==> found->0.name@ == name,
{
    lemma_first_named(config.contexts@, name);
}

/// Adding a file keeps every context that was there, in its place: a later file
/// never overrides an earlier one.
pub proof fn law_earlier_contexts_win(have: Seq<NamedContext>, more: Seq<NamedContext>)
    ensures
        have.is_prefix_of(contexts_with(have, more)),
        forall|name: Seq<char>| #[trigger]
            context_named(have, name) ==> first_named(contexts_with(have, more), name)
                == first_named(have, name),
        forall|name: Seq<char>| #[trigger]
            context_named(contexts_with(have, more), name) <==> context_named(have, name)
                || context_named(more, name),
    decreases more.len(),
{
    let both = contexts_with(have, more);
    if more.len() == 0 {
        assert(have.is_prefix_of(both));
        assert forall|name: Seq<char>| !context_named(more, name) by {}
    } else {
        let before = contexts_with(have, more.drop_last());
        law_earlier_contexts_win(have, more.drop_last());
        assert forall|name: Seq<char>| #[trigger] context_named(have, name) implies first_named(
            both,
            name,
        ) == first_named(have, name) by {
            assert(context_named(before, name));
            if both != before {
                lemma_first_named_of_longer(before, more.last(), name);
            }
        }
        assert forall|name: Seq<char>| #[trigger] context_named(both, name) <==> context_named(
            have,
            name,
        ) || context_named(more, name) by {
            lemma_named_of_longer(more.drop_last(), more.last(), name);
            assert(more.drop_last().push(more.last()) =~= more);
            if both != before {
                lemma_named_of_longer(before, more.last(), name);
            }
            assert(context_named(before, name) <==> context_named(have, name) || context_named(
                more.drop_last(),
                name,
            ));
        }
    }
}

/// Adding a file keeps every cluster that was there, in its place, so that a
/// context goes on pointing at the server the earlier file gave it.
pub proof fn law_earlier_clusters_win(have: Seq<NamedCluster>, more: Seq<NamedCluster>)
    ensures
        have.is_prefix_of(clusters_with(have, more)),
        forall|name: Seq<char>| #[trigger]
            cluster_named(have, name) ==> server_of(clusters_with(have, more), name) == server_of(
                have,
                name,
            ),
    decreases more.len(),
{
    let both = clusters_with(have, more);
    if more.len() == 0 {
        assert(have.is_prefix_of(both));
    } else {
        let before = clusters_with(have, more.drop_last());
        law_earlier_clusters_win(have, more.drop_last());
        assert forall|name: Seq<char>| #[trigger] cluster_named(have, name) implies server_of(
            both,
            name,
        ) == server_of(have, name) by {
            let i = choose|i: int| 0 <= i < have.len() && (#[trigger] have[i]).name@ == name;
            assert(before[i] == have[i]);
            assert(cluster_named(before, name));
            if both != before {
                lemma_server_of_longer(before, more.last(), name);
            }
        }
    }
}

proof fn lemma_server_of_longer(clusters: Seq<NamedCluster>, last: NamedCluster, name: Seq<char>)
    requires
        cluster_named(clusters, name),
    ensures
        server_of(clusters.push(last), name) == server_of(clusters, name),
    decreases clusters.len(),
{
    let longer = clusters.push(last);
    assert(longer[0] == clusters[0]);
    if clusters[0].name@ != name {
        let i = choose|i: int| 0 <= i < clusters.len() && (#[trigger] clusters[i]).name@ == name;
        assert(clusters.skip(1)[i - 1].name@ == name);
        assert(longer.skip(1) =~= clusters.skip(1).push(last));
        lemma_server_of_longer(clusters.skip(1), last, name);
    }
}

/// A file that is missing makes no difference: a stale entry on the search path
/// changes nothing.
pub proof fn law_missing_files_change_nothing<R, P>(
    before: Seq<Candidate<R, P>>,
    missing: Candidate<R, P>,
    after: Seq<Candidate<R, P>>,
)
    requires
        missing.content is Missing,
    ensures
        merged(before + seq![missing] + after) == merged(before + after),
    decreases after.len(),
{
    let with = before + seq![missing] + after;
    let without = before + after;
    if after.len() == 0 {
        assert(with.drop_last() =~= before);
        assert(without =~= before);
        assert(with.last() == missing);
    } else {
        law_missing_files_change_nothing(before, missing, after.drop_last());
        assert(with.drop_last() =~= before + seq![missing] + after.drop_last());
        assert(without.drop_last() =~= before + after.drop_last());
        assert(with.last() == after.last());
        assert(without.last() == after.last());
    }
}

/// What earlier files say stands, whatever files follow: the selected context,
/// and every context and cluster.
pub proof fn law_earlier_files_win<R, P>(
    earlier: Seq<Candidate<R, P>>,
    later: Seq<Candidate<R, P>>,
)
    ensures
        merged(earlier).current is Some ==> merged(earlier + later).current == merged(
            earlier,
        ).current,
        merged(earlier).contexts.is_prefix_of(merged(earlier + later).contexts),
        merged(earlier).clusters.is_prefix_of(merged(earlier + later).clusters),
        merged(earlier).sources.is_prefix_of(merged(earlier + later).sources),
    decreases later.len(),
{
    let both = earlier + later;
    if later.len() == 0 {
        assert(both =~= earlier);
        let all = merged(earlier);
        assert(all.contexts.subrange(0, all.contexts.len() as int) =~= all.contexts);
        assert(all.clusters.subrange(0, all.clusters.len() as int) =~= all.clusters);
        assert(all.sources.subrange(0, all.sources.len() as int) =~= all.sources);
    } else {
        let shorter = earlier + later.drop_last();
        law_earlier_files_win(earlier, later.drop_last());
        assert(both.drop_last() =~= shorter);
        match later.last().content {
            Content::Parsed(config) => {
                let had = merged(shorter);
                let first = merged(earlier);
                law_earlier_contexts_win(had.contexts, config.contexts@);
                law_earlier_clusters_win(had.clusters, config.clusters@);
                let contexts = merged(both).contexts;
                let clusters = merged(both).clusters;
                let sources = merged(both).sources;
                assert(contexts.subrange(0, first.contexts.len() as int)
                    =~= had.contexts.subrange(0, first.contexts.len() as int));
                assert(clusters.subrange(0, first.clusters.len() as int)
                    =~= had.clusters.subrange(0, first.clusters.len() as int));
                assert(sources.subrange(0, first.sources.len() as int) =~= had.sources.subrange(
                    0,
                    first.sources.len() as int,
                ));
            },
            _ => {},
        }
    }
}

proof fn lemma_named_of_longer(contexts: Seq<NamedContext>, last: NamedContext, name: Seq<char>)
    ensures
        context_named(contexts.push(last), name) <==> context_named(contexts, name) || last.name@
            == name,
{
    let longer = contexts.push(last);
    if context_named(contexts, name) {
        let i = choose|i: int| 0 <= i < contexts.len() && (#[trigger] contexts[i]).name@ == name;
        assert(longer[i].name@ == name);
    }
    if last.name@ == name {
        assert(longer[contexts.len() as int].name@ == name);
    }
    if context_named(longer, name) && last.name@ != name {
        let i = choose|i: int| 0 <= i < longer.len() && (#[trigger] longer[i]).name@ == name;
        assert(contexts[i].name@ == name);
    }
}

proof fn lemma_first_named_of_longer(
    contexts: Seq<NamedContext>,
    last: NamedContext,
    name: Seq<char>,
)
    requires
        context_named(contexts, name),
    ensures
        first_named(contexts.push(last), name) == first_named(contexts, name),
    decreases contexts.len(),
{
    let longer = contexts.push(last);
    assert(longer[0] == contexts[0]);
    if contexts[0].name@ != name {
        let i = choose|i: int| 0 <= i < contexts.len() && (#[trigger] contexts[i]).name@ == name;
        assert(contexts.skip(1)[i - 1].name@ == name);
        assert(longer.skip(1) =~= contexts.skip(1).push(last));
        lemma_first_named_of_longer(contexts.skip(1), last, name);
    }
}

/// The kubeconfig files to consult, in precedence order: those listed in the
/// environment, or the one in the home directory where none is.
pub fn search_paths<R, P>(
    listed: Vec<std::path::PathBuf>,
    home: Option<std::path::PathBuf>,
) -> (paths: Result<Vec<std::path::PathBuf>, Error<R, P>>)
    ensures
        if listed@.len() > 0 {
            paths == Ok::<Vec<std::path::PathBuf>, Error<R, P>>(listed)
        } else {
            match home {
                Some(home) => paths is Ok && paths->Ok_0@ == seq![home],
                None => paths is Err && paths->Err_0 is NoHomeDirectory,
            }
        },
{
    if listed.len() > 0 {
        return Ok(listed);
    }
    match home {
        Some(home) => {
            let mut paths: Vec<std::path::PathBuf> = Vec::new();
            paths.push(home);
            assert(paths@ =~= seq![home]);
            Ok(paths)
        },
        None => Err(Error::NoHomeDirectory),
    }
}

/// A kubeconfig with another context selected.
#[derive(Debug)]
pub struct Rewritten {
    /// The whole file, as it is to be written.
    pub text: String,
    /// The context that was selected before, if any.
    pub previous: Option<String>,
}

/// A document with a context selected. Nothing at all becomes a mapping.
pub open spec fn repointed(tree: Tree, name: Seq<char>) -> Option<Tree> {
    if untagged(tree) is Null {
        with_string(Tree::Mapping(seq![]), "current-context"@, name)
    } else {
        with_string(tree, "current-context"@, name)
    }
}

/// What [`set_current_context`] makes of the text of a kubeconfig: the document,
/// with nothing but the selected context changed, written out again; or what is
/// wrong with it.
pub open spec fn rewrites(
    raw: Seq<char>,
    name: Seq<char>,
    rewritten: Result<Rewritten, String>,
) -> bool {
    match document(raw) {
        Err(problem) => rewritten is Err && rewritten->Err_0@ == problem,
        Ok(tree) => match repointed(tree, name) {
            None => rewritten is Err && rewritten->Err_0@ == "kubeconfig root is not a mapping"@,
            Some(changed) => match document_text(changed) {
                Err(problem) => rewritten is Err && rewritten->Err_0@ == problem,
                Ok(text) => {
                    &&& rewritten is Ok
                    &&& rewritten->Ok_0.text@ == text
                    &&& held(rewritten->Ok_0.previous) == string_under(tree, "current-context"@)
                },
            },
        },
    }
}

/// Point `current-context` at `name`, given the text of the file.
///
/// Returns the text to write in its place, and the name of the context that was
/// previously selected, if any; or what is wrong with the file.
pub fn set_current_context(raw: &str, name: &str) -> (rewritten: Result<Rewritten, String>)
    ensures
        rewrites(raw@, name@, rewritten),
{
    let document = match yaml::read(raw) {
        Ok(document) => document,
        Err(problem) => {
            return Err(problem);
        },
    };
    match select_context(document, name) {
        None => Err("kubeconfig root is not a mapping".to_owned()),
        Some(selected) => match yaml::write(selected.document) {
            Ok(text) => Ok(Rewritten { text, previous: selected.previous }),
            Err(problem) => Err(problem),
        },
    }
}

/// A document with a context selected.
pub struct Selected {
    /// The whole document.
    pub document: Yaml,
    /// The context that was selected before, if any.
    pub previous: Option<String>,
}

/// Point `current-context` at `name` in a document, and say what it pointed at
/// before. `None` where the root of the document is not a mapping.
///
/// A brand new or empty file is no mapping yet, and becomes one.
pub fn select_context(document: Yaml, name: &str) -> (selected: Option<Selected>)
    ensures
        match selected {
            None => repointed(document@, name@) is None,
            Some(selected) => {
                &&& repointed(document@, name@) == Some(selected.document@)
                &&& held(selected.previous) == string_under(document@, "current-context"@)
            },
        },
{
    let ghost before = document@;
    let mut document = document;
    if document.is_null() {
        document = Yaml::empty_mapping();
        assert(string_under(before, "current-context"@) is None);
        assert(string_under(document@, "current-context"@) is None);
    }
    match document.set_string("current-context", name) {
        None => None,
        Some((document, previous)) => Some(Selected { document, previous }),
    }
}

/// Selecting a context loses nothing: in the document that is written the
/// selected context is the one asked for, every entry of the root but
/// `current-context` is what it was, in its place, and so are the tags in front.
pub proof fn law_rewriting_loses_nothing(tree: Tree, name: Seq<char>)
    requires
        untagged(tree) is Mapping,
    ensures
        ({
            let entries = untagged(tree)->Mapping_0;
            let changed = repointed(tree, name);
            let after = untagged(changed->0)->Mapping_0;
            &&& changed is Some
            &&& untagged(changed->0) is Mapping
            &&& tags_of(changed->0) == tags_of(tree)
            &&& string_under(changed->0, "current-context"@) == Some(name)
            &&& forall|i: int|
                0 <= i < entries.len() && (#[trigger] entries[i]).0 != Tree::Text(
                    "current-context"@,
                ) ==> after[i] == entries[i]
            &&& entries.len() <= after.len() <= entries.len() + 1
        }),
{
    yaml::law_tags_are_kept(tree, "current-context"@, name);
    yaml::law_only_the_key_changes(untagged(tree)->Mapping_0, "current-context"@, name);
}

/// A file with nothing in it gains the one entry, and one that is neither that
/// nor a mapping is refused.
pub proof fn law_only_a_mapping_is_rewritten(tree: Tree, name: Seq<char>)
    ensures
        untagged(tree) is Null ==> repointed(tree, name) == Some(
            Tree::Mapping(seq![(Tree::Text("current-context"@), Tree::Text(name))]),
        ),
        repointed(tree, name) is None <==> !(untagged(tree) is Null || untagged(tree) is Mapping),
{
    let nothing: Seq<(Tree, Tree)> = seq![];
    yaml::lemma_place_of(nothing, "current-context"@);
    assert(nothing.push((Tree::Text("current-context"@), Tree::Text(name))) =~= seq![
        (Tree::Text("current-context"@), Tree::Text(name)),
    ]);
    yaml::law_tags_are_kept(tree, "current-context"@, name);
}

/// What the name of the file a kubeconfig is written to first ends in, before it
/// takes the place of the old one.
#[must_use]
pub fn temp_suffix(process: u32) -> (suffix: String)
    ensures
        suffix@ == ".eks-tmp."@ + decimal_nat(process as nat),
{
    ".eks-tmp.".to_owned().concat(text::show_natural(process as u128).as_str())
}

} // verus!
