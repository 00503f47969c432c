//! What the kubeconfig files of a search path come to together.

use vstd::prelude::*;

use crate::k8s::pods::held;
use crate::kubeconfig::{
    cluster_named, clusters_with, context_named, contexts_with, finds, first_broken, first_named,
    loads, merged, rewrites, server_of, Candidate, Error, KubeConfig, NamedCluster, NamedContext,
    ResolvedContext, Rewritten,
};
use crate::text::texts;
use crate::yaml::{document, place_of, string_of, untagged, Tree};

verus! {

/// The clusters that the files of a search path define, in the order they are
/// written.
pub open spec fn every_cluster<R, P>(files: Seq<Candidate<R, P>>) -> Seq<NamedCluster>
    decreases files.len(),
{
    if files.len() == 0 {
        seq![]
    } else if files.last().content is Parsed {
        every_cluster(files.drop_last()) + files.last().content->Parsed_0.clusters@
    } else {
        every_cluster(files.drop_last())
    }
}

/// The contexts that the files of a search path define, in the order they are
/// written.
pub open spec fn every_context<R, P>(files: Seq<Candidate<R, P>>) -> Seq<NamedContext>
    decreases files.len(),
{
    if files.len() == 0 {
        seq![]
    } else if files.last().content is Parsed {
        every_context(files.drop_last()) + files.last().content->Parsed_0.contexts@
    } else {
        every_context(files.drop_last())
    }
}

/// Whether the cluster at a place is the first of its name.
pub open spec fn first_cluster(
    clusters: Seq<NamedCluster>,
    name: Seq<char>,
    place: int,
) -> bool {
    &&& 0 <= place < clusters.len()
    &&& clusters[place].name@ == name
    &&& forall|i: int| 0 <= i < place ==> (#[trigger] clusters[i]).name@ != name
}

/// Whether the context at a place is the first of its name.
pub open spec fn first_context(
    contexts: Seq<NamedContext>,
    name: Seq<char>,
    place: int,
) -> bool {
    &&& 0 <= place < contexts.len()
    &&& contexts[place].name@ == name
    &&& forall|i: int| 0 <= i < place ==> (#[trigger] contexts[i]).name@ != name
}

/// Whether an optional text says what another does.
pub open spec fn says_as(left: Option<String>, right: Option<String>) -> bool {
    (left is Some <==> right is Some) && (left is Some ==> left->0@ == right->0@)
}

proof fn lemma_server(clusters: Seq<NamedCluster>, name: Seq<char>)
    ensures
        forall|place: int| #[trigger]
            first_cluster(clusters, name, place) ==> server_of(clusters, name)
                == crate::k8s::pods::held(clusters[place].cluster.server),
        !cluster_named(clusters, name) ==> server_of(clusters, name) is None,
    decreases clusters.len(),
{
    if clusters.len() > 0 {
        let rest = clusters.skip(1);
        lemma_server(rest, name);
        assert forall|place: int| #[trigger] first_cluster(clusters, name, place) implies server_of(
            clusters,
            name,
        ) == crate::k8s::pods::held(clusters[place].cluster.server) by {
            if place > 0 {
                assert(clusters[0].name@ != name);
                assert forall|i: int| 0 <= i < place - 1 implies (#[trigger] rest[i]).name@
                    != name by {
                    assert(rest[i] == clusters[i + 1]);
                }
                assert(first_cluster(rest, name, place - 1));
            }
        }
        if !cluster_named(clusters, name) {
            assert(clusters[0].name@ != name);
            assert(!cluster_named(rest, name)) by {
                assert(forall|i: int| 0 <= i < rest.len() ==> rest[i] == clusters[i + 1]);
            }
        }
    }
}

proof fn lemma_context(contexts: Seq<NamedContext>, name: Seq<char>)
    ensures
        forall|place: int| #[trigger]
            first_context(contexts, name, place) ==> first_named(contexts, name) == Some(
                contexts[place],
            ),
        !context_named(contexts, name) ==> first_named(contexts, name) is None,
    decreases contexts.len(),
{
    if contexts.len() > 0 {
        let rest = contexts.skip(1);
        lemma_context(rest, name);
        assert forall|place: int| #[trigger]
            first_context(contexts, name, place) implies first_named(contexts, name) == Some(
            contexts[place],
        ) by {
            if place > 0 {
                assert(contexts[0].name@ != name);
                assert forall|i: int| 0 <= i < place - 1 implies (#[trigger] rest[i]).name@
                    != name by {
                    assert(rest[i] == contexts[i + 1]);
                }
                assert(first_context(rest, name, place - 1));
            }
        }
        if !context_named(contexts, name) {
            assert(contexts[0].name@ != name);
            assert(!context_named(rest, name)) by {
                assert(forall|i: int| 0 <= i < rest.len() ==> rest[i] == contexts[i + 1]);
            }
        }
    }
}

proof fn lemma_servers_join(left: Seq<NamedCluster>, right: Seq<NamedCluster>, name: Seq<char>)
    ensures
        cluster_named(left + right, name) <==> cluster_named(left, name) || cluster_named(
            right,
            name,
        ),
        server_of(left + right, name) == if cluster_named(left, name) {
            server_of(left, name)
        } else {
            server_of(right, name)
        },
    decreases left.len(),
{
    let both = left + right;
    if cluster_named(left, name) {
        let i = choose|i: int| 0 <= i < left.len() && (#[trigger] left[i]).name@ == name;
        assert(both[i].name@ == name);
    }
    if cluster_named(right, name) {
        let i = choose|i: int| 0 <= i < right.len() && (#[trigger] right[i]).name@ == name;
        assert(both[left.len() + i].name@ == name);
    }
    if cluster_named(both, name) {
        let i = choose|i: int| 0 <= i < both.len() && (#[trigger] both[i]).name@ == name;
        if i < left.len() {
            assert(left[i].name@ == name);
        } else {
            assert(right[i - left.len()].name@ == name);
        }
    }
    if left.len() == 0 {
        assert(both =~= right);
    } else {
        let rest = left.skip(1);
        lemma_servers_join(rest, right, name);
        assert(both.skip(1) =~= rest + right);
        assert(both[0] == left[0]);
        if left[0].name@ == name {
            assert(cluster_named(left, name));
        } else if cluster_named(left, name) {
            let i = choose|i: int| 0 <= i < left.len() && (#[trigger] left[i]).name@ == name;
            assert(rest[i - 1].name@ == name);
        } else {
            assert(!cluster_named(rest, name)) by {
                assert(forall|i: int| 0 <= i < rest.len() ==> rest[i] == left[i + 1]);
            }
        }
    }
}

proof fn lemma_contexts_join(left: Seq<NamedContext>, right: Seq<NamedContext>, name: Seq<char>)
    ensures
        context_named(left + right, name) <==> context_named(left, name) || context_named(
            right,
            name,
        ),
        first_named(left + right, name) == if context_named(left, name) {
            first_named(left, name)
        } else {
            first_named(right, name)
        },
    decreases left.len(),
{
    let both = left + right;
    if context_named(left, name) {
        let i = choose|i: int| 0 <= i < left.len() && (#[trigger] left[i]).name@ == name;
        assert(both[i].name@ == name);
    }
    if context_named(right, name) {
        let i = choose|i: int| 0 <= i < right.len() && (#[trigger] right[i]).name@ == name;
        assert(both[left.len() + i].name@ == name);
    }
    if context_named(both, name) {
        let i = choose|i: int| 0 <= i < both.len() && (#[trigger] both[i]).name@ == name;
        if i < left.len() {
            assert(left[i].name@ == name);
        } else {
            assert(right[i - left.len()].name@ == name);
        }
    }
    if left.len() == 0 {
        assert(both =~= right);
    } else {
        let rest = left.skip(1);
        lemma_contexts_join(rest, right, name);
        assert(both.skip(1) =~= rest + right);
        assert(both[0] == left[0]);
        if left[0].name@ == name {
            assert(context_named(left, name));
        } else if context_named(left, name) {
            let i = choose|i: int| 0 <= i < left.len() && (#[trigger] left[i]).name@ == name;
            assert(rest[i - 1].name@ == name);
        } else {
            assert(!context_named(rest, name)) by {
                assert(forall|i: int| 0 <= i < rest.len() ==> rest[i] == left[i + 1]);
            }
        }
    }
}

/// Adding a file's clusters adds exactly the names that were not there: one that was
/// keeps its server, and one that was not resolves to the server that the first
/// cluster of the name in the file gives.
pub proof fn law_new_clusters_are_added(
    have: Seq<NamedCluster>,
    more: Seq<NamedCluster>,
    name: Seq<char>,
)
    ensures
        cluster_named(clusters_with(have, more), name) <==> (exists|i: int|
            0 <= i < have.len() && (#[trigger] have[i]).name@ == name) || (exists|i: int|
            0 <= i < more.len() && (#[trigger] more[i]).name@ == name),
        server_of(clusters_with(have, more), name) == server_of(have + more, name),
        forall|place: int| #[trigger]
            first_cluster(have + more, name, place) ==> server_of(clusters_with(have, more), name)
                == crate::k8s::pods::held((have + more)[place].cluster.server),
    decreases more.len(),
{
    lemma_servers_join(have, more, name);
    if more.len() == 0 {
        assert(have + more =~= have);
    } else {
        let fewer = more.drop_last();
        let last = seq![more.last()];
        law_new_clusters_are_added(have, fewer, name);
        let before = clusters_with(have, fewer);
        lemma_servers_join(have, fewer, name);
        lemma_servers_join(before, last, name);
        lemma_servers_join(have + fewer, last, name);
        assert(have + more =~= have + fewer + last);
        assert(before.push(more.last()) =~= before + last);
        assert(cluster_named(last, name) <==> more.last().name@ == name) by {
            assert(last[0] == more.last());
        }
        assert(cluster_named(before, name) <==> cluster_named(have + fewer, name));
        if more.last().name@ != name {
            assert(!cluster_named(last, name));
            lemma_server(last, name);
            lemma_server(before, name);
        }
    }
    lemma_server(have + more, name);
}

/// Adding a file's contexts adds exactly the names that were not there: one that was
/// stays what it was, and one that was not is the first of the name in the file.
pub proof fn law_new_contexts_are_added(
    have: Seq<NamedContext>,
    more: Seq<NamedContext>,
    name: Seq<char>,
)
    ensures
        context_named(contexts_with(have, more), name) <==> (exists|i: int|
            0 <= i < have.len() && (#[trigger] have[i]).name@ == name) || (exists|i: int|
            0 <= i < more.len() && (#[trigger] more[i]).name@ == name),
        first_named(contexts_with(have, more), name) == first_named(have + more, name),
        forall|place: int| #[trigger]
            first_context(have + more, name, place) ==> first_named(
                contexts_with(have, more),
                name,
            ) == Some((have + more)[place]),
    decreases more.len(),
{
    lemma_contexts_join(have, more, name);
    if more.len() == 0 {
        assert(have + more =~= have);
    } else {
        let fewer = more.drop_last();
        let last = seq![more.last()];
        law_new_contexts_are_added(have, fewer, name);
        let before = contexts_with(have, fewer);
        lemma_contexts_join(have, fewer, name);
        lemma_contexts_join(before, last, name);
        lemma_contexts_join(have + fewer, last, name);
        assert(have + more =~= have + fewer + last);
        assert(before.push(more.last()) =~= before + last);
        assert(context_named(last, name) <==> more.last().name@ == name) by {
            assert(last[0] == more.last());
        }
        assert(context_named(before, name) <==> context_named(have + fewer, name));
        if more.last().name@ != name {
            assert(!context_named(last, name));
            lemma_context(last, name);
            lemma_context(before, name);
        }
    }
    lemma_context(have + more, name);
}

proof fn lemma_merged<R, P>(files: Seq<Candidate<R, P>>, name: Seq<char>)
    ensures
        cluster_named(merged(files).clusters, name) <==> cluster_named(every_cluster(files), name),
        server_of(merged(files).clusters, name) == server_of(every_cluster(files), name),
        context_named(merged(files).contexts, name) <==> context_named(every_context(files), name),
        first_named(merged(files).contexts, name) == first_named(every_context(files), name),
    decreases files.len(),
{
    if files.len() > 0 {
        lemma_merged(files.drop_last(), name);
        let before = merged(files.drop_last());
        if files.last().content is Parsed {
            let config = files.last().content->Parsed_0;
            law_new_clusters_are_added(before.clusters, config.clusters@, name);
            law_new_contexts_are_added(before.contexts, config.contexts@, name);
            lemma_servers_join(before.clusters, config.clusters@, name);
            lemma_servers_join(every_cluster(files.drop_last()), config.clusters@, name);
            lemma_contexts_join(before.contexts, config.contexts@, name);
            lemma_contexts_join(every_context(files.drop_last()), config.contexts@, name);
        }
    }
}

/// A context found by name among the files of a search path is the first of its name
/// in any of them; its server is that of the first cluster, in any of them, of the
/// name it points at; and it has none where there is no such cluster.
pub proof fn law_first_definition_in_any_file_counts<R, P>(
    files: Seq<Candidate<R, P>>,
    config: KubeConfig,
    name: Seq<char>,
    found: Option<ResolvedContext>,
    context: int,
    cluster: int,
)
    requires
        config.holds() == merged(files),
        finds(found, config, name),
    ensures
        !(exists|i: int|
            0 <= i < every_context(files).len() && (#[trigger] every_context(files)[i]).name@
                == name) ==> found is None,
        first_context(every_context(files), name, context) ==> {
            let entry = every_context(files)[context];
            &&& found is Some
            &&& found->0.name@ == name
            &&& found->0.cluster_name@ == entry.context.cluster@
            &&& found->0.user@ == entry.context.user@
            &&& says_as(found->0.namespace, entry.context.namespace)
            &&& first_cluster(every_cluster(files), entry.context.cluster@, cluster) ==> says_as(
                found->0.server,
                every_cluster(files)[cluster].cluster.server,
            )
            &&& !(exists|i: int|
                0 <= i < every_cluster(files).len() && (#[trigger] every_cluster(files)[i]).name@
                    == entry.context.cluster@) ==> found->0.server is None
            &&& found->0.is_current <==> config.current_context is Some
                && config.current_context->0@ == name
        },
{
    lemma_merged(files, name);
    lemma_context(every_context(files), name);
    if first_context(every_context(files), name, context) {
        let pointed = every_context(files)[context].context.cluster@;
        lemma_merged(files, pointed);
        lemma_server(every_cluster(files), pointed);
        assert(context_named(every_context(files), name));
    }
}

/// Whether the file at a place is the first to select a context.
pub open spec fn first_selecting<R, P>(files: Seq<Candidate<R, P>>, place: int) -> bool {
    &&& 0 <= place < files.len()
    &&& files[place].content is Parsed
    &&& files[place].content->Parsed_0.current_context is Some
    &&& forall|i: int|
        0 <= i < place && (#[trigger] files[i]).content is Parsed
            ==> files[i].content->Parsed_0.current_context is None
}

/// The selected context is the one that the first file to select one selects.
pub proof fn law_first_selection_counts<R, P>(files: Seq<Candidate<R, P>>, place: int)
    ensures
        first_selecting(files, place) ==> merged(files).current == Some(
            files[place].content->Parsed_0.current_context->0@,
        ),
        (forall|i: int|
            0 <= i < files.len() && (#[trigger] files[i]).content is Parsed
                ==> files[i].content->Parsed_0.current_context is None) ==> merged(
            files,
        ).current is None,
    decreases files.len(),
{
    if files.len() > 0 {
        let before = files.drop_last();
        assert(forall|i: int| 0 <= i < before.len() ==> before[i] == files[i]);
        law_first_selection_counts(before, place);
        assert(files.last() == files[files.len() - 1]);
        if first_selecting(files, place) {
            if place < before.len() {
                assert(first_selecting(before, place));
            } else {
                assert(forall|i: int|
                    0 <= i < before.len() && (#[trigger] before[i]).content is Parsed
                        ==> before[i].content->Parsed_0.current_context is None);
            }
        }
    }
}

/// The files that were read are the sources, in order; and the contexts and clusters
/// that are kept are of names of their own.
pub proof fn law_each_name_is_kept_once<R, P>(files: Seq<Candidate<R, P>>)
    ensures
        merged(files).sources == read_paths(files),
        forall|i: int, j: int|
            0 <= i < j < merged(files).contexts.len() ==> (
            #[trigger] merged(files).contexts[i]).name@ != (
            #[trigger] merged(files).contexts[j]).name@,
        forall|i: int, j: int|
            0 <= i < j < merged(files).clusters.len() ==> (
            #[trigger] merged(files).clusters[i]).name@ != (
            #[trigger] merged(files).clusters[j]).name@,
    decreases files.len(),
{
    if files.len() > 0 {
        law_each_name_is_kept_once(files.drop_last());
        let before = merged(files.drop_last());
        if files.last().content is Parsed {
            lemma_contexts_stay_apart(before.contexts, files.last().content->Parsed_0.contexts@);
            lemma_clusters_stay_apart(before.clusters, files.last().content->Parsed_0.clusters@);
        }
    }
}

/// Where the files that were read are, in order.
pub open spec fn read_paths<R, P>(files: Seq<Candidate<R, P>>) -> Seq<std::path::PathBuf>
    decreases files.len(),
{
    if files.len() == 0 {
        seq![]
    } else if files.last().content is Parsed {
        read_paths(files.drop_last()).push(files.last().path)
    } else {
        read_paths(files.drop_last())
    }
}

proof fn lemma_contexts_stay_apart(have: Seq<NamedContext>, more: Seq<NamedContext>)
    requires
        forall|i: int, j: int|
            0 <= i < j < have.len() ==> (#[trigger] have[i]).name@ != (#[trigger] have[j]).name@,
    ensures
        forall|i: int, j: int|
            0 <= i < j < contexts_with(have, more).len() ==> (
            #[trigger] contexts_with(have, more)[i]).name@ != (
            #[trigger] contexts_with(have, more)[j]).name@,
    decreases more.len(),
{
    if more.len() > 0 {
        lemma_contexts_stay_apart(have, more.drop_last());
        let before = contexts_with(have, more.drop_last());
        let after = contexts_with(have, more);
        assert forall|i: int, j: int| 0 <= i < j < after.len() implies (#[trigger] after[i]).name@
            != (#[trigger] after[j]).name@ by {
            assert(after[i] == before[i]);
            if j < before.len() {
                assert(after[j] == before[j]);
            }
        }
    }
}

proof fn lemma_clusters_stay_apart(have: Seq<NamedCluster>, more: Seq<NamedCluster>)
    requires
        forall|i: int, j: int|
            0 <= i < j < have.len() ==> (#[trigger] have[i]).name@ != (#[trigger] have[j]).name@,
    ensures
        forall|i: int, j: int|
            0 <= i < j < clusters_with(have, more).len() ==> (
            #[trigger] clusters_with(have, more)[i]).name@ != (
            #[trigger] clusters_with(have, more)[j]).name@,
    decreases more.len(),
{
    if more.len() > 0 {
        lemma_clusters_stay_apart(have, more.drop_last());
        let before = clusters_with(have, more.drop_last());
        let after = clusters_with(have, more);
        assert forall|i: int, j: int| 0 <= i < j < after.len() implies (#[trigger] after[i]).name@
            != (#[trigger] after[j]).name@ by {
            assert(after[i] == before[i]);
            if j < before.len() {
                assert(after[j] == before[j]);
            }
        }
    }
}

/// Whether the file at a place is the first that is there and cannot be used.
pub open spec fn first_unusable<R, P>(files: Seq<Candidate<R, P>>, place: int) -> bool {
    &&& 0 <= place < files.len()
    &&& files[place].content is Unreadable || files[place].content is Malformed
    &&& forall|i: int|
        0 <= i < place ==> (#[trigger] files[i]).content is Missing || files[i].content is Parsed
}

proof fn lemma_first_unusable<R, P>(files: Seq<Candidate<R, P>>, place: int)
    ensures
        first_unusable(files, place) ==> first_broken(files) == place,
        (forall|i: int|
            0 <= i < files.len() ==> (#[trigger] files[i]).content is Missing
                || files[i].content is Parsed) ==> first_broken(files) == files.len(),
    decreases files.len(),
{
    if files.len() > 0 {
        let rest = files.skip(1);
        assert(forall|i: int| 0 <= i < rest.len() ==> rest[i] == files[i + 1]);
        lemma_first_unusable(rest, place - 1);
        if first_unusable(files, place) && place > 0 {
            assert(files[0].content is Missing || files[0].content is Parsed);
            assert(rest[place - 1] == files[place]);
            assert forall|i: int| 0 <= i < place - 1 implies (
            #[trigger] rest[i]).content is Missing || rest[i].content is Parsed by {
                assert(rest[i] == files[i + 1]);
            }
        }
        if forall|i: int|
            0 <= i < files.len() ==> (#[trigger] files[i]).content is Missing
                || files[i].content is Parsed {
            assert(files[0].content is Missing || files[0].content is Parsed);
            assert forall|i: int| 0 <= i < rest.len() implies (
            #[trigger] rest[i]).content is Missing || rest[i].content is Parsed by {
                assert(rest[i] == files[i + 1]);
            }
        }
    }
}

/// Loading stops at the first file that is there and cannot be used, and names it;
/// it fails where no file is there, naming every one that was tried; and else it
/// succeeds.
pub proof fn law_loading_fails_where_a_file_does<R, P>(
    files: Seq<Candidate<R, P>>,
    loaded: Result<KubeConfig, Error<R, P>>,
    place: int,
)
    requires
        loads(files, loaded),
    ensures
        first_unusable(files, place) && files[place].content is Unreadable ==> loaded is Err
            && loaded->Err_0 is Read && loaded->Err_0->Read_path@ == files[place].shown@
            && loaded->Err_0->Read_source == files[place].content->Unreadable_0,
        first_unusable(files, place) && files[place].content is Malformed ==> loaded is Err
            && loaded->Err_0 is Parse && loaded->Err_0->Parse_path@ == files[place].shown@
            && loaded->Err_0->Parse_source == files[place].content->Malformed_0,
        (forall|i: int| 0 <= i < files.len() ==> (#[trigger] files[i]).content is Missing)
            ==> loaded is Err && loaded->Err_0 is NotFound
            && loaded->Err_0->searched@.len() == files.len() && forall|i: int|
            0 <= i < files.len() ==> (#[trigger] loaded->Err_0->searched@[i])@ == files[i].shown@,
        (forall|i: int|
            0 <= i < files.len() ==> (#[trigger] files[i]).content is Missing
                || files[i].content is Parsed) && (exists|i: int|
            0 <= i < files.len() && (#[trigger] files[i]).content is Parsed) ==> loaded is Ok
            && loaded->Ok_0.holds() == merged(files),
{
    lemma_first_unusable(files, place);
    if forall|i: int| 0 <= i < files.len() ==> (#[trigger] files[i]).content is Missing {
        assert(loaded->Err_0 is NotFound);
        let searched = loaded->Err_0->searched@;
        assert(texts(searched) == crate::kubeconfig::shown_paths(files));
        assert(texts(searched).len() == searched.len());
        assert forall|i: int| 0 <= i < files.len() implies (#[trigger] searched[i])@
            == files[i].shown@ by {
            assert(texts(searched)[i] == searched[i]@);
        }
    }
}

/// A tag in front of a string changes nothing of what it says.
pub proof fn law_tags_do_not_change_a_string(tree: Tree)
    ensures
        tree is Text ==> string_of(tree) == Some(tree->Text_0),
        tree is Tagged ==> string_of(tree) == string_of(*tree->Tagged_1),
        tree is Null || tree is Mapping || tree is Other ==> string_of(tree) is None,
{
}

/// Rewriting a file tells which context it selected before: what its first
/// `current-context` says, and nothing where it has none.
pub proof fn law_rewriting_tells_what_was_selected(
    raw: Seq<char>,
    name: Seq<char>,
    rewritten: Result<Rewritten, String>,
    entries: Seq<(Tree, Tree)>,
    place: int,
)
    requires
        rewrites(raw, name, rewritten),
        document(raw) is Ok,
        untagged(document(raw)->Ok_0) == Tree::Mapping(entries),
        rewritten is Ok,
        0 <= place <= entries.len(),
        forall|i: int|
            0 <= i < place ==> (#[trigger] entries[i]).0 != Tree::Text("current-context"@),
        place < entries.len() ==> entries[place].0 == Tree::Text("current-context"@),
    ensures
        place == entries.len() ==> rewritten->Ok_0.previous is None,
        place < entries.len() ==> held(rewritten->Ok_0.previous) == string_of(entries[place].1),
{
    crate::yaml::lemma_place_of(entries, "current-context"@);
    let found = place_of(entries, "current-context"@);
    assert(found == place) by {
        if found < place {
            assert(entries[found].0 == Tree::Text("current-context"@));
        }
    }
}

} // verus!
