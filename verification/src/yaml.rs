//! YAML documents as trees, so that what is not understood survives a rewrite.
//!
//! Reading and writing the text is `serde_yaml_ng`'s work. The tree holds what
//! the rewrite reads (nulls, strings, mappings and tags) and carries everything
//! else through untouched.

use vstd::prelude::*;
use vstd::string::*;

use crate::text;

verus! {

/// A value of `serde_yaml_ng`, carried through.
#[verifier::external_type_specification]
#[verifier::external_body]
pub struct ExValue(serde_yaml_ng::Value);

/// A tag of `serde_yaml_ng`, carried through.
#[verifier::external_type_specification]
#[verifier::external_body]
pub struct ExTag(serde_yaml_ng::value::Tag);

/// A YAML document, or a part of one.
pub enum Yaml {
    /// Nothing.
    Null,
    /// A string.
    Text(String),
    /// Keys and values, in order.
    Mapping(Vec<(Yaml, Yaml)>),
    /// A value with a tag in front.
    Tagged(serde_yaml_ng::value::Tag, Box<Yaml>),
    /// Anything else: a boolean, a number, a sequence.
    Other(serde_yaml_ng::Value),
}

/// What a [`Yaml`] holds.
pub enum Tree {
    /// Nothing.
    Null,
    /// A string.
    Text(Seq<char>),
    /// Keys and values, in order.
    Mapping(Seq<(Tree, Tree)>),
    /// A value with a tag in front.
    Tagged(serde_yaml_ng::value::Tag, Box<Tree>),
    /// Anything else.
    Other(serde_yaml_ng::Value),
}

impl View for Yaml {
    type V = Tree;

    open spec fn view(&self) -> Tree {
        self.tree()
    }
}

impl Yaml {
    /// What this holds.
    pub open spec fn tree(&self) -> Tree
        decreases self,
    {
        match self {
            Yaml::Null => Tree::Null,
            Yaml::Text(text) => Tree::Text(text@),
            Yaml::Mapping(entries) => Tree::Mapping(
                Seq::new(
                    entries@.len(),
                    |i: int|
                        if 0 <= i < entries@.len() {
                            (entries[i].0.tree(), entries[i].1.tree())
                        } else {
                            (Tree::Null, Tree::Null)
                        },
                ),
            ),
            Yaml::Tagged(tag, inner) => Tree::Tagged(*tag, Box::new(inner.tree())),
            Yaml::Other(value) => Tree::Other(*value),
        }
    }
}

/// What entries hold.
pub open spec fn trees(entries: Seq<(Yaml, Yaml)>) -> Seq<(Tree, Tree)> {
    Seq::new(entries.len(), |i: int| (entries[i].0@, entries[i].1@))
}

/// A value without the tags in front of it.
pub open spec fn untagged(tree: Tree) -> Tree
    decreases tree,
{
    match tree {
        Tree::Tagged(tag, inner) => untagged(*inner),
        _ => tree,
    }
}

/// The string a value is, tagged or not, if it is one.
pub open spec fn string_of(tree: Tree) -> Option<Seq<char>> {
    match untagged(tree) {
        Tree::Text(text) => Some(text),
        _ => None,
    }
}

/// The place of the first entry under a key, or how many there are where there
/// is none.
pub open spec fn place_of(entries: Seq<(Tree, Tree)>, key: Seq<char>) -> int
    decreases entries.len(),
{
    if entries.len() == 0 || entries[0].0 == Tree::Text(key) {
        0
    } else {
        1 + place_of(entries.skip(1), key)
    }
}

/// [`place_of`] is the first place, and nothing but the first.
pub proof fn lemma_place_of(entries: Seq<(Tree, Tree)>, key: Seq<char>)
    ensures
        0 <= place_of(entries, key) <= entries.len(),
        place_of(entries, key) < entries.len() ==> entries[place_of(entries, key)].0 == Tree::Text(
            key,
        ),
        forall|i: int|
            0 <= i < place_of(entries, key) ==> (#[trigger] entries[i]).0 != Tree::Text(key),
    decreases entries.len(),
{
    if entries.len() > 0 && entries[0].0 != Tree::Text(key) {
        let rest = entries.skip(1);
        lemma_place_of(rest, key);
        assert forall|i: int| 0 <= i < place_of(entries, key) implies (#[trigger] entries[i]).0
            != Tree::Text(key) by {
            if i > 0 {
                assert(rest[i - 1] == entries[i]);
            }
        }
    }
}

/// Entries with one value set: in place where the key is there, and at the end
/// where it is not.
pub open spec fn with_entry(
    entries: Seq<(Tree, Tree)>,
    key: Seq<char>,
    value: Tree,
) -> Seq<(Tree, Tree)> {
    if place_of(entries, key) < entries.len() {
        entries.update(place_of(entries, key), (Tree::Text(key), value))
    } else {
        entries.push((Tree::Text(key), value))
    }
}

/// The string held under a key of a document whose root is a mapping, tagged or
/// not.
pub open spec fn string_under(tree: Tree, key: Seq<char>) -> Option<Seq<char>> {
    match untagged(tree) {
        Tree::Mapping(entries) => if place_of(entries, key) < entries.len() {
            string_of(entries[place_of(entries, key)].1)
        } else {
            None
        },
        _ => None,
    }
}

/// A document with a string set under a key of its root mapping, tags and all,
/// if its root is one.
pub open spec fn with_string(tree: Tree, key: Seq<char>, text: Seq<char>) -> Option<Tree>
    decreases tree,
{
    match tree {
        Tree::Mapping(entries) => Some(Tree::Mapping(with_entry(entries, key, Tree::Text(text)))),
        Tree::Tagged(tag, inner) => match with_string(*inner, key, text) {
            Some(changed) => Some(Tree::Tagged(tag, Box::new(changed))),
            None => None,
        },
        _ => None,
    }
}

/// The tags in front of a value, from the outermost.
pub open spec fn tags_of(tree: Tree) -> Seq<serde_yaml_ng::value::Tag>
    decreases tree,
{
    match tree {
        Tree::Tagged(tag, inner) => seq![tag] + tags_of(*inner),
        _ => seq![],
    }
}

/// The document that a text is, as [`serde_yaml_ng::from_str`] reads it, or what
/// it says is wrong with the text.
pub uninterp spec fn document(text: Seq<char>) -> Result<Tree, Seq<char>>;

/// The text of a document, as [`serde_yaml_ng::to_string`] writes it, or what it
/// says is wrong with the document.
pub uninterp spec fn document_text(tree: Tree) -> Result<Seq<char>, Seq<char>>;

/// [`serde_yaml_ng::from_str`] into a `serde_yaml_ng::Value`, as a tree, and its
/// error in words. What the text means is YAML's, and the result is only named:
/// the same text always reads the same way.
#[verifier::external_body]
pub(crate) fn read(text: &str) -> (read: Result<Yaml, String>)
    ensures
        match read {
            Ok(yaml) => document(text@) == Ok::<Tree, Seq<char>>(yaml@),
            Err(problem) => document(text@) == Err::<Tree, Seq<char>>(problem@),
        },
{
    match serde_yaml_ng::from_str(text) {
        Ok(value) => Ok(of_value(value)),
        Err(error) => Err(error.to_string()),
    }
}

/// [`serde_yaml_ng::to_string`] of a `serde_yaml_ng::Value`, from a tree, and its
/// error in words. How the text is laid out is the crate's, and the result is
/// only named: the same document is always written the same way. That the text
/// reads as the document again is not stated.
#[verifier::external_body]
pub(crate) fn write(yaml: Yaml) -> (written: Result<String, String>)
    ensures
        match written {
            Ok(text) => document_text(yaml@) == Ok::<Seq<char>, Seq<char>>(text@),
            Err(problem) => document_text(yaml@) == Err::<Seq<char>, Seq<char>>(problem@),
        },
{
    match serde_yaml_ng::to_string(&into_value(yaml)) {
        Ok(text) => Ok(text),
        Err(error) => Err(error.to_string()),
    }
}

/// A `serde_yaml_ng::Value` as a tree, variant by variant. Nothing is stated of
/// it alone: see [`read`].
#[verifier::external_body]
fn of_value(value: serde_yaml_ng::Value) -> Yaml {
    match value {
        serde_yaml_ng::Value::Null => Yaml::Null,
        serde_yaml_ng::Value::String(text) => Yaml::Text(text),
        serde_yaml_ng::Value::Mapping(entries) => Yaml::Mapping(
            entries.into_iter().map(|(key, value)| (of_value(key), of_value(value))).collect(),
        ),
        serde_yaml_ng::Value::Tagged(tagged) => {
            Yaml::Tagged(tagged.tag, Box::new(of_value(tagged.value)))
        },
        other => Yaml::Other(other),
    }
}

/// A tree as a `serde_yaml_ng::Value`, variant by variant. Nothing is stated of
/// it alone: see [`write`].
#[verifier::external_body]
fn into_value(yaml: Yaml) -> serde_yaml_ng::Value {
    match yaml {
        Yaml::Null => serde_yaml_ng::Value::Null,
        Yaml::Text(text) => serde_yaml_ng::Value::String(text),
        Yaml::Mapping(entries) => serde_yaml_ng::Value::Mapping(
            entries.into_iter().map(|(key, value)| (into_value(key), into_value(value))).collect(),
        ),
        Yaml::Tagged(tag, inner) => serde_yaml_ng::Value::Tagged(
            Box::new(serde_yaml_ng::value::TaggedValue { tag, value: into_value(*inner) }),
        ),
        Yaml::Other(value) => value,
    }
}

impl Yaml {
    /// Whether this is nothing, tagged or not.
    pub(crate) fn is_null(&self) -> (answer: bool)
        ensures
            answer == (untagged(self@) is Null),
        decreases self,
    {
        match self {
            Yaml::Null => true,
            Yaml::Tagged(_, inner) => inner.is_null(),
            _ => false,
        }
    }

    /// The string this is, tagged or not, if it is one.
    fn string(&self) -> (text: Option<String>)
        ensures
            match text {
                Some(text) => string_of(self@) == Some(text@),
                None => string_of(self@) is None,
            },
        decreases self,
    {
        match self {
            Yaml::Text(text) => Some(text.clone()),
            Yaml::Tagged(_, inner) => inner.string(),
            _ => None,
        }
    }

    /// Set a string under a key of the root mapping, and say what was there.
    /// `None` where the root is not a mapping.
    pub(crate) fn set_string(self, key: &str, text: &str) -> (changed: Option<
        (Yaml, Option<String>),
    >)
        ensures
            match changed {
                Some((yaml, previous)) => {
                    &&& with_string(self@, key@, text@) == Some(yaml@)
                    &&& string_under(self@, key@) == match previous {
                        Some(previous) => Some(previous@),
                        None => None,
                    }
                },
                None => with_string(self@, key@, text@) is None,
            },
        decreases self,
    {
        match self {
            Yaml::Mapping(entries) => {
                let ghost before = trees(entries@);
                assert(self@ == Tree::Mapping(before)) by {
                    assert(self@->Mapping_0 =~= before);
                }
                let (entries, previous) = set_entry(entries, key, text);
                let changed = Yaml::Mapping(entries);
                assert(changed@->Mapping_0 =~= trees(entries@));
                Some((changed, previous))
            },
            Yaml::Tagged(tag, inner) => match inner.set_string(key, text) {
                Some((changed, previous)) => Some((Yaml::Tagged(tag, Box::new(changed)), previous)),
                None => None,
            },
            _ => None,
        }
    }

    /// A mapping with nothing in it.
    pub(crate) fn empty_mapping() -> (yaml: Yaml)
        ensures
            yaml@ == Tree::Mapping(seq![]),
    {
        let yaml = Yaml::Mapping(Vec::new());
        assert(yaml@->Mapping_0 =~= seq![]);
        yaml
    }
}

fn is_text(yaml: &Yaml, wanted: &str) -> (answer: bool)
    ensures
        answer == (yaml@ == Tree::Text(wanted@)),
{
    match yaml {
        Yaml::Text(text) => text::same(text.as_str(), wanted),
        _ => false,
    }
}

/// Set one value, and say what string was there.
fn set_entry(entries: Vec<(Yaml, Yaml)>, key: &str, text: &str) -> (changed: (
    Vec<(Yaml, Yaml)>,
    Option<String>,
))
    ensures
        trees(changed.0@) == with_entry(trees(entries@), key@, Tree::Text(text@)),
        ({
            let before = trees(entries@);
            match changed.1 {
                Some(previous) => {
                    &&& place_of(before, key@) < before.len()
                    &&& string_of(before[place_of(before, key@)].1) == Some(previous@)
                },
                None => place_of(before, key@) < before.len() ==> string_of(
                    before[place_of(before, key@)].1,
                ) is None,
            }
        }),
{
    let mut entries = entries;
    let ghost before = trees(entries@);
    let mut place: usize = 0;
    assert(before.skip(0) =~= before);
    while place < entries.len() && !is_text(&entries[place].0, key)
        invariant
            before == trees(entries@),
            place <= entries@.len(),
            place_of(before, key@) == place + place_of(before.skip(place as int), key@),
        decreases entries@.len() - place,
    {
        assert(before.skip(place as int)[0] == before[place as int]);
        assert(before.skip(place as int).skip(1) =~= before.skip(place + 1));
        place = place + 1;
    }
    proof {
        if place < before.len() {
            assert(before.skip(place as int)[0] == before[place as int]);
        }
    }
    let value = Yaml::Text(text.to_owned());
    let mut previous: Option<String> = None;
    if place < entries.len() {
        let ghost given = entries@;
        previous = entries[place].1.string();
        entries.set(place, (Yaml::Text(key.to_owned()), value));
        assert(trees(entries@) =~= before.update(
            place as int,
            (Tree::Text(key@), Tree::Text(text@)),
        ));
    } else {
        entries.push((Yaml::Text(key.to_owned()), value));
        assert(trees(entries@) =~= before.push((Tree::Text(key@), Tree::Text(text@))));
    }
    (entries, previous)
}

/// Setting a string changes nothing else: it is what is then under the key, and
/// every entry under another key keeps its value and its place.
pub proof fn law_only_the_key_changes(
    entries: Seq<(Tree, Tree)>,
    key: Seq<char>,
    text: Seq<char>,
)
    ensures
        ({
            let changed = with_entry(entries, key, Tree::Text(text));
            &&& string_under(Tree::Mapping(changed), key) == Some(text)
            &&& forall|i: int|
                0 <= i < entries.len() && (#[trigger] entries[i]).0 != Tree::Text(key) ==> changed[i]
                    == entries[i]
            &&& entries.len() <= changed.len() <= entries.len() + 1
            &&& changed.len() == entries.len() + 1 <==> forall|i: int|
                0 <= i < entries.len() ==> (#[trigger] entries[i]).0 != Tree::Text(key)
        }),
{
    lemma_place_of(entries, key);
    let changed = with_entry(entries, key, Tree::Text(text));
    lemma_place_of(changed, key);
    let place = place_of(entries, key);
    assert(changed[place].0 == Tree::Text(key));
    assert(place_of(changed, key) == place) by {
        if place_of(changed, key) < place {
            assert(changed[place_of(changed, key)] == entries[place_of(changed, key)]);
        }
    }
    if place < entries.len() {
        assert(entries[place].0 == Tree::Text(key));
    }
}

/// Setting a string reaches a mapping through the tags in front of it, and keeps
/// them; and only a mapping can have one set.
pub proof fn law_tags_are_kept(tree: Tree, key: Seq<char>, text: Seq<char>)
    ensures
        match untagged(tree) {
            Tree::Mapping(entries) => {
                &&& with_string(tree, key, text) is Some
                &&& untagged(with_string(tree, key, text)->0) == Tree::Mapping(
                    with_entry(entries, key, Tree::Text(text)),
                )
                &&& tags_of(with_string(tree, key, text)->0) == tags_of(tree)
            },
            _ => with_string(tree, key, text) is None,
        },
    decreases tree,
{
    match tree {
        Tree::Tagged(tag, inner) => {
            law_tags_are_kept(*inner, key, text);
        },
        _ => {},
    }
}

} // verus!
