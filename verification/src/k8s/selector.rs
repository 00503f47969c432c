//! Parsing and validating the label and field selectors a user types.
//!
//! A malformed selector is answered by the API server with a `400` and a message
//! about parse positions that says nothing about what the user should have
//! typed. So a bad selector is rejected here, before anything connects, quoting
//! the offending text.
//!
//! Two grammars, because Kubernetes has two. A *label* selector is the richer
//! one: equality (`=`, `==`, `!=`), set membership (`in`, `notin`), and bare
//! existence (`key`, `!key`). A *field* selector is equality only, over dotted
//! field paths. Both are comma-separated, and both are re-emitted in a
//! canonical form; `canonical` proves in what sense it is one.

use vstd::prelude::*;
use vstd::string::*;

use crate::text;
use crate::text::{
    debug_form, find, find_white, is_blank, joined, split_on, texts, trimmed, trimmed_end,
    trimmed_start, words_of,
};

verus! {

/// A selector that could not be parsed, carrying a sentence a user can act on.
///
/// The offending text is always quoted, so the message points at the part that
/// is wrong rather than repeating the whole selector back.
#[derive(Debug, Clone, PartialEq, Eq)]
pub struct Error(pub String);

impl Error {
    /// The sentence.
    pub fn message(&self) -> (message: String)
        ensures
            message@ == self.0@,
    {
        self.0.clone()
    }
}

/// One label requirement, in the vocabulary the API server understands.
pub enum Requirement {
    /// The label has this value.
    Equal(Seq<char>, Seq<char>),
    /// The label has another value, or none.
    NotEqual(Seq<char>, Seq<char>),
    /// The label has one of these values.
    In(Seq<char>, Seq<Seq<char>>),
    /// The label has none of these values.
    NotIn(Seq<char>, Seq<Seq<char>>),
    /// The label is there.
    Exists(Seq<char>),
    /// The label is not there.
    DoesNotExist(Seq<char>),
}

impl Requirement {
    /// The canonical text of this requirement. Value order is preserved as the
    /// user wrote it.
    pub open spec fn canonical(self) -> Seq<char> {
        match self {
            Requirement::Equal(key, value) => key + "="@ + value,
            Requirement::NotEqual(key, value) => key + "!="@ + value,
            Requirement::In(key, values) => key + " in ("@ + joined(values, ","@) + ")"@,
            Requirement::NotIn(key, values) => key + " notin ("@ + joined(values, ","@) + ")"@,
            Requirement::Exists(key) => key,
            Requirement::DoesNotExist(key) => "!"@ + key,
        }
    }
}

/// Whether a character is an ASCII letter or digit.
pub open spec fn is_alphanumeric(c: char) -> bool {
    ('a' <= c && c <= 'z') || ('A' <= c && c <= 'Z') || ('0' <= c && c <= '9')
}

/// Whether a character may stand inside a label's name or value.
pub open spec fn is_name_char(c: char) -> bool {
    is_alphanumeric(c) || c == '-' || c == '_' || c == '.'
}

/// A qualified-name component: 1 to 63 characters, alphanumeric at each end,
/// and `[-_.]` allowed in between. This is Kubernetes' rule for both a label's
/// name part and a label value.
pub open spec fn qualified_name(text: Seq<char>) -> bool {
    &&& 1 <= text.len() <= 63
    &&& is_alphanumeric(text[0])
    &&& is_alphanumeric(text.last())
    &&& forall|i: int| 0 <= i < text.len() ==> is_name_char(#[trigger] text[i])
}

/// Whether a character may stand at the end of a DNS label.
pub open spec fn is_dns_end(c: char) -> bool {
    ('a' <= c && c <= 'z') || ('0' <= c && c <= '9')
}

/// One label of a DNS-1123 subdomain: 1 to 63 lowercase alphanumerics and
/// hyphens, alphanumeric at the ends.
pub open spec fn dns_label(label: Seq<char>) -> bool {
    &&& 1 <= label.len() <= 63
    &&& is_dns_end(label[0])
    &&& is_dns_end(label.last())
    &&& forall|i: int| 0 <= i < label.len() ==> is_dns_end(#[trigger] label[i]) || label[i] == '-'
}

/// A DNS-1123 subdomain: dot-separated labels, 253 characters overall. This is
/// the rule for the optional prefix before a label key's `/`.
pub open spec fn dns_subdomain(text: Seq<char>) -> bool {
    &&& 1 <= text.len() <= 253
    &&& forall|i: int|
        0 <= i < split_on(text, '.').len() ==> dns_label(#[trigger] split_on(text, '.')[i])
}

/// The name part of a label key: what follows its first `/`, or all of it.
pub open spec fn key_name(key: Seq<char>) -> Seq<char> {
    if find(key, '/') < key.len() {
        key.skip(find(key, '/') + 1)
    } else {
        key
    }
}

/// Whether a label key has a prefix that is not a DNS subdomain, or more than
/// one `/`.
pub open spec fn bad_prefix(key: Seq<char>) -> bool {
    find(key, '/') < key.len() && (find(key_name(key), '/') < key_name(key).len()
        || !dns_subdomain(key.take(find(key, '/'))))
}

/// What is wrong with a label key, in words. `requirement` is the surrounding
/// text.
pub open spec fn key_problem(key: Seq<char>, requirement: Seq<char>) -> Option<Seq<char>> {
    if key.len() == 0 {
        Some("a requirement in "@ + debug_form(requirement) + " has no label key"@)
    } else if bad_prefix(key) {
        Some(
            "the label key "@ + debug_form(key) + " in "@ + debug_form(requirement)
                + " has an invalid prefix before its `/`"@,
        )
    } else if !qualified_name(key_name(key)) {
        Some(
            "the label key "@ + debug_form(key) + " in "@ + debug_form(requirement)
                + " is not a valid Kubernetes label name"@,
        )
    } else {
        None
    }
}

/// What is wrong with a label value, in words. An empty one is allowed.
pub open spec fn value_problem(value: Seq<char>, requirement: Seq<char>) -> Option<Seq<char>> {
    if value.len() == 0 || qualified_name(value) {
        None
    } else {
        Some(
            "the value "@ + debug_form(value) + " in "@ + debug_form(requirement)
                + " is not a valid Kubernetes label value"@,
        )
    }
}

/// What is wrong with the first label value that something is wrong with.
pub open spec fn values_problem(values: Seq<Seq<char>>, requirement: Seq<char>) -> Option<Seq<char>>
    decreases values.len(),
{
    if values.len() == 0 {
        None
    } else if value_problem(values[0], requirement) is Some {
        value_problem(values[0], requirement)
    } else {
        values_problem(values.skip(1), requirement)
    }
}

/// Where an equality operator sits in a requirement, and which one it is.
#[derive(Clone, Copy, PartialEq, Eq, Structural)]
pub struct Operator {
    /// The place of the operator's first character.
    pub at: usize,
    /// Its length: 1 for `=`, 2 for `==` and `!=`.
    pub width: usize,
    /// Whether it is `!=`.
    pub negated: bool,
}

/// Whether this is the operator that splits a requirement into key and value.
///
/// The first `=` decides it: `!=` when a `!` immediately precedes it, `==`
/// folded to a plain equal when another `=` immediately follows, otherwise `=`.
pub open spec fn splits(requirement: Seq<char>, operator: Operator) -> bool {
    let equals = find(requirement, '=');
    &&& equals < requirement.len()
    &&& if equals > 0 && requirement[equals - 1] == '!' {
        operator.at == equals - 1 && operator.width == 2 && operator.negated
    } else if equals + 1 < requirement.len() && requirement[equals + 1] == '=' {
        operator.at == equals && operator.width == 2 && !operator.negated
    } else {
        operator.at == equals && operator.width == 1 && !operator.negated
    }
}

/// What stands before the operator of a requirement.
pub open spec fn operand_before(requirement: Seq<char>) -> Seq<char> {
    let equals = find(requirement, '=');
    if equals > 0 && requirement[equals - 1] == '!' {
        trimmed(requirement.take(equals - 1))
    } else {
        trimmed(requirement.take(equals))
    }
}

/// What stands behind the operator of a requirement.
pub open spec fn operand_after(requirement: Seq<char>) -> Seq<char> {
    let equals = find(requirement, '=');
    if !(equals > 0 && requirement[equals - 1] == '!') && equals + 1 < requirement.len()
        && requirement[equals + 1] == '=' {
        trimmed(requirement.skip(equals + 2))
    } else {
        trimmed(requirement.skip(equals + 1))
    }
}

/// Whether the operator of a requirement is `!=`.
pub open spec fn is_negated(requirement: Seq<char>) -> bool {
    let equals = find(requirement, '=');
    equals > 0 && requirement[equals - 1] == '!'
}

/// Whether a requirement reads like a set operator whose value list was
/// forgotten: `app in`.
pub open spec fn forgot_values(requirement: Seq<char>) -> bool {
    let word = trimmed_start(requirement.skip(find_white(requirement) + 1));
    find_white(requirement) < requirement.len() && (word == "in"@ || "in "@.is_prefix_of(word) || word
        == "notin"@ || "notin "@.is_prefix_of(word))
}

/// The trimmed pieces of a value list.
pub open spec fn value_list(text: Seq<char>) -> Seq<Seq<char>> {
    let pieces = split_on(text, ',');
    Seq::new(pieces.len(), |i: int| trimmed(pieces[i]))
}

/// Whether one of several pieces of text is empty.
pub open spec fn some_empty(pieces: Seq<Seq<char>>) -> bool {
    exists|i: int| 0 <= i < pieces.len() && (#[trigger] pieces[i]).len() == 0
}

/// What a set requirement says (`key in (a,b)`), or what is wrong with it.
pub open spec fn set_requirement(text: Seq<char>) -> Result<Requirement, Seq<char>> {
    let open = find(text, '(');
    let words = words_of(trimmed(text.take(open)));
    let tail = trimmed_end(text.skip(open));
    let values = value_list(tail.subrange(1, tail.len() - 1));
    if !(tail.len() >= 2 && tail[0] == '(' && tail.last() == ')') {
        Err("the set selector "@ + debug_form(text) + " is missing its closing `)`"@)
    } else if words.len() != 2 {
        Err(
            "the set selector "@ + debug_form(text)
                + " must read `key in (…)` or `key notin (…)`"@,
        )
    } else if words[0].len() > 0 && words[0][0] == '!' {
        Err(
            "the set selector "@ + debug_form(text)
                + " cannot be negated with `!`; use `notin` instead"@,
        )
    } else if key_problem(words[0], text) is Some {
        Err(key_problem(words[0], text)->0)
    } else if some_empty(values) {
        Err(
            "the set selector "@ + debug_form(text)
                + " has an empty value between its parentheses"@,
        )
    } else if values_problem(values, text) is Some {
        Err(values_problem(values, text)->0)
    } else if words[1] == "in"@ {
        Ok(Requirement::In(words[0], values))
    } else if words[1] == "notin"@ {
        Ok(Requirement::NotIn(words[0], values))
    } else {
        Err(
            debug_form(words[1]) + " is not a set operator in "@ + debug_form(text)
                + "; use `in` or `notin`"@,
        )
    }
}

/// What one requirement of a label selector says, or what is wrong with it.
///
/// A parenthesis anywhere makes it set-based. Otherwise the first `=` is always
/// part of its operator, because neither keys nor values may contain one; and
/// without an operator it is an existence check.
pub open spec fn label_requirement(raw: Seq<char>) -> Result<Requirement, Seq<char>> {
    let text = trimmed(raw);
    if text.len() == 0 {
        Err("the label selector has an empty requirement — check for a stray or trailing comma"@)
    } else if find(text, '(') < text.len() {
        set_requirement(text)
    } else if find(text, '=') < text.len() {
        let key = operand_before(text);
        let value = operand_after(text);
        if key_problem(key, text) is Some {
            Err(key_problem(key, text)->0)
        } else if value_problem(value, text) is Some {
            Err(value_problem(value, text)->0)
        } else if is_negated(text) {
            Ok(Requirement::NotEqual(key, value))
        } else {
            Ok(Requirement::Equal(key, value))
        }
    } else if text[0] == '!' {
        let key = trimmed(text.skip(1));
        if key_problem(key, text) is Some {
            Err(key_problem(key, text)->0)
        } else {
            Ok(Requirement::DoesNotExist(key))
        }
    } else if forgot_values(text) {
        Err(
            "the set selector "@ + debug_form(text)
                + " is missing its parenthesised value list, e.g. `"@ + text.take(find_white(text))
                + " in (a, b)`"@,
        )
    } else if key_problem(text, text) is Some {
        Err(key_problem(text, text)->0)
    } else {
        Ok(Requirement::Exists(text))
    }
}

/// How deep in parentheses the text behind a character is.
pub open spec fn depth_after(c: char, depth: nat) -> nat {
    if c == '(' {
        depth + 1
    } else if c == ')' && depth > 0 {
        (depth - 1) as nat
    } else {
        depth
    }
}

/// The place of the first comma outside parentheses, or the length of the text
/// where there is none.
pub open spec fn find_comma(text: Seq<char>, depth: nat) -> int
    decreases text.len(),
{
    if text.len() == 0 || (text[0] == ',' && depth == 0) {
        0
    } else {
        1 + find_comma(text.skip(1), depth_after(text[0], depth))
    }
}

/// The requirements of a selector: the pieces between its commas, leaving the
/// commas inside a `(value,list)` alone.
pub open spec fn requirements(text: Seq<char>) -> Seq<Seq<char>>
    decreases text.len(),
    via requirements_shrinks
{
    let place = find_comma(text, 0);
    if place >= text.len() {
        seq![text]
    } else {
        seq![text.take(place)] + requirements(text.skip(place + 1))
    }
}

#[via_fn]
proof fn requirements_shrinks(text: Seq<char>) {
    lemma_find_comma(text, 0);
}

proof fn lemma_find_comma(text: Seq<char>, depth: nat)
    ensures
        0 <= find_comma(text, depth) <= text.len(),
    decreases text.len(),
{
    if text.len() > 0 && !(text[0] == ',' && depth == 0) {
        lemma_find_comma(text.skip(1), depth_after(text[0], depth));
    }
}

/// The canonical texts of a list of label requirements, or what is wrong with
/// the first that something is wrong with.
pub open spec fn label_pieces(raw: Seq<Seq<char>>) -> Result<Seq<Seq<char>>, Seq<char>>
    decreases raw.len(),
{
    if raw.len() == 0 {
        Ok(seq![])
    } else {
        match label_pieces(raw.drop_last()) {
            Err(problem) => Err(problem),
            Ok(before) => match label_requirement(raw.last()) {
                Err(problem) => Err(problem),
                Ok(requirement) => Ok(before.push(requirement.canonical())),
            },
        }
    }
}

/// The canonical form of a label selector, or what is wrong with it.
pub open spec fn label_canonical(input: Seq<char>) -> Result<Seq<char>, Seq<char>> {
    if is_blank(input) {
        Ok(seq![])
    } else {
        match label_pieces(requirements(input)) {
            Ok(pieces) => Ok(joined(pieces, ","@)),
            Err(problem) => Err(problem),
        }
    }
}

/// The canonical text of one requirement of a field selector, or what is wrong
/// with it.
///
/// Field values may be empty, and field paths are not constrained the way label
/// keys are, so structure is all there is to check.
pub open spec fn field_requirement(raw: Seq<char>) -> Result<Seq<char>, Seq<char>> {
    let text = trimmed(raw);
    if text.len() == 0 {
        Err("the field selector has an empty requirement — check for a stray or trailing comma"@)
    } else if find(text, '=') >= text.len() {
        Err(
            "the field selector "@ + debug_form(text)
                + " needs an operator: `=`, `==`, or `!=`, e.g. `status.phase=Running`"@,
        )
    } else if operand_before(text).len() == 0 {
        Err(
            "the field selector "@ + debug_form(text)
                + " has no field name before its operator"@,
        )
    } else if is_negated(text) {
        Ok(operand_before(text) + "!="@ + operand_after(text))
    } else {
        Ok(operand_before(text) + "="@ + operand_after(text))
    }
}

/// The canonical texts of a list of field requirements, or what is wrong with
/// the first that something is wrong with.
pub open spec fn field_pieces(raw: Seq<Seq<char>>) -> Result<Seq<Seq<char>>, Seq<char>>
    decreases raw.len(),
{
    if raw.len() == 0 {
        Ok(seq![])
    } else {
        match field_pieces(raw.drop_last()) {
            Err(problem) => Err(problem),
            Ok(before) => match field_requirement(raw.last()) {
                Err(problem) => Err(problem),
                Ok(piece) => Ok(before.push(piece)),
            },
        }
    }
}

/// The canonical form of a field selector, or what is wrong with it.
pub open spec fn field_canonical(input: Seq<char>) -> Result<Seq<char>, Seq<char>> {
    if is_blank(input) {
        Ok(seq![])
    } else {
        match field_pieces(split_on(input, ',')) {
            Ok(pieces) => Ok(joined(pieces, ","@)),
            Err(problem) => Err(problem),
        }
    }
}

/// Validate a label selector and return its canonical form.
///
/// Whitespace is normalised, `==` folded to `=`, and each requirement re-emitted
/// from the parsed value. An empty or whitespace-only selector matches
/// everything, and is returned as the empty string.
///
/// # Errors
/// Returns [`Error`] for anything Kubernetes would reject: an empty requirement
/// (a stray comma), a malformed key or value, a set operator with no
/// parenthesised list, or a `!` existence check with a value glued on.
pub fn label_selector(input: &str) -> (canonical: Result<String, Error>)
    ensures
        match canonical {
            Ok(canonical) => label_canonical(input@) == Ok::<Seq<char>, Seq<char>>(canonical@),
            Err(error) => label_canonical(input@) == Err::<Seq<char>, Seq<char>>(error.0@),
        },
{
    if text::blank(input) {
        let empty = String::new();
        assert(empty@ =~= seq![]);
        return Ok(empty);
    }
    let raw = split_requirements(input);
    let mut pieces: Vec<String> = Vec::new();
    let mut i: usize = 0;
    assert(texts(pieces@) =~= seq![]);
    while i < raw.len()
        invariant
            !is_blank(input@),
            texts(raw@) == requirements(input@),
            i <= raw@.len(),
            label_pieces(texts(raw@).take(i as int)) == Ok::<Seq<Seq<char>>, Seq<char>>(
                texts(pieces@),
            ),
        decreases raw@.len() - i,
    {
        let ghost upto = texts(raw@).take(i + 1);
        assert(upto.drop_last() =~= texts(raw@).take(i as int));
        assert(upto.last() == raw@[i as int]@);
        match parse_label_requirement(raw[i].as_str()) {
            Ok(requirement) => {
                let ghost before = texts(pieces@);
                let piece = requirement.render();
                pieces.push(piece);
                assert(texts(pieces@) =~= before.push(piece@));
            },
            Err(error) => {
                proof {
                    lemma_label_pieces_fail(texts(raw@), i + 1);
                }
                return Err(error);
            },
        }
        i = i + 1;
    }
    assert(texts(raw@).take(i as int) =~= texts(raw@));
    Ok(text::join(&pieces, ","))
}

proof fn lemma_label_pieces_fail(raw: Seq<Seq<char>>, count: int)
    requires
        0 <= count <= raw.len(),
        label_pieces(raw.take(count)) is Err,
    ensures
        label_pieces(raw) == label_pieces(raw.take(count)),
    decreases raw.len(),
{
    if count < raw.len() {
        assert(raw.drop_last().take(count) =~= raw.take(count));
        lemma_label_pieces_fail(raw.drop_last(), count);
    } else {
        assert(raw.take(count) =~= raw);
    }
}

proof fn lemma_field_pieces_fail(raw: Seq<Seq<char>>, count: int)
    requires
        0 <= count <= raw.len(),
        field_pieces(raw.take(count)) is Err,
    ensures
        field_pieces(raw) == field_pieces(raw.take(count)),
    decreases raw.len(),
{
    if count < raw.len() {
        assert(raw.drop_last().take(count) =~= raw.take(count));
        lemma_field_pieces_fail(raw.drop_last(), count);
    } else {
        assert(raw.take(count) =~= raw);
    }
}

/// Validate a field selector and return its canonical form.
///
/// Field selectors are equality-only (`key=value`, `key==value`, `key!=value`)
/// over dotted field paths such as `status.phase` or `spec.nodeName`. There is
/// no set membership and no existence check.
///
/// # Errors
/// Returns [`Error`] for an empty requirement, a requirement with no operator,
/// or an empty key.
pub fn field_selector(input: &str) -> (canonical: Result<String, Error>)
    ensures
        match canonical {
            Ok(canonical) => field_canonical(input@) == Ok::<Seq<char>, Seq<char>>(canonical@),
            Err(error) => field_canonical(input@) == Err::<Seq<char>, Seq<char>>(error.0@),
        },
{
    if text::blank(input) {
        let empty = String::new();
        assert(empty@ =~= seq![]);
        return Ok(empty);
    }
    let raw = text::split(input, ',');
    let mut pieces: Vec<String> = Vec::new();
    let mut i: usize = 0;
    assert(texts(pieces@) =~= seq![]);
    while i < raw.len()
        invariant
            !is_blank(input@),
            texts(raw@) == split_on(input@, ','),
            i <= raw@.len(),
            field_pieces(texts(raw@).take(i as int)) == Ok::<Seq<Seq<char>>, Seq<char>>(
                texts(pieces@),
            ),
        decreases raw@.len() - i,
    {
        let ghost upto = texts(raw@).take(i + 1);
        assert(upto.drop_last() =~= texts(raw@).take(i as int));
        assert(upto.last() == raw@[i as int]@);
        match parse_field_requirement(raw[i].as_str()) {
            Ok(piece) => {
                let ghost before = texts(pieces@);
                pieces.push(piece);
                assert(texts(pieces@) =~= before.push(piece@));
            },
            Err(error) => {
                proof {
                    lemma_field_pieces_fail(texts(raw@), i + 1);
                }
                return Err(error);
            },
        }
        i = i + 1;
    }
    assert(texts(raw@).take(i as int) =~= texts(raw@));
    Ok(text::join(&pieces, ","))
}

/// One parsed label requirement.
enum LabelReq {
    Equal(String, String),
    NotEqual(String, String),
    In(String, Vec<String>),
    NotIn(String, Vec<String>),
    Exists(String),
    DoesNotExist(String),
}

impl View for LabelReq {
    type V = Requirement;

    closed spec fn view(&self) -> Requirement {
        match self {
            LabelReq::Equal(key, value) => Requirement::Equal(key@, value@),
            LabelReq::NotEqual(key, value) => Requirement::NotEqual(key@, value@),
            LabelReq::In(key, values) => Requirement::In(key@, texts(values@)),
            LabelReq::NotIn(key, values) => Requirement::NotIn(key@, texts(values@)),
            LabelReq::Exists(key) => Requirement::Exists(key@),
            LabelReq::DoesNotExist(key) => Requirement::DoesNotExist(key@),
        }
    }
}

impl LabelReq {
    /// The canonical string for this requirement.
    fn render(&self) -> (text: String)
        ensures
            text@ == self@.canonical(),
    {
        match self {
            LabelReq::Equal(key, value) => key.clone().concat("=").concat(value.as_str()),
            LabelReq::NotEqual(key, value) => key.clone().concat("!=").concat(value.as_str()),
            LabelReq::In(key, values) => key.clone().concat(" in (").concat(
                text::join(values, ",").as_str(),
            ).concat(")"),
            LabelReq::NotIn(key, values) => key.clone().concat(" notin (").concat(
                text::join(values, ",").as_str(),
            ).concat(")"),
            LabelReq::Exists(key) => key.clone(),
            LabelReq::DoesNotExist(key) => "!".to_owned().concat(key.as_str()),
        }
    }
}

/// Split a selector into its requirements on top-level commas, leaving the
/// commas inside a `(value,list)` alone.
fn split_requirements(input: &str) -> (parts: Vec<String>)
    ensures
        texts(parts@) == requirements(input@),
{
    let chars = text::chars_of(input);
    let mut parts: Vec<String> = Vec::new();
    let mut depth: usize = 0;
    let mut start: usize = 0;
    let mut index: usize = 0;
    assert(input@.skip(0) =~= input@);
    assert(texts(parts@) + requirements(input@) =~= requirements(input@));
    while index < chars.len()
        invariant
            chars@ == input@,
            start <= index <= chars@.len(),
            depth <= index - start,
            texts(parts@) + requirements(input@.skip(start as int)) == requirements(input@),
            find_comma(input@.skip(start as int), 0) == index - start + find_comma(
                input@.skip(index as int),
                depth as nat,
            ),
        decreases chars@.len() - index,
    {
        let c = chars[index];
        let ghost left = input@.skip(start as int);
        let ghost ahead = input@.skip(index as int);
        assert(ahead.skip(1) =~= input@.skip(index + 1));
        if c == ',' && depth == 0 {
            let part = text::text_of(vstd::slice::slice_subrange(chars.as_slice(), start, index));
            let ghost before = texts(parts@);
            assert(part@ =~= left.take(index - start));
            parts.push(part);
            assert(texts(parts@) =~= before + seq![part@]);
            assert(left.skip(index - start + 1) =~= input@.skip(index + 1));
            assert(before + (seq![part@] + requirements(input@.skip(index + 1))) =~= (before + seq![
                part@,
            ]) + requirements(input@.skip(index + 1)));
            start = index + 1;
        } else if c == '(' {
            depth = depth + 1;
        } else if c == ')' && depth > 0 {
            depth = depth - 1;
        }
        index = index + 1;
    }
    let ghost left = input@.skip(start as int);
    let part = text::text_of(vstd::slice::slice_subrange(chars.as_slice(), start, chars.len()));
    let ghost before = texts(parts@);
    assert(part@ =~= left);
    parts.push(part);
    assert(texts(parts@) =~= before + seq![left]);
    parts
}

/// A sentence made of text around quoted text.
fn about(before: &str, quoted: &str, after: &str) -> (error: Error)
    ensures
        error.0@ == before@ + debug_form(quoted@) + after@,
{
    Error(before.to_owned().concat(text::quoted(quoted).as_str()).concat(after))
}

/// A sentence made of text around two pieces of quoted text.
fn about_both(before: &str, first: &str, between: &str, second: &str, after: &str) -> (error: Error)
    ensures
        error.0@ == before@ + debug_form(first@) + between@ + debug_form(second@) + after@,
{
    Error(
        before.to_owned().concat(text::quoted(first).as_str()).concat(between).concat(
            text::quoted(second).as_str(),
        ).concat(after),
    )
}

fn parse_label_requirement(requirement: &str) -> (parsed: Result<LabelReq, Error>)
    ensures
        match parsed {
            Ok(parsed) => label_requirement(requirement@) == Ok::<Requirement, Seq<char>>(parsed@),
            Err(error) => label_requirement(requirement@) == Err::<Requirement, Seq<char>>(
                error.0@,
            ),
        },
{
    let trimmed_text = text::trim(requirement);
    let chars = text::chars_of(trimmed_text);
    if chars.len() == 0 {
        return Err(
            Error(
                "the label selector has an empty requirement — check for a stray or trailing comma".to_owned(),
            ),
        );
    }
    let open = text::find_char(&chars, '(');
    if open < chars.len() {
        proof {
            text::lemma_trimmed(requirement@);
        }
        return parse_set_requirement(trimmed_text);
    }
    if let Some(operator) = find_equality_operator(&chars) {
        let key = text::trim(trimmed_text.substring_char(0, operator.at));
        let value = text::trim(
            trimmed_text.substring_char(operator.at + operator.width, chars.len()),
        );
        proof {
            assert(chars@.subrange(0, operator.at as int) =~= chars@.take(operator.at as int));
            assert(chars@.subrange(operator.at + operator.width, chars@.len() as int)
                =~= chars@.skip(operator.at + operator.width));
        }
        let key = match valid_label_key(key, trimmed_text) {
            Ok(key) => key,
            Err(error) => {
                return Err(error);
            },
        };
        let value = match valid_label_value(value, trimmed_text) {
            Ok(value) => value,
            Err(error) => {
                return Err(error);
            },
        };
        return Ok(
            if operator.negated {
                LabelReq::NotEqual(key, value)
            } else {
                LabelReq::Equal(key, value)
            },
        );
    }
    if chars[0] == '!' {
        let rest = text::trim(trimmed_text.substring_char(1, chars.len()));
        assert(chars@.subrange(1, chars@.len() as int) =~= chars@.skip(1));
        return match valid_label_key(rest, trimmed_text) {
            Ok(key) => Ok(LabelReq::DoesNotExist(key)),
            Err(error) => Err(error),
        };
    }
    let space = text::find_space(&chars, 0);
    assert(chars@.skip(0) =~= chars@);
    if space < chars.len() {
        let word = trim_start(trimmed_text.substring_char(space + 1, chars.len()));
        assert(chars@.subrange(space + 1, chars@.len() as int) =~= chars@.skip(space + 1));
        if text::same(word, "in") || text::starts_with(word, "in ") || text::same(word, "notin")
            || text::starts_with(word, "notin ") {
            let message = about(
                "the set selector ",
                trimmed_text,
                " is missing its parenthesised value list, e.g. `",
            ).0.concat(trimmed_text.substring_char(0, space)).concat(" in (a, b)`");
            assert(chars@.subrange(0, space as int) =~= chars@.take(space as int));
            return Err(Error(message));
        }
    }
    match valid_label_key(trimmed_text, trimmed_text) {
        Ok(key) => Ok(LabelReq::Exists(key)),
        Err(error) => Err(error),
    }
}

/// The text without the white space it starts with.
fn trim_start(text: &str) -> (inner: &str)
    ensures
        inner@ == trimmed_start(text@),
{
    let chars = text::chars_of(text);
    let mut start: usize = 0;
    assert(text@.skip(0) =~= text@);
    while start < chars.len() && text::white(chars[start])
        invariant
            chars@ == text@,
            start <= chars@.len(),
            trimmed_start(text@.skip(start as int)) == trimmed_start(text@),
        decreases chars@.len() - start,
    {
        assert(text@.skip(start as int).skip(1) =~= text@.skip(start + 1));
        start = start + 1;
    }
    assert(text@.subrange(start as int, text@.len() as int) =~= text@.skip(start as int));
    text.substring_char(start, chars.len())
}

/// What is wrong with the first value that something is wrong with.
fn first_bad_value(values: &[String], requirement: &str) -> (problem: Option<Error>)
    ensures
        match problem {
            Some(error) => values_problem(texts(values@), requirement@) == Some(error.0@),
            None => values_problem(texts(values@), requirement@) is None,
        },
{
    let ghost wanted = texts(values@);
    let mut i: usize = 0;
    assert(wanted.skip(0) =~= wanted);
    while i < values.len()
        invariant
            wanted == texts(values@),
            i <= values@.len(),
            values_problem(wanted, requirement@) == values_problem(
                wanted.skip(i as int),
                requirement@,
            ),
        decreases values@.len() - i,
    {
        let ghost left = wanted.skip(i as int);
        assert(left[0] == values@[i as int]@);
        assert(left.skip(1) =~= wanted.skip(i + 1));
        match valid_label_value(values[i].as_str(), requirement) {
            Ok(_) => {},
            Err(error) => {
                return Some(error);
            },
        }
        i = i + 1;
    }
    None
}

fn parse_set_requirement(requirement: &str) -> (parsed: Result<LabelReq, Error>)
    requires
        find(requirement@, '(') < requirement@.len(),
        requirement@.len() > 0 ==> !text::is_white(requirement@.last()),
    ensures
        match parsed {
            Ok(parsed) => set_requirement(requirement@) == Ok::<Requirement, Seq<char>>(parsed@),
            Err(error) => set_requirement(requirement@) == Err::<Requirement, Seq<char>>(error.0@),
        },
{
    let chars = text::chars_of(requirement);
    let open = text::find_char(&chars, '(');
    let head = text::trim(requirement.substring_char(0, open));
    proof {
        text::lemma_find(requirement@, '(');
        assert(chars@.subrange(0, open as int) =~= chars@.take(open as int));
        assert(requirement@.skip(open as int).last() == requirement@.last());
    }
    let ghost tail = requirement@.skip(open as int);
    assert(trimmed_end(tail) == tail);
    if chars.len() - open < 2 || chars[chars.len() - 1] != ')' {
        return Err(about("the set selector ", requirement, " is missing its closing `)`"));
    }
    let words = text::words(head);
    let ghost spec_words = words_of(head@);
    assert(spec_words.len() == words@.len());
    if words.len() != 2 {
        return Err(
            about("the set selector ", requirement, " must read `key in (…)` or `key notin (…)`"),
        );
    }
    let key = words[0].as_str();
    let operator = words[1].as_str();
    assert(key@ == spec_words[0]);
    assert(operator@ == spec_words[1]);
    if key.unicode_len() > 0 && key.get_char(0) == '!' {
        return Err(
            about(
                "the set selector ",
                requirement,
                " cannot be negated with `!`; use `notin` instead",
            ),
        );
    }
    let key = match valid_label_key(key, requirement) {
        Ok(key) => key,
        Err(error) => {
            return Err(error);
        },
    };
    let listed = requirement.substring_char(open + 1, chars.len() - 1);
    assert(listed@ =~= tail.subrange(1, tail.len() - 1));
    let pieces = text::split(listed, ',');
    let mut values: Vec<String> = Vec::new();
    let ghost wanted = value_list(listed@);
    let mut any_empty = false;
    let mut i: usize = 0;
    while i < pieces.len()
        invariant
            texts(pieces@) == split_on(listed@, ','),
            wanted == value_list(listed@),
            i <= pieces@.len(),
            texts(values@) == wanted.take(i as int),
            any_empty == some_empty(wanted.take(i as int)),
        decreases pieces@.len() - i,
    {
        let value = text::trim(pieces[i].as_str());
        assert(texts(pieces@)[i as int] == pieces@[i as int]@);
        assert(value@ == wanted[i as int]);
        let ghost before = wanted.take(i as int);
        let ghost after = wanted.take(i + 1);
        assert(after =~= before.push(value@));
        proof {
            if some_empty(before) {
                let j = choose|j: int| 0 <= j < before.len() && (#[trigger] before[j]).len() == 0;
                assert(after[j].len() == 0);
            }
            if value@.len() == 0 {
                assert(after[i as int].len() == 0);
            }
            if some_empty(after) && value@.len() > 0 {
                let j = choose|j: int| 0 <= j < after.len() && (#[trigger] after[j]).len() == 0;
                assert(before[j].len() == 0);
            }
        }
        if value.is_empty() {
            any_empty = true;
        }
        let ghost had = texts(values@);
        values.push(value.to_owned());
        assert(texts(values@) =~= had.push(value@));
        i = i + 1;
    }
    assert(wanted.take(i as int) =~= wanted);
    if any_empty {
        return Err(
            about(
                "the set selector ",
                requirement,
                " has an empty value between its parentheses",
            ),
        );
    }
    if let Some(error) = first_bad_value(&values, requirement) {
        return Err(error);
    }
    if text::same(operator, "in") {
        Ok(LabelReq::In(key, values))
    } else if text::same(operator, "notin") {
        Ok(LabelReq::NotIn(key, values))
    } else {
        let error = about_both(
            "",
            operator,
            " is not a set operator in ",
            requirement,
            "; use `in` or `notin`",
        );
        proof {
            reveal_strlit("");
            assert(""@ + debug_form(operator@) =~= debug_form(operator@));
        }
        Err(error)
    }
}

fn parse_field_requirement(requirement: &str) -> (parsed: Result<String, Error>)
    ensures
        match parsed {
            Ok(piece) => field_requirement(requirement@) == Ok::<Seq<char>, Seq<char>>(piece@),
            Err(error) => field_requirement(requirement@) == Err::<Seq<char>, Seq<char>>(error.0@),
        },
{
    let trimmed_text = text::trim(requirement);
    let chars = text::chars_of(trimmed_text);
    if chars.len() == 0 {
        return Err(
            Error(
                "the field selector has an empty requirement — check for a stray or trailing comma".to_owned(),
            ),
        );
    }
    let operator = match find_equality_operator(&chars) {
        Some(operator) => operator,
        None => {
            return Err(
                about(
                    "the field selector ",
                    trimmed_text,
                    " needs an operator: `=`, `==`, or `!=`, e.g. `status.phase=Running`",
                ),
            );
        },
    };
    let key = text::trim(trimmed_text.substring_char(0, operator.at));
    let value = text::trim(trimmed_text.substring_char(operator.at + operator.width, chars.len()));
    proof {
        assert(chars@.subrange(0, operator.at as int) =~= chars@.take(operator.at as int));
        assert(chars@.subrange(operator.at + operator.width, chars@.len() as int) =~= chars@.skip(
            operator.at + operator.width,
        ));
    }
    if key.is_empty() {
        return Err(
            about(
                "the field selector ",
                trimmed_text,
                " has no field name before its operator",
            ),
        );
    }
    Ok(
        if operator.negated {
            key.to_owned().concat("!=").concat(value)
        } else {
            key.to_owned().concat("=").concat(value)
        },
    )
}

/// Find the operator that splits a requirement into key and value.
fn find_equality_operator(requirement: &[char]) -> (operator: Option<Operator>)
    ensures
        match operator {
            Some(operator) => {
                &&& splits(requirement@, operator)
                &&& operator.at + operator.width <= requirement@.len()
            },
            None => find(requirement@, '=') >= requirement@.len(),
        },
{
    let equals = text::find_char(requirement, '=');
    if equals >= requirement.len() {
        return None;
    }
    if equals > 0 && requirement[equals - 1] == '!' {
        return Some(Operator { at: equals - 1, width: 2, negated: true });
    }
    if equals + 1 < requirement.len() && requirement[equals + 1] == '=' {
        return Some(Operator { at: equals, width: 2, negated: false });
    }
    Some(Operator { at: equals, width: 1, negated: false })
}

/// Validate a label key (an optional DNS-subdomain prefix and a name) and
/// return it unchanged. `requirement` is the surrounding text, quoted in errors
/// so the message points somewhere.
fn valid_label_key(key: &str, requirement: &str) -> (valid: Result<String, Error>)
    ensures
        match valid {
            Ok(valid) => key_problem(key@, requirement@) is None && valid@ == key@,
            Err(error) => key_problem(key@, requirement@) == Some(error.0@),
        },
{
    let chars = text::chars_of(key);
    if chars.len() == 0 {
        return Err(about("a requirement in ", requirement, " has no label key"));
    }
    let slash = text::find_char(&chars, '/');
    let has_prefix = slash < chars.len();
    let start: usize = if has_prefix {
        slash + 1
    } else {
        0
    };
    let name = vstd::slice::slice_subrange(chars.as_slice(), start, chars.len());
    assert(name@ =~= key_name(key@));
    if has_prefix {
        let prefix = key.substring_char(0, slash);
        assert(prefix@ =~= key@.take(slash as int));
        if text::find_char(name, '/') < name.len() || !is_dns_subdomain(prefix) {
            return Err(
                about_both(
                    "the label key ",
                    key,
                    " in ",
                    requirement,
                    " has an invalid prefix before its `/`",
                ),
            );
        }
    }
    if !is_qualified_name(name) {
        return Err(
            about_both(
                "the label key ",
                key,
                " in ",
                requirement,
                " is not a valid Kubernetes label name",
            ),
        );
    }
    Ok(key.to_owned())
}

/// Validate a label value and return it unchanged. Empty is allowed: `key=`
/// selects the pods carrying `key` with an empty value.
fn valid_label_value(value: &str, requirement: &str) -> (valid: Result<String, Error>)
    ensures
        match valid {
            Ok(valid) => value_problem(value@, requirement@) is None && valid@ == value@,
            Err(error) => value_problem(value@, requirement@) == Some(error.0@),
        },
{
    let chars = text::chars_of(value);
    if chars.len() == 0 || is_qualified_name(&chars) {
        return Ok(value.to_owned());
    }
    Err(
        about_both(
            "the value ",
            value,
            " in ",
            requirement,
            " is not a valid Kubernetes label value",
        ),
    )
}

fn alphanumeric(c: char) -> (answer: bool)
    ensures
        answer == is_alphanumeric(c),
{
    ('a' <= c && c <= 'z') || ('A' <= c && c <= 'Z') || ('0' <= c && c <= '9')
}

fn dns_end(c: char) -> (answer: bool)
    ensures
        answer == is_dns_end(c),
{
    ('a' <= c && c <= 'z') || ('0' <= c && c <= '9')
}

/// Whether this is a qualified-name component.
fn is_qualified_name(name: &[char]) -> (answer: bool)
    ensures
        answer == qualified_name(name@),
{
    if name.len() == 0 || name.len() > 63 {
        return false;
    }
    if !alphanumeric(name[0]) || !alphanumeric(name[name.len() - 1]) {
        return false;
    }
    let mut i: usize = 0;
    while i < name.len()
        invariant
            i <= name@.len(),
            forall|j: int| 0 <= j < i ==> is_name_char(#[trigger] name@[j]),
        decreases name@.len() - i,
    {
        let c = name[i];
        if !(alphanumeric(c) || c == '-' || c == '_' || c == '.') {
            assert(!is_name_char(name@[i as int]));
            return false;
        }
        i = i + 1;
    }
    true
}

/// Whether this is a DNS-1123 subdomain.
fn is_dns_subdomain(prefix: &str) -> (answer: bool)
    ensures
        answer == dns_subdomain(prefix@),
{
    let length = prefix.unicode_len();
    if length == 0 || length > 253 {
        return false;
    }
    let labels = text::split(prefix, '.');
    let ghost wanted = split_on(prefix@, '.');
    let mut i: usize = 0;
    while i < labels.len()
        invariant
            texts(labels@) == wanted,
            wanted == split_on(prefix@, '.'),
            i <= labels@.len(),
            forall|j: int| 0 <= j < i ==> dns_label(#[trigger] wanted[j]),
        decreases labels@.len() - i,
    {
        assert(wanted[i as int] == texts(labels@)[i as int]);
        if !is_dns_label(labels[i].as_str()) {
            assert(!dns_label(wanted[i as int]));
            return false;
        }
        i = i + 1;
    }
    true
}

fn is_dns_label(label: &str) -> (answer: bool)
    ensures
        answer == dns_label(label@),
{
    let chars = text::chars_of(label);
    if chars.len() == 0 || chars.len() > 63 {
        return false;
    }
    if !dns_end(chars[0]) || !dns_end(chars[chars.len() - 1]) {
        return false;
    }
    let mut i: usize = 0;
    while i < chars.len()
        invariant
            chars@ == label@,
            i <= chars@.len(),
            forall|j: int| 0 <= j < i ==> is_dns_end(#[trigger] label@[j]) || label@[j] == '-',
        decreases chars@.len() - i,
    {
        let c = chars[i];
        if !(dns_end(c) || c == '-') {
            assert(!(is_dns_end(label@[i as int]) || label@[i as int] == '-'));
            return false;
        }
        i = i + 1;
    }
    true
}

} // verus!
