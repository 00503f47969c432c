//! Why the canonical form of a selector is one: reading it again gives it back.

use vstd::prelude::*;

use crate::k8s::selector::{
    bad_prefix, depth_after, dns_label, dns_subdomain, field_canonical, field_pieces,
    field_requirement, find_comma, is_alphanumeric, is_dns_end, is_name_char, is_negated,
    key_name, key_problem, label_canonical, label_pieces, label_requirement, operand_after,
    operand_before, qualified_name, requirements, set_requirement, some_empty, value_list,
    value_problem, values_problem, Requirement,
};
use crate::text::{
    find, find_white, is_blank, is_white, joined, lemma_find, lemma_find_is, lemma_find_white,
    lemma_joined_first, lemma_split_on_joined, lemma_trimmed, lemma_trimmed_already, split_on,
    trimmed, words_of,
};

verus! {

/// Whether a label key is one Kubernetes accepts.
pub open spec fn good_key(key: Seq<char>) -> bool {
    key.len() > 0 && !bad_prefix(key) && qualified_name(key_name(key))
}

/// Whether every part of a requirement is one Kubernetes accepts.
pub open spec fn good(requirement: Requirement) -> bool {
    match requirement {
        Requirement::Equal(key, value) => good_key(key) && (value.len() == 0 || qualified_name(
            value,
        )),
        Requirement::NotEqual(key, value) => good_key(key) && (value.len() == 0 || qualified_name(
            value,
        )),
        Requirement::In(key, values) => good_key(key) && good_values(values),
        Requirement::NotIn(key, values) => good_key(key) && good_values(values),
        Requirement::Exists(key) => good_key(key),
        Requirement::DoesNotExist(key) => good_key(key),
    }
}

/// Whether a value list has a value, and only values Kubernetes accepts.
pub open spec fn good_values(values: Seq<Seq<char>>) -> bool {
    &&& values.len() >= 1
    &&& forall|i: int| 0 <= i < values.len() ==> qualified_name(#[trigger] values[i])
}

/// Whether a character may stand in a label key.
spec fn is_key_char(c: char) -> bool {
    is_name_char(c) || c == '/'
}

/// Whether every character may stand in a label key.
spec fn key_chars(text: Seq<char>) -> bool {
    forall|i: int| 0 <= i < text.len() ==> is_key_char(#[trigger] text[i])
}

proof fn lemma_split_on_nonempty(text: Seq<char>, separator: char)
    ensures
        split_on(text, separator).len() >= 1,
        split_on(text, separator)[0] == text.take(find(text, separator)),
{
    lemma_find(text, separator);
    assert(text.take(text.len() as int) =~= text);
}

/// Every character is a separator or stands in one of the pieces.
proof fn lemma_split_on_covers(text: Seq<char>, separator: char, i: int)
    requires
        0 <= i < text.len(),
        text[i] != separator,
    ensures
        exists|j: int|
            0 <= j < split_on(text, separator).len() && (#[trigger] split_on(
                text,
                separator,
            )[j]).contains(text[i]),
    decreases text.len(),
{
    let place = find(text, separator);
    let pieces = split_on(text, separator);
    lemma_find(text, separator);
    lemma_split_on_nonempty(text, separator);
    if i < place {
        assert(pieces[0][i] == text[i]);
        assert(pieces[0].contains(text[i]));
    } else {
        let rest = text.skip(place + 1);
        lemma_split_on_covers(rest, separator, i - place - 1);
        let j = choose|j: int|
            0 <= j < split_on(rest, separator).len() && (#[trigger] split_on(
                rest,
                separator,
            )[j]).contains(text[i]);
        assert(pieces[j + 1] == split_on(rest, separator)[j]);
    }
}

proof fn lemma_dns_subdomain(text: Seq<char>)
    requires
        dns_subdomain(text),
    ensures
        key_chars(text),
        is_alphanumeric(text[0]),
{
    let pieces = split_on(text, '.');
    lemma_split_on_nonempty(text, '.');
    lemma_find(text, '.');
    assert(dns_label(pieces[0]));
    assert(pieces[0][0] == text[0]);
    assert forall|i: int| 0 <= i < text.len() implies is_key_char(#[trigger] text[i]) by {
        if text[i] != '.' {
            lemma_split_on_covers(text, '.', i);
            let j = choose|j: int|
                0 <= j < pieces.len() && (#[trigger] pieces[j]).contains(text[i]);
            assert(dns_label(pieces[j]));
            let k = pieces[j].index_of(text[i]);
            assert(is_dns_end(pieces[j][k]) || pieces[j][k] == '-');
        }
    }
}

proof fn lemma_good_key(key: Seq<char>)
    requires
        good_key(key),
    ensures
        key_chars(key),
        is_alphanumeric(key[0]),
        is_alphanumeric(key.last()),
{
    let slash = find(key, '/');
    lemma_find(key, '/');
    if slash < key.len() {
        let prefix = key.take(slash);
        let name = key.skip(slash + 1);
        lemma_dns_subdomain(prefix);
        assert(key[0] == prefix[0]);
        assert(key.last() == name.last());
        assert forall|i: int| 0 <= i < key.len() implies is_key_char(#[trigger] key[i]) by {
            if i < slash {
                assert(is_key_char(prefix[i]));
            } else if i > slash {
                assert(is_name_char(name[i - slash - 1]));
            }
        }
    } else {
        assert forall|i: int| 0 <= i < key.len() implies is_key_char(#[trigger] key[i]) by {
            assert(is_name_char(key[i]));
        }
    }
}

proof fn lemma_values_problem(values: Seq<Seq<char>>, requirement: Seq<char>)
    ensures
        values_problem(values, requirement) is None <==> forall|i: int|
            0 <= i < values.len() ==> (#[trigger] values[i]).len() == 0 || qualified_name(values[i]),
    decreases values.len(),
{
    if values.len() > 0 {
        let rest = values.skip(1);
        lemma_values_problem(rest, requirement);
        assert(forall|i: int| 0 <= i < rest.len() ==> rest[i] == values[i + 1]);
        if value_problem(values[0], requirement) is None && values_problem(rest, requirement) is None {
            assert forall|i: int| 0 <= i < values.len() implies (#[trigger] values[i]).len() == 0
                || qualified_name(values[i]) by {
                if i > 0 {
                    assert(rest[i - 1] == values[i]);
                }
            }
        }
    }
}

/// What parses is made of parts Kubernetes accepts.
pub proof fn law_parsed_requirements_are_good(raw: Seq<char>)
    ensures
        label_requirement(raw) matches Ok(requirement) ==> good(requirement),
{
    let text = trimmed(raw);
    if text.len() > 0 && find(text, '(') < text.len() {
        let tail = crate::text::trimmed_end(text.skip(find(text, '(')));
        let listed = tail.subrange(1, tail.len() - 1);
        let values = value_list(listed);
        lemma_values_problem(values, text);
        lemma_split_on_nonempty(listed, ',');
        if set_requirement(text) is Ok {
            assert forall|i: int| 0 <= i < values.len() implies qualified_name(
                #[trigger] values[i],
            ) by {
                assert(values[i].len() > 0);
            }
        }
    }
}

/// Parentheses and commas are what a selector is split by.
spec fn unsplit(text: Seq<char>) -> bool {
    forall|i: int|
        0 <= i < text.len() ==> #[trigger] text[i] != '(' && text[i] != ')' && text[i] != ','
}

/// The depth in parentheses behind a text.
spec fn depth_through(text: Seq<char>, depth: nat) -> nat
    decreases text.len(),
{
    if text.len() == 0 {
        depth
    } else {
        depth_through(text.skip(1), depth_after(text[0], depth))
    }
}

/// A text without a comma at its own level, after which the level is the same.
spec fn closed(text: Seq<char>) -> bool {
    find_comma(text, 0) == text.len() && depth_through(text, 0) == 0
}

proof fn lemma_find_comma_past(left: Seq<char>, right: Seq<char>, depth: nat)
    requires
        find_comma(left, depth) == left.len(),
    ensures
        find_comma(left + right, depth) == left.len() + find_comma(
            right,
            depth_through(left, depth),
        ),
        depth_through(left + right, depth) == depth_through(right, depth_through(left, depth)),
    decreases left.len(),
{
    if left.len() == 0 {
        assert(left + right =~= right);
    } else {
        assert((left + right).skip(1) =~= left.skip(1) + right);
        lemma_find_comma_past(left.skip(1), right, depth_after(left[0], depth));
    }
}

proof fn lemma_unsplit(text: Seq<char>, depth: nat)
    requires
        unsplit(text),
    ensures
        find_comma(text, depth) == text.len(),
        depth_through(text, depth) == depth,
    decreases text.len(),
{
    if text.len() > 0 {
        assert(text[0] != '(');
        assert forall|i: int| 0 <= i < text.skip(1).len() implies #[trigger] text.skip(1)[i] != '('
            && text.skip(1)[i] != ')' && text.skip(1)[i] != ',' by {
            assert(text.skip(1)[i] == text[i + 1]);
        }
        lemma_unsplit(text.skip(1), depth);
    }
}

proof fn lemma_inside(text: Seq<char>, depth: nat)
    requires
        depth > 0,
        forall|i: int| 0 <= i < text.len() ==> #[trigger] text[i] != '(' && text[i] != ')',
    ensures
        find_comma(text, depth) == text.len(),
        depth_through(text, depth) == depth,
    decreases text.len(),
{
    if text.len() > 0 {
        assert(text[0] != '(');
        assert forall|i: int| 0 <= i < text.skip(1).len() implies #[trigger] text.skip(1)[i] != '('
            && text.skip(1)[i] != ')' by {
            assert(text.skip(1)[i] == text[i + 1]);
        }
        lemma_inside(text.skip(1), depth);
    }
}

proof fn lemma_joined_chars(parts: Seq<Seq<char>>, separator: Seq<char>, i: int)
    requires
        0 <= i < joined(parts, separator).len(),
    ensures
        separator.contains(joined(parts, separator)[i]) || exists|j: int|
            0 <= j < parts.len() && (#[trigger] parts[j]).contains(joined(parts, separator)[i]),
    decreases parts.len(),
{
    let whole = joined(parts, separator);
    if parts.len() == 1 {
        assert(parts[0].contains(whole[i]));
    } else if parts.len() > 1 {
        let head = joined(parts.drop_last(), separator);
        if i < head.len() {
            lemma_joined_chars(parts.drop_last(), separator, i);
            assert(whole[i] == head[i]);
            if !separator.contains(whole[i]) {
                let j = choose|j: int|
                    0 <= j < parts.drop_last().len() && (#[trigger] parts.drop_last()[j]).contains(
                        head[i],
                    );
                assert(parts[j].contains(whole[i]));
            }
        } else if i < head.len() + separator.len() {
            assert(separator[i - head.len()] == whole[i]);
        } else {
            assert(parts.last()[i - head.len() - separator.len()] == whole[i]);
            assert(parts[parts.len() - 1].contains(whole[i]));
        }
    }
}

proof fn lemma_requirements_of_joined(parts: Seq<Seq<char>>)
    requires
        parts.len() >= 1,
        forall|i: int| 0 <= i < parts.len() ==> closed(#[trigger] parts[i]),
    ensures
        requirements(joined(parts, ","@)) == parts,
    decreases parts.len(),
{
    reveal_strlit(",");
    let whole = joined(parts, ","@);
    if parts.len() == 1 {
        assert(closed(parts[0]));
        assert(parts =~= seq![parts[0]]);
    } else {
        let rest = parts.skip(1);
        lemma_joined_first(parts, ","@);
        assert forall|i: int| 0 <= i < rest.len() implies closed(#[trigger] rest[i]) by {
            assert(rest[i] == parts[i + 1]);
        }
        lemma_requirements_of_joined(rest);
        let tail = ","@ + joined(rest, ","@);
        assert(closed(parts[0]));
        lemma_find_comma_past(parts[0], tail, 0);
        assert(tail[0] == ',');
        let place = find_comma(whole, 0);
        assert(place == parts[0].len());
        assert(whole.take(place) =~= parts[0]);
        assert(whole.skip(place + 1) =~= joined(rest, ","@));
        assert(parts =~= seq![parts[0]] + rest);
    }
}

proof fn lemma_key_text(text: Seq<char>)
    requires
        key_chars(text),
    ensures
        unsplit(text),
        forall|i: int| 0 <= i < text.len() ==> !is_white(#[trigger] text[i]),
        forall|i: int|
            0 <= i < text.len() ==> #[trigger] text[i] != '=' && text[i] != '!' && text[i] != '(',
{
    assert forall|i: int| 0 <= i < text.len() implies #[trigger] text[i] != '(' && text[i] != ')'
        && text[i] != ',' && text[i] != '=' && text[i] != '!' && !is_white(text[i]) by {
        assert(is_key_char(text[i]));
    }
}

proof fn lemma_value_text(value: Seq<char>)
    requires
        value.len() == 0 || qualified_name(value),
    ensures
        key_chars(value),
{
    assert forall|i: int| 0 <= i < value.len() implies is_key_char(#[trigger] value[i]) by {
        assert(is_name_char(value[i]));
    }
}

/// A requirement without a value list reads back as itself.
proof fn lemma_plain_reads_back(requirement: Requirement)
    requires
        good(requirement),
        !(requirement is In),
        !(requirement is NotIn),
    ensures
        label_requirement(requirement.canonical()) == Ok::<Requirement, Seq<char>>(requirement),
        closed(requirement.canonical()),
        requirement.canonical().len() > 0,
        !is_white(requirement.canonical()[0]),
{
    reveal_strlit("=");
    reveal_strlit("!=");
    reveal_strlit("!");
    let text = requirement.canonical();
    let key = match requirement {
        Requirement::Equal(key, value) => key,
        Requirement::NotEqual(key, value) => key,
        Requirement::Exists(key) => key,
        Requirement::DoesNotExist(key) => key,
        _ => arbitrary(),
    };
    lemma_good_key(key);
    lemma_key_text(key);
    lemma_trimmed_already(key);
    match requirement {
        Requirement::Exists(key) => {
            lemma_find_is(text, '(', text.len() as int);
            lemma_find_is(text, '=', text.len() as int);
            lemma_find_white(text);
            if find_white(text) < text.len() {
                assert(!is_white(text[find_white(text)]));
            }
            lemma_unsplit(text, 0);
        },
        Requirement::DoesNotExist(key) => {
            assert(forall|i: int| 1 <= i < text.len() ==> text[i] == key[i - 1]);
            assert(text.last() == key.last());
            lemma_trimmed_already(text);
            assert forall|i: int| 0 <= i < text.len() implies #[trigger] text[i] != '(' && text[i]
                != ')' && text[i] != ',' && text[i] != '=' by {
                if i > 0 {
                    assert(text[i] == key[i - 1]);
                }
            }
            lemma_find_is(text, '(', text.len() as int);
            lemma_find_is(text, '=', text.len() as int);
            assert(text.skip(1) =~= key);
            lemma_unsplit(text, 0);
        },
        Requirement::Equal(key, value) => {
            lemma_equality_reads_back(key, value, false);
        },
        Requirement::NotEqual(key, value) => {
            lemma_equality_reads_back(key, value, true);
        },
        _ => {},
    }
}

proof fn lemma_equality_reads_back(key: Seq<char>, value: Seq<char>, negated: bool)
    requires
        good_key(key),
        value.len() == 0 || qualified_name(value),
    ensures
        ({
            let text = key + (if negated {
                "!="@
            } else {
                "="@
            }) + value;
            &&& label_requirement(text) == Ok::<Requirement, Seq<char>>(
                if negated {
                    Requirement::NotEqual(key, value)
                } else {
                    Requirement::Equal(key, value)
                },
            )
            &&& closed(text)
            &&& text.len() > 0
            &&& !is_white(text[0])
        }),
{
    reveal_strlit("=");
    reveal_strlit("!=");
    let operator = if negated {
        "!="@
    } else {
        "="@
    };
    let text = key + operator + value;
    let equals = key.len() + operator.len() - 1;
    lemma_good_key(key);
    lemma_key_text(key);
    lemma_value_text(value);
    lemma_key_text(value);
    lemma_trimmed_already(key);
    lemma_trimmed_already(value);
    assert forall|i: int| 0 <= i < text.len() implies #[trigger] text[i] != '(' && text[i] != ')'
        && text[i] != ',' by {
        if i < key.len() {
            assert(text[i] == key[i]);
        } else if i > equals {
            assert(text[i] == value[i - equals - 1]);
        }
    }
    assert(text[0] == key[0]);
    if value.len() > 0 {
        assert(text.last() == value.last());
    } else {
        assert(text.last() == '=');
    }
    lemma_trimmed_already(text);
    lemma_find_is(text, '(', text.len() as int);
    assert forall|i: int| 0 <= i < equals implies text[i] != '=' by {
        if i < key.len() {
            assert(text[i] == key[i]);
        }
    }
    lemma_find_is(text, '=', equals as int);
    lemma_unsplit(text, 0);
    assert(text.take(key.len() as int) =~= key);
    assert(text.skip(equals + 1) =~= value);
    if !negated {
        assert(text[equals - 1] == key.last());
        if value.len() > 0 {
            assert(text[equals + 1] == value[0]);
        }
    }
}

proof fn lemma_words_of_two(first: Seq<char>, second: Seq<char>)
    requires
        first.len() > 0,
        second.len() > 0,
        forall|i: int| 0 <= i < first.len() ==> !is_white(#[trigger] first[i]),
        forall|i: int| 0 <= i < second.len() ==> !is_white(#[trigger] second[i]),
    ensures
        words_of(first + seq![' '] + second) == seq![first, second],
{
    let text = first + seq![' '] + second;
    assert(text[0] == first[0]);
    lemma_find_white(text);
    assert(text[first.len() as int] == ' ');
    assert(find_white(text) == first.len()) by {
        let found = find_white(text);
        if found < first.len() {
            assert(text[found] == first[found]);
        }
        if found > first.len() {
            assert(!is_white(text[first.len() as int]));
        }
    }
    assert(text.take(first.len() as int) =~= first);
    let rest = text.skip(first.len() as int);
    assert(rest[0] == ' ');
    assert(rest.skip(1) =~= second);
    lemma_find_white(second);
    if find_white(second) < second.len() {
        assert(!is_white(second[find_white(second)]));
    }
    assert(crate::text::trimmed_start(rest) == crate::text::trimmed_start(second));
    assert(second.take(second.len() as int) =~= second);
    assert(second.skip(second.len() as int) =~= seq![]);
    assert(words_of(seq![]) =~= seq![]) by {
        assert(crate::text::trimmed_start(seq![]).len() == 0);
    }
    assert(words_of(rest) =~= seq![second]);
    assert(words_of(text) =~= seq![first, second]);
}

/// The text of a requirement with a value list.
spec fn set_text(key: Seq<char>, operator: Seq<char>, listed: Seq<char>) -> Seq<char> {
    key + seq![' '] + operator + seq![' '] + (seq!['('] + listed + seq![')'])
}

/// Whether a text is a word of letters.
spec fn operator_word(operator: Seq<char>) -> bool {
    &&& operator.len() > 0
    &&& forall|i: int| 0 <= i < operator.len() ==> is_alphanumeric(#[trigger] operator[i])
}

proof fn lemma_set_closed(key: Seq<char>, operator: Seq<char>, listed: Seq<char>)
    requires
        good_key(key),
        operator_word(operator),
        forall|i: int| 0 <= i < listed.len() ==> #[trigger] listed[i] != '(' && listed[i] != ')',
    ensures
        closed(set_text(key, operator, listed)),
{
    let tail = seq!['('] + listed + seq![')'];
    let left = key + seq![' '] + operator + seq![' '];
    lemma_good_key(key);
    lemma_key_text(key);
    assert forall|i: int| 0 <= i < left.len() implies #[trigger] left[i] != '(' && left[i] != ')'
        && left[i] != ',' by {
        if i < key.len() {
            assert(left[i] == key[i]);
        } else if key.len() < i < left.len() - 1 {
            assert(left[i] == operator[i - key.len() - 1]);
        }
    }
    lemma_unsplit(left, 0);
    lemma_find_comma_past(left, tail, 0);
    assert(tail[0] == '(');
    assert(tail.skip(1) =~= listed + seq![')']);
    lemma_inside(listed, 1);
    lemma_find_comma_past(listed, seq![')'], 1);
    let end = seq![')'];
    assert(end.skip(1) =~= seq![]);
    assert(depth_after(')', 1) == 0);
    assert(find_comma(end.skip(1), 0) == 0);
    assert(depth_through(end.skip(1), 0) == 0);
    assert(find_comma(end, 1) == 1);
    assert(depth_through(end, 1) == 0);
}

/// Where the parts of a requirement with a value list stand.
proof fn lemma_set_shape(key: Seq<char>, operator: Seq<char>, listed: Seq<char>)
    requires
        good_key(key),
        operator_word(operator),
    ensures
        ({
            let text = set_text(key, operator, listed);
            let open = find(text, '(');
            let tail = text.skip(open);
            &&& text.len() > 0
            &&& !is_white(text[0])
            &&& trimmed(text) == text
            &&& open < text.len()
            &&& words_of(trimmed(text.take(open))) == seq![key, operator]
            &&& tail.len() >= 2
            &&& crate::text::trimmed_end(tail) == tail
            &&& tail[0] == '('
            &&& tail.last() == ')'
            &&& tail.subrange(1, tail.len() - 1) == listed
        }),
{
    let text = set_text(key, operator, listed);
    let head = key + seq![' '] + operator;
    let open = head.len() + 1;
    lemma_good_key(key);
    lemma_key_text(key);
    assert(text[0] == key[0]);
    assert(text.last() == ')');
    lemma_trimmed_already(text);
    assert forall|i: int| 0 <= i < open implies text[i] != '(' by {
        if i < key.len() {
            assert(text[i] == key[i]);
        } else if key.len() < i < head.len() {
            assert(text[i] == operator[i - key.len() - 1]);
        }
    }
    lemma_find_is(text, '(', open as int);
    let before = text.take(open as int);
    assert(before =~= head + seq![' ']);
    assert(before.drop_last() =~= head);
    assert(before[0] == key[0]);
    assert(head[0] == key[0]);
    assert(head.last() == operator.last());
    lemma_trimmed_already(head);
    assert(crate::text::trimmed_start(before) == before);
    assert(crate::text::trimmed_end(before) == crate::text::trimmed_end(head));
    lemma_words_of_two(key, operator);
    let tail = text.skip(open as int);
    assert(tail =~= seq!['('] + listed + seq![')']);
    assert(tail.subrange(1, tail.len() - 1) =~= listed);
}

/// What the value list of a requirement reads back as.
proof fn lemma_list_reads_back(values: Seq<Seq<char>>)
    requires
        good_values(values),
    ensures
        value_list(joined(values, ","@)) == values,
        !some_empty(values),
        forall|i: int|
            0 <= i < joined(values, ","@).len() ==> #[trigger] joined(values, ","@)[i] != '('
                && joined(values, ","@)[i] != ')',
{
    reveal_strlit(",");
    let listed = joined(values, ","@);
    assert forall|i: int| 0 <= i < listed.len() implies #[trigger] listed[i] != '(' && listed[i]
        != ')' by {
        lemma_joined_chars(values, ","@, i);
        if !","@.contains(listed[i]) {
            let j = choose|j: int|
                0 <= j < values.len() && (#[trigger] values[j]).contains(listed[i]);
            assert(qualified_name(values[j]));
            let k = values[j].index_of(listed[i]);
            assert(is_name_char(values[j][k]));
        } else {
            let k = ","@.index_of(listed[i]);
            assert(","@[k] == ',');
        }
    }
    assert forall|i: int| 0 <= i < values.len() implies !(#[trigger] values[i]).contains(',') by {
        assert(qualified_name(values[i]));
        assert forall|k: int| 0 <= k < values[i].len() implies values[i][k] != ',' by {
            assert(is_name_char(values[i][k]));
        }
    }
    lemma_split_on_joined(values, ',');
    assert(","@ =~= seq![',']);
    assert forall|i: int| 0 <= i < values.len() implies trimmed(#[trigger] values[i])
        == values[i] by {
        assert(qualified_name(values[i]));
        lemma_trimmed_already(values[i]);
    }
    assert(value_list(listed) =~= values);
    assert forall|i: int| 0 <= i < values.len() implies (#[trigger] values[i]).len() != 0 by {
        assert(qualified_name(values[i]));
    }
}

/// A requirement with a value list reads back as itself.
proof fn lemma_set_reads_back(key: Seq<char>, values: Seq<Seq<char>>, negated: bool)
    requires
        good_key(key),
        good_values(values),
    ensures
        ({
            let requirement = if negated {
                Requirement::NotIn(key, values)
            } else {
                Requirement::In(key, values)
            };
            let text = requirement.canonical();
            &&& label_requirement(text) == Ok::<Requirement, Seq<char>>(requirement)
            &&& closed(text)
            &&& text.len() > 0
            &&& !is_white(text[0])
        }),
{
    reveal_strlit(" in (");
    reveal_strlit(" notin (");
    reveal_strlit("in");
    reveal_strlit("notin");
    reveal_strlit(")");
    let operator = if negated {
        "notin"@
    } else {
        "in"@
    };
    let requirement = if negated {
        Requirement::NotIn(key, values)
    } else {
        Requirement::In(key, values)
    };
    let listed = joined(values, ","@);
    let text = set_text(key, operator, listed);
    assert(requirement.canonical() =~= text);
    assert("in"@.len() != "notin"@.len());
    lemma_list_reads_back(values);
    lemma_set_closed(key, operator, listed);
    lemma_set_shape(key, operator, listed);
    lemma_good_key(key);
    lemma_key_text(key);
    lemma_values_problem(values, text);
    assert(key[0] != '!');
}

/// A requirement made of parts Kubernetes accepts reads back as itself from its
/// canonical text.
pub proof fn law_requirements_read_back(requirement: Requirement)
    requires
        good(requirement),
    ensures
        label_requirement(requirement.canonical()) == Ok::<Requirement, Seq<char>>(requirement),
{
    lemma_reads_back(requirement);
}

proof fn lemma_reads_back(requirement: Requirement)
    requires
        good(requirement),
    ensures
        label_requirement(requirement.canonical()) == Ok::<Requirement, Seq<char>>(requirement),
        closed(requirement.canonical()),
        requirement.canonical().len() > 0,
        !is_white(requirement.canonical()[0]),
{
    match requirement {
        Requirement::In(key, values) => {
            lemma_set_reads_back(key, values, false);
        },
        Requirement::NotIn(key, values) => {
            lemma_set_reads_back(key, values, true);
        },
        _ => {
            lemma_plain_reads_back(requirement);
        },
    }
}

/// The pieces of a selector read back as themselves.
proof fn lemma_label_pieces_read_back(raw: Seq<Seq<char>>)
    ensures
        label_pieces(raw) matches Ok(pieces) ==> {
            &&& pieces.len() == raw.len()
            &&& forall|i: int|
                0 <= i < pieces.len() ==> closed(#[trigger] pieces[i]) && pieces[i].len() > 0
                    && !is_white(pieces[i][0])
            &&& label_pieces(pieces) == Ok::<Seq<Seq<char>>, Seq<char>>(pieces)
        },
    decreases raw.len(),
{
    if raw.len() > 0 && label_pieces(raw) is Ok {
        let before = label_pieces(raw.drop_last())->Ok_0;
        let requirement = label_requirement(raw.last())->Ok_0;
        let pieces = label_pieces(raw)->Ok_0;
        lemma_label_pieces_read_back(raw.drop_last());
        law_parsed_requirements_are_good(raw.last());
        lemma_reads_back(requirement);
        assert(pieces == before.push(requirement.canonical()));
        assert(pieces.drop_last() =~= before);
    }
}

/// The canonical form of a label selector is its own canonical form: what is
/// sent to the API server is a selector that was vouched for.
pub proof fn law_label_canonical_is_fixed(input: Seq<char>)
    ensures
        label_canonical(input) matches Ok(canonical) ==> label_canonical(canonical) == Ok::<
            Seq<char>,
            Seq<char>,
        >(canonical),
{
    if label_canonical(input) is Ok {
        if is_blank(input) {
            assert(is_blank(Seq::<char>::empty()));
        } else {
            let raw = requirements(input);
            let pieces = label_pieces(raw)->Ok_0;
            lemma_label_pieces_read_back(raw);
            assert(raw.len() >= 1);
            lemma_requirements_of_joined(pieces);
            let canonical = joined(pieces, ","@);
            assert(!is_blank(canonical)) by {
                assert(canonical.len() > 0 && canonical[0] == pieces[0][0]) by {
                    if pieces.len() > 1 {
                        lemma_joined_first(pieces, ","@);
                    }
                }
                assert(!is_white(canonical[0]));
            }
        }
    }
}

/// A text without a comma or a parenthesis is one requirement.
pub(crate) proof fn lemma_single(text: Seq<char>)
    requires
        forall|i: int|
            0 <= i < text.len() ==> #[trigger] text[i] != '(' && text[i] != ')' && text[i] != ',',
    ensures
        requirements(text) == seq![text],
{
    lemma_unsplit(text, 0);
}

/// A requirement made of parts Kubernetes accepts is a selector in canonical form.
pub proof fn law_requirement_is_a_selector(requirement: Requirement)
    requires
        good(requirement),
    ensures
        label_canonical(requirement.canonical()) == Ok::<Seq<char>, Seq<char>>(
            requirement.canonical(),
        ),
{
    let text = requirement.canonical();
    lemma_reads_back(requirement);
    assert(requirements(text) =~= seq![text]);
    let raw = seq![text];
    assert(raw.drop_last() =~= seq![]);
    assert(label_pieces(raw.drop_last()) == Ok::<Seq<Seq<char>>, Seq<char>>(seq![]));
    assert(label_pieces(raw)->Ok_0 =~= seq![text]);
}

/// Whether a text holds no two equals signs in a row.
pub open spec fn no_double_equals(text: Seq<char>) -> bool {
    forall|i: int| 0 <= i < text.len() - 1 ==> !(#[trigger] text[i] == '=' && text[i + 1] == '=')
}

/// Whether a text is there, without white space around it, and without two equals
/// signs in a row.
pub open spec fn is_tidy(text: Seq<char>) -> bool {
    &&& text.len() > 0
    &&& !is_white(text[0])
    &&& !is_white(text.last())
    &&& no_double_equals(text)
}

/// The text of a requirement holds at most one equals sign.
proof fn lemma_requirement_is_tidy(requirement: Requirement)
    requires
        good(requirement),
    ensures
        is_tidy(requirement.canonical()),
{
    reveal_strlit("=");
    reveal_strlit("!=");
    reveal_strlit("!");
    reveal_strlit(" in (");
    reveal_strlit(" notin (");
    reveal_strlit(")");
    let text = requirement.canonical();
    lemma_reads_back(requirement);
    match requirement {
        Requirement::Equal(key, value) => {
            lemma_good_key(key);
            lemma_key_text(key);
            lemma_value_text(value);
            lemma_key_text(value);
            assert forall|i: int| 0 <= i < text.len() && text[i] == '=' implies i == key.len() by {
                if i < key.len() {
                    assert(text[i] == key[i]);
                } else if i > key.len() {
                    assert(text[i] == value[i - key.len() - 1]);
                }
            }
            if value.len() > 0 {
                assert(text.last() == value.last());
            }
        },
        Requirement::NotEqual(key, value) => {
            lemma_good_key(key);
            lemma_key_text(key);
            lemma_value_text(value);
            lemma_key_text(value);
            assert forall|i: int| 0 <= i < text.len() && text[i] == '=' implies i == key.len()
                + 1 by {
                if i < key.len() {
                    assert(text[i] == key[i]);
                } else if i > key.len() + 1 {
                    assert(text[i] == value[i - key.len() - 2]);
                }
            }
            if value.len() > 0 {
                assert(text.last() == value.last());
            }
        },
        Requirement::In(key, values) => {
            lemma_list_holds_no_equals(values);
            lemma_good_key(key);
            lemma_key_text(key);
            let listed = joined(values, ","@);
            assert forall|i: int| 0 <= i < text.len() implies text[i] != '=' by {
                if i < key.len() {
                    assert(text[i] == key[i]);
                } else if key.len() + 5 <= i < text.len() - 1 {
                    assert(text[i] == listed[i - key.len() - 5]);
                }
            }
        },
        Requirement::NotIn(key, values) => {
            lemma_list_holds_no_equals(values);
            lemma_good_key(key);
            lemma_key_text(key);
            let listed = joined(values, ","@);
            assert forall|i: int| 0 <= i < text.len() implies text[i] != '=' by {
                if i < key.len() {
                    assert(text[i] == key[i]);
                } else if key.len() + 8 <= i < text.len() - 1 {
                    assert(text[i] == listed[i - key.len() - 8]);
                }
            }
        },
        Requirement::Exists(key) => {
            lemma_good_key(key);
            lemma_key_text(key);
        },
        Requirement::DoesNotExist(key) => {
            lemma_good_key(key);
            lemma_key_text(key);
            assert(text.last() == key.last());
            assert forall|i: int| 0 <= i < text.len() implies text[i] != '=' by {
                if i > 0 {
                    assert(text[i] == key[i - 1]);
                }
            }
        },
    }
}

proof fn lemma_list_holds_no_equals(values: Seq<Seq<char>>)
    requires
        good_values(values),
    ensures
        forall|i: int|
            0 <= i < joined(values, ","@).len() ==> #[trigger] joined(values, ","@)[i] != '=',
{
    reveal_strlit(",");
    let listed = joined(values, ","@);
    assert forall|i: int| 0 <= i < listed.len() implies #[trigger] listed[i] != '=' by {
        lemma_joined_chars(values, ","@, i);
        if ","@.contains(listed[i]) {
            let k = ","@.index_of(listed[i]);
            assert(","@[k] == ',');
        } else {
            let j = choose|j: int|
                0 <= j < values.len() && (#[trigger] values[j]).contains(listed[i]);
            assert(qualified_name(values[j]));
            let k = values[j].index_of(listed[i]);
            assert(is_name_char(values[j][k]));
        }
    }
}

proof fn lemma_joined_is_tidy(pieces: Seq<Seq<char>>)
    requires
        pieces.len() >= 1,
        forall|i: int| 0 <= i < pieces.len() ==> is_tidy(#[trigger] pieces[i]),
    ensures
        is_tidy(joined(pieces, ","@)),
    decreases pieces.len(),
{
    reveal_strlit(",");
    if pieces.len() == 1 {
        assert(is_tidy(pieces[0]));
    } else {
        let before = pieces.drop_last();
        let last = pieces.last();
        assert(last == pieces[pieces.len() - 1]);
        assert forall|i: int| 0 <= i < before.len() implies is_tidy(#[trigger] before[i]) by {
            assert(before[i] == pieces[i]);
        }
        lemma_joined_is_tidy(before);
        let head = joined(before, ","@);
        let whole = joined(pieces, ","@);
        assert(whole[0] == head[0]);
        assert(whole.last() == last.last());
        assert forall|i: int| 0 <= i < whole.len() - 1 implies !(#[trigger] whole[i] == '='
            && whole[i + 1] == '=') by {
            if i + 1 < head.len() {
                assert(whole[i] == head[i]);
                assert(whole[i + 1] == head[i + 1]);
            } else if i > head.len() {
                assert(whole[i] == last[i - head.len() - 1]);
                assert(whole[i + 1] == last[i - head.len() - 1 + 1]);
            }
        }
    }
}

proof fn lemma_label_pieces_are_tidy(raw: Seq<Seq<char>>)
    ensures
        label_pieces(raw) matches Ok(pieces) ==> {
            &&& pieces.len() == raw.len()
            &&& forall|i: int| 0 <= i < pieces.len() ==> is_tidy(#[trigger] pieces[i])
        },
    decreases raw.len(),
{
    if raw.len() > 0 && label_pieces(raw) is Ok {
        let requirement = label_requirement(raw.last())->Ok_0;
        lemma_label_pieces_are_tidy(raw.drop_last());
        law_parsed_requirements_are_good(raw.last());
        lemma_requirement_is_tidy(requirement);
    }
}

/// The canonical form of a label selector has no white space around it and no
/// `==` in it, and is empty exactly where the selector is blank.
pub proof fn law_label_canonical_is_tidy(input: Seq<char>)
    ensures
        label_canonical(input) matches Ok(canonical) ==> {
            &&& canonical.len() == 0 <==> is_blank(input)
            &&& canonical.len() > 0 ==> !is_white(canonical[0]) && !is_white(canonical.last())
            &&& no_double_equals(canonical)
        },
{
    if label_canonical(input) is Ok && !is_blank(input) {
        let raw = requirements(input);
        lemma_label_pieces_are_tidy(raw);
        assert(raw.len() >= 1);
        lemma_joined_is_tidy(label_pieces(raw)->Ok_0);
    }
}

/// Whether a text holds no parentheses that open.
spec fn unopened(text: Seq<char>) -> bool {
    forall|i: int| 0 <= i < text.len() ==> #[trigger] text[i] != '('
}

proof fn lemma_depth_stays_at_nothing(text: Seq<char>)
    requires
        unopened(text),
    ensures
        depth_through(text, 0) == 0,
    decreases text.len(),
{
    if text.len() > 0 {
        assert(text[0] != '(');
        assert forall|i: int| 0 <= i < text.skip(1).len() implies #[trigger] text.skip(1)[i]
            != '(' by {
            assert(text.skip(1)[i] == text[i + 1]);
        }
        lemma_depth_stays_at_nothing(text.skip(1));
    }
}

proof fn lemma_depth_past(left: Seq<char>, right: Seq<char>, depth: nat)
    ensures
        depth_through(left + right, depth) == depth_through(right, depth_through(left, depth)),
    decreases left.len(),
{
    if left.len() == 0 {
        assert(left + right =~= right);
    } else {
        assert((left + right).skip(1) =~= left.skip(1) + right);
        lemma_depth_past(left.skip(1), right, depth_after(left[0], depth));
    }
}

/// A text is its trimmed middle with white space around it.
proof fn lemma_around_trimmed(text: Seq<char>) -> (around: (Seq<char>, Seq<char>))
    ensures
        text == around.0 + trimmed(text) + around.1,
        is_blank(around.0),
        is_blank(around.1),
{
    let start = lemma_before_trimmed(text);
    let end = lemma_after_trimmed(crate::text::trimmed_start(text));
    assert(text =~= start + trimmed(text) + end);
    (start, end)
}

proof fn lemma_before_trimmed(text: Seq<char>) -> (before: Seq<char>)
    ensures
        text == before + crate::text::trimmed_start(text),
        is_blank(before),
    decreases text.len(),
{
    if text.len() > 0 && is_white(text[0]) {
        let rest = lemma_before_trimmed(text.skip(1));
        let before = seq![text[0]] + rest;
        let inner = crate::text::trimmed_start(text.skip(1));
        assert(text =~= seq![text[0]] + text.skip(1));
        assert(seq![text[0]] + (rest + inner) =~= before + inner);
        assert forall|i: int| 0 <= i < before.len() implies is_white(#[trigger] before[i]) by {
            if i > 0 {
                assert(before[i] == rest[i - 1]);
            }
        }
        before
    } else {
        assert(text =~= seq![] + text);
        seq![]
    }
}

proof fn lemma_after_trimmed(text: Seq<char>) -> (after: Seq<char>)
    ensures
        text == crate::text::trimmed_end(text) + after,
        is_blank(after),
    decreases text.len(),
{
    if text.len() > 0 && is_white(text.last()) {
        let rest = lemma_after_trimmed(text.drop_last());
        let after = rest.push(text.last());
        let inner = crate::text::trimmed_end(text.drop_last());
        assert(text =~= text.drop_last().push(text.last()));
        assert((inner + rest).push(text.last()) =~= inner + after);
        assert forall|i: int| 0 <= i < after.len() implies is_white(#[trigger] after[i]) by {
            if i < rest.len() {
                assert(after[i] == rest[i]);
            }
        }
        after
    } else {
        assert(text =~= text + seq![]);
        seq![]
    }
}

/// White space opens no parenthesis.
proof fn lemma_blank_is_unopened(text: Seq<char>)
    requires
        is_blank(text),
    ensures
        unopened(text),
        forall|i: int| 0 <= i < text.len() ==> #[trigger] text[i] != ')',
{
    assert forall|i: int| 0 <= i < text.len() implies #[trigger] text[i] != '(' && text[i]
        != ')' by {
        assert(is_white(text[i]));
    }
}

/// The values of a requirement that parses hold no parentheses.
proof fn lemma_listed_is_inside(listed: Seq<char>, requirement: Seq<char>)
    requires
        !some_empty(value_list(listed)),
        values_problem(value_list(listed), requirement) is None,
    ensures
        forall|i: int| 0 <= i < listed.len() ==> #[trigger] listed[i] != '(' && listed[i] != ')',
{
    let values = value_list(listed);
    let pieces = split_on(listed, ',');
    lemma_values_problem(values, requirement);
    assert forall|i: int| 0 <= i < listed.len() implies #[trigger] listed[i] != '(' && listed[i]
        != ')' by {
        if listed[i] != ',' {
            lemma_split_on_covers(listed, ',', i);
            let j = choose|j: int|
                0 <= j < pieces.len() && (#[trigger] pieces[j]).contains(listed[i]);
            let piece = pieces[j];
            let k = piece.index_of(listed[i]);
            let around = lemma_around_trimmed(piece);
            lemma_blank_is_unopened(around.0);
            lemma_blank_is_unopened(around.1);
            let value = trimmed(piece);
            assert(values[j] == value);
            assert(values[j].len() != 0);
            assert(qualified_name(value));
            if k < around.0.len() {
                assert(piece[k] == around.0[k]);
            } else if k < around.0.len() + value.len() {
                assert(piece[k] == value[k - around.0.len()]);
                assert(is_name_char(value[k - around.0.len()]));
            } else {
                assert(piece[k] == around.1[k - around.0.len() - value.len()]);
            }
        }
    }
}

/// Behind a requirement that parses, as many parentheses are closed as opened.
proof fn lemma_parsed_is_balanced(raw: Seq<char>)
    requires
        label_requirement(raw) is Ok,
    ensures
        depth_through(raw, 0) == 0,
{
    let around = lemma_around_trimmed(raw);
    let text = trimmed(raw);
    lemma_blank_is_unopened(around.0);
    lemma_blank_is_unopened(around.1);
    lemma_depth_stays_at_nothing(around.0);
    lemma_depth_stays_at_nothing(around.1);
    lemma_depth_past(around.0 + text, around.1, 0);
    lemma_depth_past(around.0, text, 0);
    lemma_find(text, '(');
    let open = find(text, '(');
    if open >= text.len() {
        lemma_depth_stays_at_nothing(text);
    } else {
        lemma_trimmed(raw);
        let head = text.take(open);
        let tail = text.skip(open);
        assert(tail.last() == text.last());
        assert(crate::text::trimmed_end(tail) == tail);
        let listed = tail.subrange(1, tail.len() - 1);
        lemma_listed_is_inside(listed, text);
        lemma_inside(listed, 1);
        assert(unopened(head));
        lemma_depth_stays_at_nothing(head);
        assert(text =~= head + tail);
        lemma_depth_past(head, tail, 0);
        assert(tail.skip(1) =~= listed + seq![')']);
        lemma_depth_past(listed, seq![')'], 1);
        let end = seq![')'];
        assert(end.skip(1) =~= seq![]);
        assert(depth_after(')', 1) == 0);
        assert(depth_through(end.skip(1), 0) == 0);
        assert(depth_through(end, 1) == 0);
    }
}

proof fn lemma_find_comma_within(left: Seq<char>, right: Seq<char>, depth: nat)
    requires
        find_comma(left, depth) < left.len(),
    ensures
        find_comma(left + right, depth) == find_comma(left, depth),
    decreases left.len(),
{
    assert((left + right)[0] == left[0]);
    if !(left[0] == ',' && depth == 0) {
        assert((left + right).skip(1) =~= left.skip(1) + right);
        lemma_find_comma_within(left.skip(1), right, depth_after(left[0], depth));
    }
}

proof fn lemma_find_comma_bounds(text: Seq<char>, depth: nat)
    ensures
        0 <= find_comma(text, depth) <= text.len(),
    decreases text.len(),
{
    if text.len() > 0 && !(text[0] == ',' && depth == 0) {
        lemma_find_comma_bounds(text.skip(1), depth_after(text[0], depth));
    }
}

pub(crate) proof fn lemma_requirements_of_both(first: Seq<char>, second: Seq<char>)
    requires
        forall|i: int|
            0 <= i < requirements(first).len() ==> label_requirement(
                #[trigger] requirements(first)[i],
            ) is Ok,
    ensures
        requirements(first + seq![','] + second) == requirements(first) + requirements(second),
    decreases first.len(),
{
    let place = find_comma(first, 0);
    let tail = seq![','] + second;
    let whole = first + seq![','] + second;
    let pieces = requirements(first);
    assert(whole =~= first + tail);
    lemma_find_comma_bounds(first, 0);
    if place >= first.len() {
        assert(pieces[0] == first);
        lemma_parsed_is_balanced(first);
        lemma_find_comma_past(first, tail, 0);
        assert(tail[0] == ',');
        assert(find_comma(whole, 0) == first.len());
        assert(whole.take(first.len() as int) =~= first);
        assert(whole.skip(place + 1) =~= second);
        assert(requirements(whole) =~= pieces + requirements(second));
    } else {
        let rest = first.skip(place + 1);
        lemma_find_comma_within(first, tail, 0);
        assert forall|i: int| 0 <= i < requirements(rest).len() implies label_requirement(
            #[trigger] requirements(rest)[i],
        ) is Ok by {
            assert(pieces[i + 1] == requirements(rest)[i]);
        }
        lemma_requirements_of_both(rest, second);
        assert(whole.take(place) =~= first.take(place));
        assert(whole.skip(place + 1) =~= rest + seq![','] + second);
        assert(requirements(whole) =~= pieces + requirements(second));
    }
}

pub(crate) proof fn lemma_each_parses(raw: Seq<Seq<char>>)
    requires
        label_pieces(raw) is Ok,
    ensures
        forall|i: int| 0 <= i < raw.len() ==> label_requirement(#[trigger] raw[i]) is Ok,
        label_pieces(raw)->Ok_0.len() == raw.len(),
    decreases raw.len(),
{
    if raw.len() > 0 {
        lemma_each_parses(raw.drop_last());
        assert forall|i: int| 0 <= i < raw.len() implies label_requirement(
            #[trigger] raw[i],
        ) is Ok by {
            if i < raw.len() - 1 {
                assert(raw.drop_last()[i] == raw[i]);
            }
        }
    }
}

proof fn lemma_pieces_of_both(first: Seq<Seq<char>>, second: Seq<Seq<char>>)
    requires
        label_pieces(first) is Ok,
        label_pieces(second) is Ok,
    ensures
        label_pieces(first + second) == Ok::<Seq<Seq<char>>, Seq<char>>(
            label_pieces(first)->Ok_0 + label_pieces(second)->Ok_0,
        ),
    decreases second.len(),
{
    let both = first + second;
    if second.len() == 0 {
        assert(both =~= first);
        assert(label_pieces(first)->Ok_0 + label_pieces(second)->Ok_0 =~= label_pieces(
            first,
        )->Ok_0);
    } else {
        lemma_pieces_of_both(first, second.drop_last());
        assert(both.drop_last() =~= first + second.drop_last());
        assert(both.last() == second.last());
        assert(label_pieces(both)->Ok_0 =~= label_pieces(first)->Ok_0 + label_pieces(
            second,
        )->Ok_0);
    }
}

pub(crate) proof fn lemma_joined_both(first: Seq<Seq<char>>, second: Seq<Seq<char>>, separator: Seq<char>)
    requires
        first.len() >= 1,
        second.len() >= 1,
    ensures
        joined(first + second, separator) == joined(first, separator) + separator + joined(
            second,
            separator,
        ),
    decreases second.len(),
{
    let both = first + second;
    assert(both.last() == second.last());
    if second.len() == 1 {
        assert(both.drop_last() =~= first);
    } else {
        lemma_joined_both(first, second.drop_last(), separator);
        assert(both.drop_last() =~= first + second.drop_last());
        assert(joined(both, separator) =~= joined(first, separator) + separator + joined(
            second,
            separator,
        ));
    }
}

/// Requirements are kept one for one, in the order written: two selectors joined
/// by a comma have their canonical forms joined by a comma.
pub proof fn law_label_selectors_join(first: Seq<char>, second: Seq<char>)
    requires
        !is_blank(first),
        !is_blank(second),
        label_canonical(first) is Ok,
        label_canonical(second) is Ok,
    ensures
        label_canonical(first + seq![','] + second) == Ok::<Seq<char>, Seq<char>>(
            label_canonical(first)->Ok_0 + seq![','] + label_canonical(second)->Ok_0,
        ),
{
    let whole = first + seq![','] + second;
    reveal_strlit(",");
    assert(","@ =~= seq![',']);
    assert(whole[first.len() as int] == ',');
    assert(!is_white(','));
    assert(!is_blank(whole));
    lemma_each_parses(requirements(first));
    lemma_each_parses(requirements(second));
    lemma_requirements_of_both(first, second);
    lemma_pieces_of_both(requirements(first), requirements(second));
    assert(requirements(first).len() >= 1);
    assert(requirements(second).len() >= 1);
    lemma_joined_both(
        label_pieces(requirements(first))->Ok_0,
        label_pieces(requirements(second))->Ok_0,
        ","@,
    );
}

/// Whether one requirement of a field selector keeps its meaning when the white
/// space around its operator goes: its value does not start with a `=` that would
/// join the operator, nor its field name end in a `!` that would.
pub open spec fn settled(raw: Seq<char>) -> bool {
    let text = trimmed(raw);
    let key = operand_before(text);
    let value = operand_after(text);
    is_negated(text) || if key.last() == '!' {
        key.len() >= 2 && !is_white(key[key.len() - 2])
    } else {
        !(value.len() > 0 && value[0] == '=')
    }
}

proof fn lemma_field_reads_back(raw: Seq<char>)
    requires
        settled(raw),
        !raw.contains(','),
    ensures
        field_requirement(raw) matches Ok(piece) ==> {
            &&& field_requirement(piece) == Ok::<Seq<char>, Seq<char>>(piece)
            &&& !piece.contains(',')
            &&& piece.len() > 0
            &&& !is_white(piece[0])
        },
{
    reveal_strlit("=");
    reveal_strlit("!=");
    if field_requirement(raw) is Ok {
        let text = trimmed(raw);
        let equals = find(text, '=');
        lemma_trimmed(raw);
        lemma_find(text, '=');
        let piece = field_requirement(raw)->Ok_0;
        let key = operand_before(text);
        let value = operand_after(text);
        let negated = is_negated(text);
        let source = if negated {
            text.take(equals - 1)
        } else {
            text.take(equals)
        };
        lemma_trimmed(source);
        assert(key == trimmed(source));
        let tail = if !negated && equals + 1 < text.len() && text[equals + 1] == '=' {
            text.skip(equals + 2)
        } else {
            text.skip(equals + 1)
        };
        lemma_trimmed(tail);
        assert(value == trimmed(tail));
        assert forall|i: int| 0 <= i < key.len() implies #[trigger] key[i] != '=' && key[i]
            != ',' by {
            assert(source.contains(key[i]));
            let j = source.index_of(key[i]);
            assert(text[j] == key[i]);
            assert(raw.contains(text[j]));
        }
        assert forall|i: int| 0 <= i < value.len() implies #[trigger] value[i] != ',' by {
            assert(tail.contains(value[i]));
            let j = tail.index_of(value[i]);
            let at = j + (text.len() - tail.len());
            assert(text[at] == value[i]);
            assert(raw.contains(text[at]));
        }
        let operator = if negated {
            "!="@
        } else {
            "="@
        };
        assert(piece == key + operator + value);
        let again = key.len() + operator.len() - 1;
        assert(!piece.contains(',')) by {
            assert forall|i: int| 0 <= i < piece.len() implies piece[i] != ',' by {
                if i < key.len() {
                    assert(piece[i] == key[i]);
                } else if i > again {
                    assert(piece[i] == value[i - again - 1]);
                }
            }
        }
        assert(piece[0] == key[0]);
        if value.len() > 0 {
            assert(piece.last() == value.last());
        } else {
            assert(piece.last() == '=');
        }
        lemma_trimmed_already(piece);
        assert forall|i: int| 0 <= i < again implies piece[i] != '=' by {
            if i < key.len() {
                assert(piece[i] == key[i]);
            }
        }
        lemma_find_is(piece, '=', again as int);
        assert(piece.skip(again + 1) =~= value);
        lemma_trimmed_already(value);
        lemma_trimmed_already(key);
        if negated {
            assert(piece.take(again - 1) =~= key);
        } else {
            assert(piece[again - 1] == key.last());
            if key.last() == '!' {
                let shorter = key.drop_last();
                assert(piece.take(again - 1) =~= shorter);
                assert(shorter.last() == key[key.len() - 2]);
                assert(shorter[0] == key[0]);
                lemma_trimmed_already(shorter);
                assert(shorter + "!="@ + value =~= piece);
            } else {
                assert(piece.take(again as int) =~= key);
                if value.len() > 0 {
                    assert(piece[again + 1] == value[0]);
                }
            }
        }
    }
}

proof fn lemma_field_pieces_read_back(raw: Seq<Seq<char>>)
    requires
        forall|i: int| 0 <= i < raw.len() ==> settled(#[trigger] raw[i]) && !raw[i].contains(','),
    ensures
        field_pieces(raw) matches Ok(pieces) ==> {
            &&& pieces.len() == raw.len()
            &&& forall|i: int|
                0 <= i < pieces.len() ==> !(#[trigger] pieces[i]).contains(',') && pieces[i].len()
                    > 0 && !is_white(pieces[i][0])
            &&& field_pieces(pieces) == Ok::<Seq<Seq<char>>, Seq<char>>(pieces)
        },
    decreases raw.len(),
{
    if raw.len() > 0 && field_pieces(raw) is Ok {
        let before = field_pieces(raw.drop_last())->Ok_0;
        let piece = field_requirement(raw.last())->Ok_0;
        let pieces = field_pieces(raw)->Ok_0;
        assert forall|i: int| 0 <= i < raw.drop_last().len() implies settled(
            #[trigger] raw.drop_last()[i],
        ) && !raw.drop_last()[i].contains(',') by {
            assert(raw.drop_last()[i] == raw[i]);
        }
        lemma_field_pieces_read_back(raw.drop_last());
        assert(raw.last() == raw[raw.len() - 1]);
        lemma_field_reads_back(raw.last());
        assert(pieces == before.push(piece));
        assert(pieces.drop_last() =~= before);
    }
}

proof fn lemma_split_on_leaves_none(text: Seq<char>, separator: char)
    ensures
        forall|i: int|
            0 <= i < split_on(text, separator).len() ==> !(#[trigger] split_on(
                text,
                separator,
            )[i]).contains(separator),
    decreases text.len(),
{
    let pieces = split_on(text, separator);
    let place = find(text, separator);
    lemma_find(text, separator);
    if place >= text.len() {
        assert(pieces[0] == text);
    } else {
        let rest = text.skip(place + 1);
        lemma_split_on_leaves_none(rest, separator);
        assert forall|i: int| 0 <= i < pieces.len() implies !(#[trigger] pieces[i]).contains(
            separator,
        ) by {
            if i > 0 {
                assert(pieces[i] == split_on(rest, separator)[i - 1]);
            }
        }
    }
}

/// The canonical form of a field selector is its own canonical form, wherever no
/// `=` or `!` stands beside an operator with only white space between them.
pub proof fn law_field_canonical_is_fixed(input: Seq<char>)
    requires
        forall|i: int|
            0 <= i < split_on(input, ',').len() ==> settled(#[trigger] split_on(input, ',')[i]),
    ensures
        field_canonical(input) matches Ok(canonical) ==> field_canonical(canonical) == Ok::<
            Seq<char>,
            Seq<char>,
        >(canonical),
{
    if field_canonical(input) is Ok {
        if is_blank(input) {
            assert(is_blank(Seq::<char>::empty()));
        } else {
            let raw = split_on(input, ',');
            let pieces = field_pieces(raw)->Ok_0;
            lemma_split_on_leaves_none(input, ',');
            lemma_split_on_nonempty(input, ',');
            lemma_field_pieces_read_back(raw);
            reveal_strlit(",");
            assert(","@ =~= seq![',']);
            lemma_split_on_joined(pieces, ',');
            let canonical = joined(pieces, ","@);
            assert(!is_blank(canonical)) by {
                assert(canonical.len() > 0 && canonical[0] == pieces[0][0]) by {
                    if pieces.len() > 1 {
                        lemma_joined_first(pieces, ","@);
                    }
                }
                assert(!is_white(canonical[0]));
            }
        }
    }
}

} // verus!
