//! Which selectors are accepted, and what they become.

use vstd::prelude::*;

use crate::k8s::canonical::{
    good_key, law_requirement_is_a_selector, lemma_each_parses, lemma_joined_both,
    lemma_requirements_of_both, lemma_single,
};
use crate::k8s::selector::{
    dns_label, dns_subdomain, field_canonical, field_pieces, field_requirement, find_comma,
    forgot_values, is_name_char, key_name, key_problem, label_canonical, label_pieces,
    label_requirement, operand_after, operand_before, qualified_name, requirements, value_problem,
    Requirement,
};
use crate::text::{
    debug_form, find, find_white, is_blank, is_white, joined, lemma_find, lemma_find_is,
    lemma_find_white, lemma_split_on_joined, lemma_trimmed_already, split_on, trimmed, trimmed_end,
    trimmed_start, words_of,
};

verus! {

/// Whether a character is an ASCII letter or digit.
pub open spec fn letter_or_digit(c: char) -> bool {
    ('a' <= c && c <= 'z') || ('A' <= c && c <= 'Z') || ('0' <= c && c <= '9')
}

/// Whether a character is a small ASCII letter or a digit.
pub open spec fn small_or_digit(c: char) -> bool {
    ('a' <= c && c <= 'z') || ('0' <= c && c <= '9')
}

/// Whether a text is a label's name, or a value: 1 to 63 letters, digits, hyphens,
/// underscores and dots, with a letter or digit at each end.
pub open spec fn is_name(text: Seq<char>) -> bool {
    &&& 1 <= text.len() <= 63
    &&& letter_or_digit(text[0])
    &&& letter_or_digit(text[text.len() - 1])
    &&& forall|i: int|
        0 <= i < text.len() ==> letter_or_digit(#[trigger] text[i]) || text[i] == '-' || text[i]
            == '_' || text[i] == '.'
}

/// Whether a text is one part of a domain: 1 to 63 small letters, digits and
/// hyphens, with a letter or digit at each end.
pub open spec fn is_domain_part(text: Seq<char>) -> bool {
    &&& 1 <= text.len() <= 63
    &&& small_or_digit(text[0])
    &&& small_or_digit(text[text.len() - 1])
    &&& forall|i: int| 0 <= i < text.len() ==> small_or_digit(#[trigger] text[i]) || text[i] == '-'
}

/// Whether these are the parts of a domain of at most 253 characters.
pub open spec fn is_domain(parts: Seq<Seq<char>>) -> bool {
    &&& parts.len() >= 1
    &&& joined(parts, seq!['.']).len() <= 253
    &&& forall|i: int| 0 <= i < parts.len() ==> is_domain_part(#[trigger] parts[i])
}

/// A label key: a name, behind a domain and a slash where there is a domain.
pub open spec fn key_of(parts: Seq<Seq<char>>, name: Seq<char>) -> Seq<char> {
    if parts.len() == 0 {
        name
    } else {
        joined(parts, seq!['.']) + seq!['/'] + name
    }
}

/// Whether these make a label key that is accepted.
pub open spec fn is_key(parts: Seq<Seq<char>>, name: Seq<char>) -> bool {
    is_name(name) && (parts.len() == 0 || is_domain(parts))
}

/// Whether a selector is accepted, and becomes this.
pub open spec fn becomes(selector: Seq<char>, canonical: Seq<char>) -> bool {
    label_canonical(selector) == Ok::<Seq<char>, Seq<char>>(canonical)
}

proof fn lemma_domain(parts: Seq<Seq<char>>)
    requires
        parts.len() >= 1,
        forall|i: int| 0 <= i < parts.len() ==> is_domain_part(#[trigger] parts[i]),
    ensures
        ({
            let text = joined(parts, seq!['.']);
            &&& text.len() >= 1
            &&& small_or_digit(text[0])
            &&& forall|i: int|
                0 <= i < text.len() ==> small_or_digit(#[trigger] text[i]) || text[i] == '-'
                    || text[i] == '.'
            &&& split_on(text, '.') == parts
        }),
    decreases parts.len(),
{
    let text = joined(parts, seq!['.']);
    assert forall|i: int| 0 <= i < parts.len() implies !(#[trigger] parts[i]).contains('.') by {
        assert(is_domain_part(parts[i]));
    }
    lemma_split_on_joined(parts, '.');
    assert(is_domain_part(parts[0]));
    if parts.len() > 1 {
        let before = parts.drop_last();
        assert(forall|i: int| 0 <= i < before.len() ==> before[i] == parts[i]);
        lemma_domain(before);
        let head = joined(before, seq!['.']);
        let last = parts.last();
        assert(last == parts[parts.len() - 1]);
        assert(is_domain_part(last));
        assert(text[0] == head[0]);
        assert forall|i: int| 0 <= i < text.len() implies small_or_digit(#[trigger] text[i])
            || text[i] == '-' || text[i] == '.' by {
            if i < head.len() {
                assert(text[i] == head[i]);
            } else if i > head.len() {
                assert(text[i] == last[i - head.len() - 1]);
            }
        }
    }
}

proof fn lemma_name(text: Seq<char>)
    ensures
        qualified_name(text) == is_name(text),
{
    if qualified_name(text) {
        assert forall|i: int| 0 <= i < text.len() implies letter_or_digit(#[trigger] text[i])
            || text[i] == '-' || text[i] == '_' || text[i] == '.' by {
            assert(is_name_char(text[i]));
        }
    }
    if is_name(text) {
        assert forall|i: int| 0 <= i < text.len() implies is_name_char(#[trigger] text[i]) by {
            assert(letter_or_digit(text[i]) || text[i] == '-' || text[i] == '_' || text[i] == '.');
        }
    }
}

proof fn lemma_part(text: Seq<char>)
    ensures
        dns_label(text) == is_domain_part(text),
{
}

/// Whether a character may stand in a label key.
spec fn in_key(c: char) -> bool {
    letter_or_digit(c) || c == '-' || c == '_' || c == '.' || c == '/'
}

proof fn lemma_key(parts: Seq<Seq<char>>, name: Seq<char>)
    requires
        is_key(parts, name),
    ensures
        ({
            let key = key_of(parts, name);
            &&& good_key(key)
            &&& key.len() > 0
            &&& letter_or_digit(key[0])
            &&& letter_or_digit(key[key.len() - 1])
            &&& forall|i: int| 0 <= i < key.len() ==> in_key(#[trigger] key[i])
        }),
{
    let key = key_of(parts, name);
    lemma_name(name);
    if parts.len() == 0 {
        lemma_find_is(key, '/', key.len() as int);
        assert forall|i: int| 0 <= i < key.len() implies in_key(#[trigger] key[i]) by {
            assert(letter_or_digit(name[i]) || name[i] == '-' || name[i] == '_' || name[i] == '.');
        }
    } else {
        let prefix = joined(parts, seq!['.']);
        lemma_domain(parts);
        let slash = prefix.len() as int;
        assert(key[slash] == '/');
        assert forall|i: int| 0 <= i < slash implies key[i] != '/' by {
            assert(key[i] == prefix[i]);
        }
        lemma_find_is(key, '/', slash);
        assert(key.skip(slash + 1) =~= name);
        assert(key.take(slash) =~= prefix);
        assert forall|i: int| 0 <= i < name.len() implies name[i] != '/' by {
            assert(letter_or_digit(name[i]) || name[i] == '-' || name[i] == '_' || name[i] == '.');
        }
        lemma_find_is(name, '/', name.len() as int);
        assert forall|i: int| 0 <= i < parts.len() implies dns_label(#[trigger] parts[i]) by {
            lemma_part(parts[i]);
            assert(is_domain_part(parts[i]));
        }
        assert(key[0] == prefix[0]);
        assert(key[key.len() - 1] == name[name.len() - 1]);
        assert forall|i: int| 0 <= i < key.len() implies in_key(#[trigger] key[i]) by {
            if i < slash {
                assert(key[i] == prefix[i]);
            } else if i > slash {
                assert(key[i] == name[i - slash - 1]);
            }
        }
    }
}

proof fn lemma_literals()
    ensures
        "="@ == seq!['='],
        "!="@ == seq!['!', '='],
        " in ("@ == seq![' ', 'i', 'n', ' ', '('],
        " notin ("@ == seq![' ', 'n', 'o', 't', 'i', 'n', ' ', '('],
        ")"@ == seq![')'],
        "!"@ == seq!['!'],
        ","@ == seq![','],
{
    reveal_strlit("=");
    reveal_strlit("!=");
    reveal_strlit(" in (");
    reveal_strlit(" notin (");
    reveal_strlit(")");
    reveal_strlit("!");
    reveal_strlit(",");
    assert("="@ =~= seq!['=']);
    assert("!="@ =~= seq!['!', '=']);
    assert(" in ("@ =~= seq![' ', 'i', 'n', ' ', '(']);
    assert(" notin ("@ =~= seq![' ', 'n', 'o', 't', 'i', 'n', ' ', '(']);
    assert(")"@ =~= seq![')']);
    assert("!"@ =~= seq!['!']);
    assert(","@ =~= seq![',']);
}

/// What is made of keys and values that Kubernetes takes is accepted, in each form
/// of the grammar, and is in canonical form already; a value may be empty but for in
/// a list.
pub proof fn law_good_selectors_are_accepted(
    parts: Seq<Seq<char>>,
    name: Seq<char>,
    value: Seq<char>,
    values: Seq<Seq<char>>,
)
    requires
        is_key(parts, name),
        value.len() == 0 || is_name(value),
        values.len() >= 1,
        forall|i: int| 0 <= i < values.len() ==> is_name(#[trigger] values[i]),
    ensures
        ({
            let key = key_of(parts, name);
            let list = joined(values, seq![',']) + seq![')'];
            let inside = key + seq![' ', 'i', 'n', ' ', '('] + list;
            let outside = key + seq![' ', 'n', 'o', 't', 'i', 'n', ' ', '('] + list;
            &&& becomes(key + seq!['='] + value, key + seq!['='] + value)
            &&& becomes(key + seq!['!', '='] + value, key + seq!['!', '='] + value)
            &&& becomes(key, key)
            &&& becomes(seq!['!'] + key, seq!['!'] + key)
            &&& becomes(inside, inside)
            &&& becomes(outside, outside)
        }),
{
    let key = key_of(parts, name);
    lemma_key(parts, name);
    lemma_name(value);
    lemma_literals();
    assert forall|i: int| 0 <= i < values.len() implies qualified_name(#[trigger] values[i]) by {
        lemma_name(values[i]);
        assert(is_name(values[i]));
    }
    let list = joined(values, seq![',']) + seq![')'];
    law_requirement_is_a_selector(Requirement::Equal(key, value));
    law_requirement_is_a_selector(Requirement::NotEqual(key, value));
    law_requirement_is_a_selector(Requirement::Exists(key));
    law_requirement_is_a_selector(Requirement::DoesNotExist(key));
    law_requirement_is_a_selector(Requirement::In(key, values));
    law_requirement_is_a_selector(Requirement::NotIn(key, values));
    assert(Requirement::In(key, values).canonical() =~= key + seq![' ', 'i', 'n', ' ', '('] + list);
    assert(Requirement::NotIn(key, values).canonical() =~= key + seq![
        ' ',
        'n',
        'o',
        't',
        'i',
        'n',
        ' ',
        '(',
    ] + list);
}

/// Whether a text is spaces alone.
pub open spec fn is_space(text: Seq<char>) -> bool {
    forall|i: int| 0 <= i < text.len() ==> #[trigger] text[i] == ' '
}

proof fn lemma_padded(left: Seq<char>, inner: Seq<char>, right: Seq<char>)
    requires
        is_space(left),
        is_space(right),
        inner.len() > 0 ==> !is_white(inner[0]) && !is_white(inner[inner.len() - 1]),
    ensures
        trimmed(left + inner + right) == inner,
        inner.len() > 0 ==> !is_blank(left + inner + right),
    decreases left.len() + right.len(),
{
    let text = left + inner + right;
    if inner.len() > 0 {
        assert(text[left.len() as int] == inner[0]);
    }
    if left.len() > 0 {
        let less = left.skip(1);
        assert(forall|i: int| 0 <= i < less.len() ==> less[i] == left[i + 1]);
        lemma_padded(less, inner, right);
        assert(text[0] == left[0]);
        assert(text.skip(1) =~= less + inner + right);
    } else if right.len() > 0 {
        let less = right.drop_last();
        assert(forall|i: int| 0 <= i < less.len() ==> less[i] == right[i]);
        lemma_padded(left, inner, less);
        assert(text.last() == right[right.len() - 1]);
        assert(text.drop_last() =~= left + inner + less);
        if inner.len() > 0 {
            assert(text[0] == inner[0]);
            assert((left + inner + less)[0] == inner[0]);
        } else {
            lemma_spaces(text);
        }
    } else {
        assert(text =~= inner);
        if inner.len() > 0 {
            lemma_trimmed_already(text);
        }
    }
}

proof fn lemma_spaces(text: Seq<char>)
    requires
        is_space(text),
    ensures
        trimmed_start(text).len() == 0,
        trimmed(text).len() == 0,
    decreases text.len(),
{
    if text.len() > 0 {
        assert(text[0] == ' ');
        assert(forall|i: int| 0 <= i < text.skip(1).len() ==> text.skip(1)[i] == text[i + 1]);
        lemma_spaces(text.skip(1));
    }
}

/// The three operators that compare a key with a value.
pub open spec fn is_operator(operator: Seq<char>) -> bool {
    operator == seq!['='] || operator == seq!['=', '='] || operator == seq!['!', '=']
}

/// A comparison with spaces around each of its parts.
pub open spec fn spaced(
    a: Seq<char>,
    key: Seq<char>,
    b: Seq<char>,
    operator: Seq<char>,
    c: Seq<char>,
    value: Seq<char>,
    d: Seq<char>,
) -> Seq<char> {
    a + (key + b + operator + c + value) + d
}

proof fn lemma_operands(
    key: Seq<char>,
    b: Seq<char>,
    operator: Seq<char>,
    c: Seq<char>,
    value: Seq<char>,
)
    requires
        is_space(b),
        is_space(c),
        is_operator(operator),
        key.len() > 0,
        !is_white(key[0]),
        !is_white(key[key.len() - 1]),
        key[key.len() - 1] != '!',
        value.len() > 0,
        !is_white(value[0]),
        !is_white(value[value.len() - 1]),
        value[0] != '=',
        forall|i: int| 0 <= i < key.len() ==> #[trigger] key[i] != '=',
    ensures
        ({
            let text = key + b + operator + c + value;
            &&& trimmed(text) == text
            &&& text.len() > 0
            &&& find(text, '=') < text.len()
            &&& operand_before(text) == key
            &&& operand_after(text) == value
            &&& crate::k8s::selector::is_negated(text) == (operator == seq!['!', '='])
        }),
{
    let text = key + b + operator + c + value;
    let start = (key.len() + b.len()) as int;
    let equals = if operator == seq!['!', '='] {
        start + 1
    } else {
        start
    };
    assert(seq!['='].len() == 1);
    assert(seq!['=', '='].len() == 2);
    assert(seq!['!', '='].len() == 2);
    assert(seq!['!', '='][0] == '!' && seq!['!', '='][1] == '=');
    assert(seq!['=', '='][0] == '=' && seq!['=', '='][1] == '=');
    assert(seq!['='][0] == '=');
    assert(text[0] == key[0]);
    assert(text.last() == value[value.len() - 1]);
    lemma_trimmed_already(text);
    assert forall|i: int| 0 <= i < equals implies text[i] != '=' by {
        if i < key.len() {
            assert(text[i] == key[i]);
        } else if i < start {
            assert(text[i] == b[i - key.len()]);
        } else {
            assert(text[i] == operator[0]);
        }
    }
    assert(text[equals] == operator[equals - start]);
    lemma_find_is(text, '=', equals);
    let after = start + operator.len();
    if operator == seq!['!', '='] {
        assert(text[equals - 1] == operator[0]);
    } else {
        if b.len() > 0 {
            assert(text[equals - 1] == b[b.len() - 1]);
        } else {
            assert(text[equals - 1] == key[key.len() - 1]);
        }
        if operator.len() == 2 {
            assert(text[equals + 1] == operator[1]);
        } else if c.len() > 0 {
            assert(text[equals + 1] == c[0]);
        } else {
            assert(text[equals + 1] == value[0]);
        }
    }
    let none: Seq<char> = seq![];
    lemma_padded(none, key, b);
    lemma_padded(c, value, none);
    assert(none + key + b =~= text.take(start));
    assert(c + value + none =~= text.skip(after));
}

/// Spaces around the parts of a comparison make no difference, and `==` becomes `=`.
pub proof fn law_spaces_and_doubled_equals_fold(
    parts: Seq<Seq<char>>,
    name: Seq<char>,
    value: Seq<char>,
    operator: Seq<char>,
    a: Seq<char>,
    b: Seq<char>,
    c: Seq<char>,
    d: Seq<char>,
)
    requires
        is_key(parts, name),
        is_name(value),
        is_operator(operator),
        is_space(a),
        is_space(b),
        is_space(c),
        is_space(d),
    ensures
        becomes(
            spaced(a, key_of(parts, name), b, operator, c, value, d),
            key_of(parts, name) + (if operator == seq!['!', '='] {
                seq!['!', '=']
            } else {
                seq!['=']
            }) + value,
        ),
{
    let key = key_of(parts, name);
    lemma_key(parts, name);
    lemma_name(value);
    lemma_literals();
    lemma_marks(value);
    lemma_operands(key, b, operator, c, value);
    let inner = key + b + operator + c + value;
    let text = spaced(a, key, b, operator, c, value, d);
    assert(inner[0] == key[0]);
    assert(inner[inner.len() - 1] == value[value.len() - 1]);
    lemma_padded(a, inner, d);
    assert forall|i: int| 0 <= i < inner.len() implies #[trigger] inner[i] != '(' && inner[i] != ')'
        && inner[i] != ',' by {
        lemma_operator(operator);
        if i < key.len() {
            assert(inner[i] == key[i]);
        } else if i < key.len() + b.len() {
            assert(inner[i] == b[i - key.len()]);
        } else if i < key.len() + b.len() + operator.len() {
            assert(inner[i] == operator[i - key.len() - b.len()]);
        } else if i < key.len() + b.len() + operator.len() + c.len() {
            assert(inner[i] == c[i - key.len() - b.len() - operator.len()]);
        } else {
            assert(inner[i] == value[i - key.len() - b.len() - operator.len() - c.len()]);
        }
    }
    assert forall|i: int| 0 <= i < text.len() implies #[trigger] text[i] != '(' && text[i] != ')'
        && text[i] != ',' by {
        if i < a.len() {
            assert(text[i] == a[i]);
        } else if i < a.len() + inner.len() {
            assert(text[i] == inner[i - a.len()]);
        } else {
            assert(text[i] == d[i - a.len() - inner.len()]);
        }
    }
    lemma_single(text);
    lemma_find_is(inner, '(', inner.len() as int);
    lemma_one(text);
}

proof fn lemma_operator(operator: Seq<char>)
    requires
        is_operator(operator),
    ensures
        1 <= operator.len() <= 2,
        forall|i: int|
            0 <= i < operator.len() ==> #[trigger] operator[i] == '=' || operator[i] == '!',
{
}

proof fn lemma_marks(value: Seq<char>)
    requires
        is_name(value),
    ensures
        forall|i: int|
            0 <= i < value.len() ==> #[trigger] value[i] != '=' && value[i] != ',' && value[i]
                != '(' && value[i] != ')' && value[i] != '!' && value[i] != '/' && !is_white(
                value[i],
            ),
{
    assert forall|i: int| 0 <= i < value.len() implies #[trigger] value[i] != '=' && value[i] != ','
        && value[i] != '(' && value[i] != ')' && value[i] != '!' && value[i] != '/' && !is_white(
        value[i],
    ) by {
        assert(letter_or_digit(value[i]) || value[i] == '-' || value[i] == '_' || value[i] == '.');
    }
}

/// A selector of one requirement is accepted as the requirement is.
proof fn lemma_one(text: Seq<char>)
    requires
        requirements(text) == seq![text],
        !is_blank(text),
    ensures
        match label_requirement(text) {
            Ok(requirement) => becomes(text, requirement.canonical()),
            Err(problem) => label_canonical(text) == Err::<Seq<char>, Seq<char>>(problem),
        },
{
    let raw = seq![text];
    assert(raw.drop_last() =~= seq![]);
    assert(raw.last() == text);
    assert(label_pieces(raw.drop_last()) == Ok::<Seq<Seq<char>>, Seq<char>>(seq![]));
    match label_requirement(text) {
        Ok(requirement) => {
            assert(label_pieces(raw)->Ok_0 =~= seq![requirement.canonical()]);
        },
        Err(problem) => {},
    }
}

/// A word for a set, and nothing or a space and more behind it: where no list in
/// parentheses follows, the answer says so, with an example made of the key.
pub proof fn law_sets_need_their_list(
    parts: Seq<Seq<char>>,
    name: Seq<char>,
    word: Seq<char>,
    rest: Seq<char>,
)
    requires
        is_key(parts, name),
        word == seq!['i', 'n'] || word == seq!['n', 'o', 't', 'i', 'n'],
        rest.len() == 0 || rest[0] == ' ' && !is_white(rest[rest.len() - 1]),
        forall|i: int|
            0 <= i < rest.len() ==> #[trigger] rest[i] != '=' && rest[i] != ',' && rest[i] != '('
                && rest[i] != ')',
    ensures
        ({
            let key = key_of(parts, name);
            let text = key + seq![' '] + word + rest;
            label_canonical(text) == Err::<Seq<char>, Seq<char>>(
                "the set selector "@ + debug_form(text)
                    + " is missing its parenthesised value list, e.g. `"@ + key + " in (a, b)`"@,
            )
        }),
{
    let key = key_of(parts, name);
    let text = key + seq![' '] + word + rest;
    let at = key.len() as int;
    lemma_key(parts, name);
    lemma_word(word);
    assert(in_key(key[0]));
    assert(!is_white(key[0]));
    lemma_listless(key, word, rest);
    let after = text.skip(at + 1);
    assert(after =~= word + rest);
    assert(after[0] == word[0]);
    assert(after.last() == text.last());
    lemma_trimmed_already(after);
    assert(text.take(at) =~= key);
    if rest.len() == 0 {
        assert(after =~= word);
    } else {
        let more = word + seq![' '];
        assert(after.subrange(0, more.len() as int) =~= more);
        assert(more.is_prefix_of(after));
    }
    assert(forgot_values(text));
    lemma_one(text);
}

proof fn lemma_word(word: Seq<char>)
    requires
        word == seq!['i', 'n'] || word == seq!['n', 'o', 't', 'i', 'n'],
    ensures
        word.len() == 2 || word.len() == 5,
        forall|i: int| 0 <= i < word.len() ==> 'a' <= #[trigger] word[i] && word[i] <= 'z',
        word == "in"@ || word == "notin"@,
        word == "in"@ ==> word + seq![' '] == "in "@,
        word == "notin"@ ==> word + seq![' '] == "notin "@,
{
    reveal_strlit("in");
    reveal_strlit("notin");
    reveal_strlit("in ");
    reveal_strlit("notin ");
    assert("in"@ =~= seq!['i', 'n']);
    assert("notin"@ =~= seq!['n', 'o', 't', 'i', 'n']);
    assert(seq!['i', 'n'] + seq![' '] =~= "in "@);
    assert(seq!['n', 'o', 't', 'i', 'n'] + seq![' '] =~= "notin "@);
}

proof fn lemma_listless(key: Seq<char>, word: Seq<char>, rest: Seq<char>)
    requires
        key.len() > 0,
        word.len() > 0,
        letter_or_digit(key[0]),
        forall|i: int| 0 <= i < key.len() ==> in_key(#[trigger] key[i]),
        forall|i: int| 0 <= i < word.len() ==> 'a' <= #[trigger] word[i] && word[i] <= 'z',
        rest.len() == 0 || rest[0] == ' ' && !is_white(rest[rest.len() - 1]),
        forall|i: int|
            0 <= i < rest.len() ==> #[trigger] rest[i] != '=' && rest[i] != ',' && rest[i] != '('
                && rest[i] != ')',
    ensures
        ({
            let text = key + seq![' '] + word + rest;
            &&& trimmed(text) == text
            &&& text[0] != '!'
            &&& !is_white(text[0])
            &&& !is_white(text.last())
            &&& !is_blank(text)
            &&& requirements(text) == seq![text]
            &&& find(text, '(') == text.len()
            &&& find(text, '=') == text.len()
            &&& find_white(text) == key.len()
        }),
{
    let text = key + seq![' '] + word + rest;
    let at = key.len() as int;
    assert forall|i: int| 0 <= i < text.len() implies #[trigger] text[i] != '(' && text[i] != ')'
        && text[i] != ',' && text[i] != '=' by {
        if i < at {
            assert(text[i] == key[i]);
        } else if i == at {
            assert(text[i] == ' ');
        } else if i < at + 1 + word.len() {
            assert(text[i] == word[i - at - 1]);
        } else {
            assert(text[i] == rest[i - at - 1 - word.len()]);
        }
    }
    assert(text[0] == key[0]);
    if rest.len() > 0 {
        assert(text.last() == rest[rest.len() - 1]);
    } else {
        assert(text.last() == word[word.len() - 1]);
    }
    lemma_trimmed_already(text);
    lemma_single(text);
    lemma_find_is(text, '(', text.len() as int);
    lemma_find_is(text, '=', text.len() as int);
    assert(text[at] == ' ');
    lemma_find_white(text);
    if find_white(text) < at {
        assert(text[find_white(text)] == key[find_white(text)]);
        assert(in_key(key[find_white(text)]));
    }
}

/// What stands before the list of an accepted set is a key and its word, and nothing
/// else.
pub proof fn law_sets_are_a_key_and_a_word(text: Seq<char>)
    requires
        text.len() > 0,
        !is_white(text[0]),
        !is_white(text[text.len() - 1]),
    ensures
        match label_requirement(text) {
            Ok(Requirement::In(key, values)) => words_of(
                trimmed(text.take(find(text, '('))),
            ) == seq![key, seq!['i', 'n']],
            Ok(Requirement::NotIn(key, values)) => words_of(
                trimmed(text.take(find(text, '('))),
            ) == seq![key, seq!['n', 'o', 't', 'i', 'n']],
            _ => true,
        },
{
    lemma_trimmed_already(text);
    reveal_strlit("in");
    reveal_strlit("notin");
    assert("in"@ =~= seq!['i', 'n']);
    assert("notin"@ =~= seq!['n', 'o', 't', 'i', 'n']);
    let words = words_of(trimmed(text.take(find(text, '('))));
    if words.len() == 2 {
        assert(words =~= seq![words[0], words[1]]);
    }
}

/// A comma in parentheses parts nothing, however deep they stand: the next one that
/// does is the next one behind them.
pub proof fn law_parentheses_keep_their_commas(inner: Seq<char>, rest: Seq<char>, depth: nat)
    requires
        forall|i: int| 0 <= i < inner.len() ==> #[trigger] inner[i] != '(' && inner[i] != ')',
    ensures
        find_comma(seq!['('] + inner + seq![')'] + rest, depth) == inner.len() + 2 + find_comma(
            rest,
            depth,
        ),
{
    let text = seq!['('] + inner + seq![')'] + rest;
    assert(text.skip(1) =~= inner + seq![')'] + rest);
    assert(text[0] == '(');
    lemma_inside(inner, rest, depth);
}

proof fn lemma_inside(inner: Seq<char>, rest: Seq<char>, depth: nat)
    requires
        forall|i: int| 0 <= i < inner.len() ==> #[trigger] inner[i] != '(' && inner[i] != ')',
    ensures
        find_comma(inner + seq![')'] + rest, depth + 1) == inner.len() + 1 + find_comma(
            rest,
            depth,
        ),
    decreases inner.len(),
{
    let text = inner + seq![')'] + rest;
    if inner.len() == 0 {
        assert(text[0] == ')');
        assert(text.skip(1) =~= rest);
    } else {
        let less = inner.skip(1);
        assert(text[0] == inner[0]);
        assert(text.skip(1) =~= less + seq![')'] + rest);
        assert(forall|i: int| 0 <= i < less.len() ==> less[i] == inner[i + 1]);
        lemma_inside(less, rest, depth);
    }
}

/// Whether a text is free of what the grammar is made of, and of white space.
pub open spec fn is_plain(text: Seq<char>) -> bool {
    forall|i: int|
        0 <= i < text.len() ==> #[trigger] text[i] != '=' && text[i] != ',' && text[i] != '('
            && text[i] != ')' && text[i] != '!' && !is_white(text[i])
}

/// A value that is not one of Kubernetes' is refused, whatever it is compared with,
/// and the answer quotes the value and the requirement it is in.
pub proof fn law_bad_values_are_refused(
    parts: Seq<Seq<char>>,
    name: Seq<char>,
    value: Seq<char>,
    operator: Seq<char>,
)
    requires
        is_key(parts, name),
        is_plain(value),
        value.len() > 0,
        !is_name(value),
        is_operator(operator),
    ensures
        ({
            let text = key_of(parts, name) + operator + value;
            label_canonical(text) == Err::<Seq<char>, Seq<char>>(
                "the value "@ + debug_form(value) + " in "@ + debug_form(text)
                    + " is not a valid Kubernetes label value"@,
            )
        }),
{
    let key = key_of(parts, name);
    let none: Seq<char> = seq![];
    lemma_key(parts, name);
    lemma_name(value);
    assert(value[0] != '=' && !is_white(value[0]));
    assert(!is_white(value[value.len() - 1]));
    lemma_operands(key, none, operator, none, value);
    let text = key + operator + value;
    assert(key + none + operator + none + value =~= text);
    lemma_refused(text, key, operator, value);
}

proof fn lemma_refused(
    text: Seq<char>,
    key: Seq<char>,
    operator: Seq<char>,
    value: Seq<char>,
)
    requires
        text == key + operator + value,
        is_operator(operator),
        is_plain(value),
        forall|i: int|
            0 <= i < key.len() ==> #[trigger] key[i] != '(' && key[i] != ')' && key[i] != ',',
        trimmed(text) == text,
        text.len() > 0,
        !is_white(text[0]),
        find(text, '=') < text.len(),
        operand_before(text) == key,
        operand_after(text) == value,
        key_problem(key, text) is Some || value_problem(value, text) is Some,
    ensures
        label_canonical(text) == Err::<Seq<char>, Seq<char>>(
            if key_problem(key, text) is Some {
                key_problem(key, text)->0
            } else {
                value_problem(value, text)->0
            },
        ),
{
    assert forall|i: int| 0 <= i < text.len() implies #[trigger] text[i] != '(' && text[i] != ')'
        && text[i] != ',' by {
        lemma_operator(operator);
        if i < key.len() {
            assert(text[i] == key[i]);
        } else if i < key.len() + operator.len() {
            assert(text[i] == operator[i - key.len()]);
        } else {
            assert(text[i] == value[i - key.len() - operator.len()]);
        }
    }
    lemma_single(text);
    lemma_find_is(text, '(', text.len() as int);
    assert(label_requirement(text) is Err);
    lemma_one(text);
}

/// Whether a selector is refused for a key in it, which the answer quotes.
pub open spec fn refuses_key(selector: Seq<char>, key: Seq<char>) -> bool {
    let start = "the label key "@ + debug_form(key) + " in "@ + debug_form(selector);
    ||| label_canonical(selector) == Err::<Seq<char>, Seq<char>>(
        start + " has an invalid prefix before its `/`"@,
    )
    ||| label_canonical(selector) == Err::<Seq<char>, Seq<char>>(
        start + " is not a valid Kubernetes label name"@,
    )
}

/// A key without a slash that is not a name is refused, and so is one whose domain is
/// none, in each form of the grammar without a list.
pub proof fn law_bad_keys_are_refused(
    parts: Seq<Seq<char>>,
    name: Seq<char>,
    value: Seq<char>,
    operator: Seq<char>,
)
    requires
        forall|i: int|
            0 <= i < parts.len() ==> is_plain(#[trigger] parts[i]) && !parts[i].contains('.')
                && !parts[i].contains('/'),
        is_plain(name),
        !name.contains('/'),
        name.len() > 0,
        parts.len() > 0 ==> joined(parts, seq!['.']).len() > 0,
        !is_key(parts, name),
        is_name(value),
        is_operator(operator),
    ensures
        refuses_key(key_of(parts, name), key_of(parts, name)),
        refuses_key(seq!['!'] + key_of(parts, name), key_of(parts, name)),
        refuses_key(key_of(parts, name) + operator + value, key_of(parts, name)),
{
    let key = key_of(parts, name);
    let none: Seq<char> = seq![];
    lemma_plain_key(parts, name);
    lemma_name(value);
    lemma_marks(value);
    assert(key.len() > 0);
    assert(!is_white(key[0]) && !is_white(key[key.len() - 1]) && key[key.len() - 1] != '!');
    // On its own.
    lemma_single(key);
    lemma_trimmed_already(key);
    lemma_find_is(key, '(', key.len() as int);
    lemma_find_is(key, '=', key.len() as int);
    lemma_find_white(key);
    assert(find_white(key) == key.len());
    assert(key_problem(key, key) is Some);
    assert(label_requirement(key) is Err);
    assert(!is_blank(key));
    lemma_one(key);
    // Negated.
    let negated = seq!['!'] + key;
    assert(negated[0] == '!');
    assert(negated.last() == key[key.len() - 1]);
    assert forall|i: int| 0 <= i < negated.len() implies #[trigger] negated[i] != '(' && negated[i]
        != ')' && negated[i] != ',' && negated[i] != '=' by {
        if i > 0 {
            assert(negated[i] == key[i - 1]);
        }
    }
    lemma_single(negated);
    lemma_trimmed_already(negated);
    lemma_find_is(negated, '(', negated.len() as int);
    lemma_find_is(negated, '=', negated.len() as int);
    assert(negated.skip(1) =~= key);
    assert(label_requirement(negated) is Err);
    assert(!is_blank(negated)) by {
        assert(!is_white(negated[0]));
    }
    lemma_one(negated);
    // Compared.
    lemma_operands(key, none, operator, none, value);
    let text = key + operator + value;
    assert(key + none + operator + none + value =~= text);
    assert(text[0] == key[0]);
    lemma_refused(text, key, operator, value);
}

proof fn lemma_plain_key(parts: Seq<Seq<char>>, name: Seq<char>)
    requires
        forall|i: int|
            0 <= i < parts.len() ==> is_plain(#[trigger] parts[i]) && !parts[i].contains('.')
                && !parts[i].contains('/'),
        is_plain(name),
        !name.contains('/'),
        name.len() > 0,
        parts.len() > 0 ==> joined(parts, seq!['.']).len() > 0,
    ensures
        ({
            let key = key_of(parts, name);
            &&& is_plain(key)
            &&& !is_key(parts, name) ==> !good_key(key)
        }),
{
    let key = key_of(parts, name);
    lemma_name(name);
    assert forall|i: int| 0 <= i < name.len() implies name[i] != '/' by {
        if name[i] == '/' {
            assert(name.contains('/'));
        }
    }
    lemma_find_is(name, '/', name.len() as int);
    if parts.len() > 0 {
        let prefix = joined(parts, seq!['.']);
        lemma_plain_prefix(parts);
        let slash = prefix.len() as int;
        assert(key[slash] == '/');
        assert forall|i: int| 0 <= i < slash implies key[i] != '/' by {
            assert(key[i] == prefix[i]);
        }
        lemma_find_is(key, '/', slash);
        assert(key.skip(slash + 1) =~= name);
        assert(key.take(slash) =~= prefix);
        assert forall|i: int| 0 <= i < key.len() implies #[trigger] key[i] != '=' && key[i] != ','
            && key[i] != '(' && key[i] != ')' && key[i] != '!' && !is_white(key[i]) by {
            if i < slash {
                assert(key[i] == prefix[i]);
            } else if i > slash {
                assert(key[i] == name[i - slash - 1]);
            }
        }
        lemma_split_on_joined(parts, '.');
        if good_key(key) {
            assert(dns_subdomain(prefix));
            assert forall|i: int| 0 <= i < parts.len() implies is_domain_part(
                #[trigger] parts[i],
            ) by {
                lemma_part(parts[i]);
                assert(dns_label(split_on(prefix, '.')[i]));
            }
        }
    }
}

proof fn lemma_plain_prefix(parts: Seq<Seq<char>>)
    requires
        parts.len() >= 1,
        forall|i: int|
            0 <= i < parts.len() ==> is_plain(#[trigger] parts[i]) && !parts[i].contains('/'),
    ensures
        is_plain(joined(parts, seq!['.'])),
        forall|i: int|
            0 <= i < joined(parts, seq!['.']).len() ==> #[trigger] joined(parts, seq!['.'])[i]
                != '/',
    decreases parts.len(),
{
    let text = joined(parts, seq!['.']);
    let last = parts.last();
    assert(last == parts[parts.len() - 1]);
    assert(is_plain(last) && !last.contains('/'));
    assert forall|i: int| 0 <= i < last.len() implies last[i] != '/' by {
        if last[i] == '/' {
            assert(last.contains('/'));
        }
    }
    if parts.len() > 1 {
        let before = parts.drop_last();
        assert(forall|i: int| 0 <= i < before.len() ==> before[i] == parts[i]);
        lemma_plain_prefix(before);
        let head = joined(before, seq!['.']);
        assert forall|i: int| 0 <= i < text.len() implies #[trigger] text[i] != '=' && text[i]
            != ',' && text[i] != '(' && text[i] != ')' && text[i] != '!' && !is_white(text[i])
            && text[i] != '/' by {
            if i < head.len() {
                assert(text[i] == head[i]);
            } else if i > head.len() {
                assert(text[i] == last[i - head.len() - 1]);
            }
        }
    } else {
        assert(text == last);
    }
}

/// What is accepted is made of names: every value that is compared with or listed is
/// one, but for an empty one that is compared with, and so is what a key is called.
pub proof fn law_accepted_requirements_are_made_of_names(raw: Seq<char>)
    ensures
        label_requirement(raw) matches Ok(requirement) ==> match requirement {
            Requirement::Equal(key, value) => is_name(key_name(key)) && (value.len() == 0
                || is_name(value)),
            Requirement::NotEqual(key, value) => is_name(key_name(key)) && (value.len() == 0
                || is_name(value)),
            Requirement::In(key, values) => is_name(key_name(key)) && values.len() >= 1 && forall|
                i: int,
            |
                0 <= i < values.len() ==> is_name(#[trigger] values[i]),
            Requirement::NotIn(key, values) => is_name(key_name(key)) && values.len() >= 1
                && forall|i: int| 0 <= i < values.len() ==> is_name(#[trigger] values[i]),
            Requirement::Exists(key) => is_name(key_name(key)),
            Requirement::DoesNotExist(key) => is_name(key_name(key)),
        },
{
    crate::k8s::canonical::law_parsed_requirements_are_good(raw);
    assert forall|text: Seq<char>| #[trigger] qualified_name(text) implies is_name(text) by {
        lemma_name(text);
    }
}

/// A comma with nothing behind it, or nothing in front of it, is refused.
pub proof fn law_stray_commas_are_refused(selector: Seq<char>)
    requires
        !is_blank(selector),
        label_canonical(selector) is Ok,
    ensures
        label_canonical(selector + seq![',']) is Err,
        label_canonical(seq![','] + selector) is Err,
{
    let none: Seq<char> = seq![];
    let raw = requirements(selector);
    lemma_each_parses(raw);
    lemma_requirements_of_both(selector, none);
    assert(selector + seq![','] + none =~= selector + seq![',']);
    assert(requirements(none) =~= seq![none]);
    let longer = raw + seq![none];
    assert(longer.last() == none);
    assert(label_requirement(none) is Err);
    assert(longer.drop_last() =~= raw);
    let trailing = selector + seq![','];
    assert(trailing[selector.len() as int] == ',');
    assert(!is_blank(trailing)) by {
        assert(!is_white(trailing[selector.len() as int]));
    }
    // In front.
    let leading = seq![','] + selector;
    assert(leading[0] == ',');
    assert(!is_blank(leading)) by {
        assert(!is_white(leading[0]));
    }
    assert(crate::k8s::selector::find_comma(leading, 0) == 0);
    assert(leading.take(0) =~= none);
    let all = requirements(leading);
    assert(all[0] == none);
    if label_pieces(all) is Ok {
        lemma_each_parses(all);
    }
}

/// A field selector compares a path with a value: it is accepted whatever the two
/// are made of, as long as there is a path, and they do not run into the operator.
pub proof fn law_field_selectors_are_accepted(
    path: Seq<char>,
    value: Seq<char>,
    operator: Seq<char>,
    a: Seq<char>,
    b: Seq<char>,
    c: Seq<char>,
    d: Seq<char>,
)
    requires
        path.len() > 0,
        !is_white(path[0]),
        !is_white(path[path.len() - 1]),
        path[path.len() - 1] != '!',
        forall|i: int| 0 <= i < path.len() ==> #[trigger] path[i] != '=' && path[i] != ',',
        value.len() > 0,
        !is_white(value[0]),
        !is_white(value[value.len() - 1]),
        value[0] != '=',
        forall|i: int| 0 <= i < value.len() ==> #[trigger] value[i] != ',',
        is_operator(operator),
        is_space(a),
        is_space(b),
        is_space(c),
        is_space(d),
    ensures
        field_canonical(spaced(a, path, b, operator, c, value, d)) == Ok::<Seq<char>, Seq<char>>(
            path + (if operator == seq!['!', '='] {
                seq!['!', '=']
            } else {
                seq!['=']
            }) + value,
        ),
{
    lemma_literals();
    lemma_operands(path, b, operator, c, value);
    let inner = path + b + operator + c + value;
    let text = spaced(a, path, b, operator, c, value, d);
    assert(inner[0] == path[0]);
    assert(inner[inner.len() - 1] == value[value.len() - 1]);
    lemma_padded(a, inner, d);
    assert forall|i: int| 0 <= i < inner.len() implies #[trigger] inner[i] != ',' by {
        lemma_operator(operator);
        if i < path.len() {
            assert(inner[i] == path[i]);
        } else if i < path.len() + b.len() {
            assert(inner[i] == b[i - path.len()]);
        } else if i < path.len() + b.len() + operator.len() {
            assert(inner[i] == operator[i - path.len() - b.len()]);
        } else if i < path.len() + b.len() + operator.len() + c.len() {
            assert(inner[i] == c[i - path.len() - b.len() - operator.len()]);
        } else {
            assert(inner[i] == value[i - path.len() - b.len() - operator.len() - c.len()]);
        }
    }
    assert forall|i: int| 0 <= i < text.len() implies text[i] != ',' by {
        if i < a.len() {
            assert(text[i] == a[i]);
        } else if i < a.len() + inner.len() {
            assert(text[i] == inner[i - a.len()]);
        } else {
            assert(text[i] == d[i - a.len() - inner.len()]);
        }
    }
    lemma_find_is(text, ',', text.len() as int);
    let raw = split_on(text, ',');
    assert(raw =~= seq![text]);
    assert(raw.drop_last() =~= seq![]);
    assert(field_pieces(raw.drop_last()) == Ok::<Seq<Seq<char>>, Seq<char>>(seq![]));
    assert(field_pieces(raw)->Ok_0 =~= seq![field_requirement(text)->Ok_0]);
}

/// A field selector without an operator is refused, and so is one without a path.
pub proof fn law_field_selectors_need_a_path_and_an_operator(text: Seq<char>, value: Seq<char>)
    requires
        forall|i: int| 0 <= i < text.len() ==> #[trigger] text[i] != '=' && text[i] != ',',
        !is_blank(text),
        forall|i: int| 0 <= i < value.len() ==> #[trigger] value[i] != ',',
    ensures
        field_canonical(text) is Err,
        field_canonical(seq!['='] + value) is Err,
        field_canonical(seq!['!', '='] + value) is Err,
{
    lemma_find_is(text, ',', text.len() as int);
    let inner = trimmed(text);
    crate::text::lemma_trimmed(text);
    assert forall|i: int| 0 <= i < inner.len() implies inner[i] != '=' by {
        let j = text.index_of(inner[i]);
        assert(text.contains(inner[i]));
        assert(text[j] == inner[i]);
    }
    lemma_find_is(inner, '=', inner.len() as int);
    lemma_field_refused(text);
    lemma_no_path(seq!['='], value);
    lemma_no_path(seq!['!', '='], value);
}

proof fn lemma_field_refused(text: Seq<char>)
    requires
        find(text, ',') == text.len(),
        !is_blank(text),
        field_requirement(text) is Err,
    ensures
        field_canonical(text) is Err,
{
    let raw = split_on(text, ',');
    assert(raw =~= seq![text]);
    assert(raw.drop_last() =~= seq![]);
    assert(field_pieces(raw.drop_last()) == Ok::<Seq<Seq<char>>, Seq<char>>(seq![]));
    assert(raw.last() == text);
}

proof fn lemma_no_path(operator: Seq<char>, value: Seq<char>)
    requires
        operator == seq!['='] || operator == seq!['!', '='],
        forall|i: int| 0 <= i < value.len() ==> #[trigger] value[i] != ',',
    ensures
        field_canonical(operator + value) is Err,
{
    let text = operator + value;
    assert(seq!['='].len() == 1 && seq!['='][0] == '=');
    assert(seq!['!', '='].len() == 2 && seq!['!', '='][0] == '!' && seq!['!', '='][1] == '=');
    assert forall|i: int| 0 <= i < text.len() implies text[i] != ',' by {
        if i < operator.len() {
            assert(text[i] == operator[i]);
        } else {
            assert(text[i] == value[i - operator.len()]);
        }
    }
    lemma_find_is(text, ',', text.len() as int);
    assert(text[0] == operator[0]);
    assert(!is_white(text[0]));
    assert(trimmed_start(text) == text);
    crate::text::lemma_trimmed_end(text);
    let inner = trimmed(text);
    let equals = operator.len() - 1;
    assert(inner.len() > equals) by {
        lemma_end_keeps(text, equals);
    }
    assert(inner[equals] == text[equals]);
    assert forall|i: int| 0 <= i < equals implies inner[i] != '=' by {
        assert(inner[i] == text[i]);
    }
    lemma_find_is(inner, '=', equals);
    if equals == 1 {
        assert(inner[0] == '!');
        assert(inner.take(0) =~= seq![]);
    } else {
        assert(inner.take(0) =~= seq![]);
    }
    assert(trimmed(Seq::<char>::empty()).len() == 0);
    lemma_field_refused(text);
}

pub(crate) proof fn lemma_end_keeps(text: Seq<char>, place: int)
    requires
        0 <= place < text.len(),
        !is_white(text[place]),
    ensures
        trimmed_end(text).len() > place,
    decreases text.len(),
{
    if is_white(text.last()) {
        assert(text.drop_last()[place] == text[place]);
        lemma_end_keeps(text.drop_last(), place);
    }
}

proof fn lemma_split_both(first: Seq<char>, second: Seq<char>)
    ensures
        split_on(first + seq![','] + second, ',') == split_on(first, ',') + split_on(second, ','),
    decreases first.len(),
{
    let whole = first + seq![','] + second;
    let place = find(first, ',');
    lemma_find(first, ',');
    assert forall|i: int| 0 <= i < place implies whole[i] != ',' by {
        assert(whole[i] == first[i]);
    }
    if place >= first.len() {
        assert(whole[first.len() as int] == ',');
        lemma_find_is(whole, ',', first.len() as int);
        assert(whole.take(first.len() as int) =~= first);
        assert(whole.skip(first.len() as int + 1) =~= second);
        assert(split_on(first, ',') =~= seq![first]);
    } else {
        assert(whole[place] == first[place]);
        lemma_find_is(whole, ',', place);
        let rest = first.skip(place + 1);
        lemma_split_both(rest, second);
        assert(whole.take(place) =~= first.take(place));
        assert(whole.skip(place + 1) =~= rest + seq![','] + second);
        assert(split_on(whole, ',') =~= split_on(first, ',') + split_on(second, ','));
    }
}

proof fn lemma_field_both(first: Seq<Seq<char>>, second: Seq<Seq<char>>)
    requires
        field_pieces(first) is Ok,
        field_pieces(second) is Ok,
    ensures
        field_pieces(first + second) == Ok::<Seq<Seq<char>>, Seq<char>>(
            field_pieces(first)->Ok_0 + field_pieces(second)->Ok_0,
        ),
        field_pieces(first)->Ok_0.len() == first.len(),
        field_pieces(second)->Ok_0.len() == second.len(),
    decreases first.len() + second.len(),
{
    let both = first + second;
    if second.len() > 0 {
        lemma_field_both(first, second.drop_last());
        assert(both.drop_last() =~= first + second.drop_last());
        assert(both.last() == second.last());
        assert(field_pieces(both)->Ok_0 =~= field_pieces(first)->Ok_0 + field_pieces(second)->Ok_0);
    } else {
        assert(both =~= first);
        assert(field_pieces(first)->Ok_0 + field_pieces(second)->Ok_0 =~= field_pieces(
            first,
        )->Ok_0);
        if first.len() > 0 {
            lemma_field_both(first.drop_last(), second);
        }
    }
}

/// Two field selectors joined by a comma have their canonical forms joined by a
/// comma.
pub proof fn law_field_selectors_join(first: Seq<char>, second: Seq<char>)
    requires
        !is_blank(first),
        !is_blank(second),
        field_canonical(first) is Ok,
        field_canonical(second) is Ok,
    ensures
        field_canonical(first + seq![','] + second) == Ok::<Seq<char>, Seq<char>>(
            field_canonical(first)->Ok_0 + seq![','] + field_canonical(second)->Ok_0,
        ),
{
    let whole = first + seq![','] + second;
    lemma_literals();
    assert(whole[first.len() as int] == ',');
    assert(!is_blank(whole)) by {
        assert(!is_white(whole[first.len() as int]));
    }
    lemma_split_both(first, second);
    lemma_field_both(split_on(first, ','), split_on(second, ','));
    assert(split_on(first, ',').len() >= 1);
    assert(split_on(second, ',').len() >= 1);
    lemma_joined_both(
        field_pieces(split_on(first, ','))->Ok_0,
        field_pieces(split_on(second, ','))->Ok_0,
        seq![','],
    );
}

} // verus!
