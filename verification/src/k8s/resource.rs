//! Resource names: which of them Kubernetes ships with, and which a cluster
//! added.
//!
//! `cpu` and `memory` have a column each because every node has them.
//! `nvidia.com/gpu` has a column only where a device plugin advertised it.
//! Telling the two apart is a naming rule rather than a list: the whole reason
//! extended resources exist is that a cluster can invent one.

use vstd::prelude::*;
use vstd::string::*;

use crate::text;

verus! {

/// The domain in front of the first slash of a name, if there is a slash and
/// something behind it.
pub open spec fn domain_of(name: Seq<char>) -> Option<Seq<char>> {
    if name.contains('/') && name.index_of_first('/')->0 + 1 < name.len() {
        Some(name.take(name.index_of_first('/')->0))
    } else {
        None
    }
}

/// Whether a name is an extended resource: it has a domain, and the domain is
/// neither Kubernetes' own nor below it.
pub open spec fn extended_name(name: Seq<char>) -> bool {
    match domain_of(name) {
        Some(domain) => domain != "kubernetes.io"@ && !(".kubernetes.io"@.is_suffix_of(domain)),
        None => false,
    }
}

/// Whether a resource name is an *extended* resource: one a device plugin or
/// an administrator added, rather than one Kubernetes itself defines.
///
/// Kubernetes reserves the `kubernetes.io` domain for its own resource names
/// and requires extended ones to be fully qualified outside it. That admits
/// `nvidia.com/gpu` and excludes the unqualified names, all of which Kubernetes
/// defines and none of which is a device: `cpu`, `memory`, `pods`,
/// `hugepages-2Mi`.
#[must_use]
pub fn is_extended(name: &str) -> (answer: bool)
    ensures
        answer == extended_name(name@),
{
    let chars = text::chars_of(name);
    let mut slash: usize = 0;
    while slash < chars.len() && chars[slash] != '/'
        invariant
            chars@ == name@,
            slash <= chars@.len(),
            forall|i: int| 0 <= i < slash ==> chars@[i] != '/',
        decreases chars@.len() - slash,
    {
        slash = slash + 1;
    }
    proof {
        name@.index_of_first_ensures('/');
    }
    if slash >= chars.len() || slash + 1 >= chars.len() {
        return false;
    }
    assert(name@.index_of_first('/') == Some(slash as int));
    let domain = name.substring_char(0, slash);
    assert(domain@ =~= name@.take(slash as int));
    !text::same(domain, "kubernetes.io") && !text::ends_with(domain, ".kubernetes.io")
}

/// A name in upper case, as [`str::to_uppercase`] writes it.
pub uninterp spec fn uppercase(name: Seq<char>) -> Seq<char>;

/// [`str::to_uppercase`]. Upper case is Unicode's, and the result is named;
/// of plain ASCII text it is stated that each letter becomes its capital and
/// everything else stays.
#[verifier::external_body]
fn to_upper(name: &str) -> (upper: String)
    ensures
        upper@ == uppercase(name@),
        vstd::utf8::is_ascii_chars(name@) ==> upper@ == ascii_uppercase(name@),
{
    name.to_uppercase()
}

/// The capital of an ASCII letter; any other character as it is.
pub open spec fn ascii_capital(c: char) -> char {
    if 'a' <= c && c <= 'z' {
        ((c as u8) - 32) as u8 as char
    } else {
        c
    }
}

/// Every letter of ASCII text as its capital.
pub open spec fn ascii_uppercase(name: Seq<char>) -> Seq<char> {
    name.map_values(|c: char| ascii_capital(c))
}

/// A resource name as a table heading.
///
/// Upper-cased and otherwise left alone, so `nvidia.com/gpu` becomes
/// `NVIDIA.COM/GPU` and sits beside `CPU` and `MEMORY`. The domain stays:
/// `amd.com/gpu` and `nvidia.com/gpu` are two different resources on the
/// mixed-vendor node that makes this column worth having.
#[must_use]
pub fn heading(name: &str) -> (heading: String)
    ensures
        heading@ == uppercase(name@),
        vstd::utf8::is_ascii_chars(name@) ==> heading@ == ascii_uppercase(name@),
{
    to_upper(name)
}

} // verus!
