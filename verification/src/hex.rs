//! Architecture layer of a file, judged by words in its path.

use vstd::prelude::*;
use crate::text::{chars_of, contains_text, has_text};

verus! {

/// The lower-case form of a string as std computes it, by the Unicode rules.
pub uninterp spec fn lowercase_of(s: Seq<char>) -> Seq<char>;

/// `str::to_lowercase`: the lower-case form of the string. What that form is
/// is not stated here, only that it depends on the string alone.
#[verifier::external_body]
fn to_lowercase(s: &str) -> (r: String)
    ensures
        r@ == lowercase_of(s@),
{
    s.to_lowercase()
}

/// The layer that a lower-case path belongs to. The groups of words are
/// tried in this order, and the first group of which a word occurs decides.
pub open spec fn hex_layer_of(lower: Seq<char>) -> Seq<char> {
    if contains_text(lower, "component"@) || contains_text(lower, "view"@) || contains_text(
        lower,
        "page"@,
    ) {
        "driving"@
    } else if contains_text(lower, "domain"@) || contains_text(lower, "entities"@) || contains_text(
        lower,
        "core"@,
    ) {
        "domain"@
    } else if contains_text(lower, "composable"@) || contains_text(lower, "hook"@) || contains_text(
        lower,
        "service"@,
    ) {
        "application"@
    } else if contains_text(lower, "adapter"@) || contains_text(lower, "api"@) || contains_text(
        lower,
        "infra"@,
    ) {
        "driven"@
    } else {
        "default"@
    }
}

/// The layer of a path that is already in lower case.
pub fn classify_lowered(lower: &str) -> (r: &'static str)
    ensures
        r@ == hex_layer_of(lower@),
{
    let s = chars_of(lower);
    if has_text(&s, "component") || has_text(&s, "view") || has_text(&s, "page") {
        "driving"
    } else if has_text(&s, "domain") || has_text(&s, "entities") || has_text(&s, "core") {
        "domain"
    } else if has_text(&s, "composable") || has_text(&s, "hook") || has_text(&s, "service") {
        "application"
    } else if has_text(&s, "adapter") || has_text(&s, "api") || has_text(&s, "infra") {
        "driven"
    } else {
        "default"
    }
}

/// The architecture layer of a file: its path is put in lower case and then
/// classified by the words that occur in it.
pub fn calculate_hex_layer(path: &str) -> (r: &'static str)
    ensures
        r@ == hex_layer_of(lowercase_of(path@)),
{
    let lower = to_lowercase(path);
    classify_lowered(lower.as_str())
}

} // verus!
