//! Compiled regular expressions, and what the library relies on from the
//! `regex` crate: compiling, enumerating matches with their expanded
//! templates, and replacing matches.

use vstd::prelude::*;

verus! {

#[verifier::external_type_specification]
#[verifier::external_body]
pub struct ExRegex(regex::Regex);

/// Whether `regex::Regex::new` accepts `pattern`.
pub uninterp spec fn compiles(pattern: Seq<char>) -> bool;

/// The number of non-overlapping matches that `captures_iter` yields.
pub uninterp spec fn match_count(pattern: Seq<char>, text: Seq<char>) -> nat;

/// `Captures::expand` of `template` against the match numbered `index`
/// (counting from 0, left to right).
pub uninterp spec fn expansion(pattern: Seq<char>, text: Seq<char>, index: int, template: Seq<char>) -> Seq<char>;

/// `replace_all` of every match by the expanded `template`.
pub uninterp spec fn replaced_all(pattern: Seq<char>, text: Seq<char>, template: Seq<char>) -> Seq<char>;

/// The groups of the leftmost match (`captures`), a group that took no part
/// in the match given as empty text; `None` where there is no match.
pub uninterp spec fn first_groups(pattern: Seq<char>, text: Seq<char>) -> Option<Seq<Seq<char>>>;

/// `replace` of the leftmost match by `literal`, taken as is.
pub uninterp spec fn replaced_first(pattern: Seq<char>, text: Seq<char>, literal: Seq<char>) -> Seq<char>;

/// A regular expression compiled from the source text it keeps.
pub(crate) struct Pattern {
    source: String,
    re: regex::Regex,
}

impl View for Pattern {
    type V = Seq<char>;

    closed spec fn view(&self) -> Seq<char> {
        self.source@
    }
}

impl Pattern {
    /// Relies on `regex::Regex::new`: `Ok` exactly when the pattern compiles.
    #[verifier::external_body]
    pub(crate) fn compile(source: &str) -> (r: Option<Pattern>)
        ensures
            r is Some <==> compiles(source@),
            r matches Some(p) ==> p@ == source@,
    {
        match regex::Regex::new(source) {
            Ok(re) => Some(Pattern { source: source.to_string(), re }),
            Err(_) => None,
        }
    }

    /// Relies on `regex::Regex::captures_iter` and `regex::Captures::expand`:
    /// one row per match, left to right, holding each template expanded
    /// against that match.
    #[verifier::external_body]
    pub(crate) fn expand_matches(&self, text: &str, templates: &Vec<String>) -> (r: Vec<Vec<String>>)
        ensures
            r.len() == match_count(self@, text@),
            forall|m: int|
                0 <= m < r.len() ==> #[trigger] r[m].len() == templates.len(),
            forall|m: int, j: int|
                0 <= m < r.len() && 0 <= j < templates.len() ==> #[trigger] r[m][j]@
                    == expansion(self@, text@, m, templates[j]@),
    {
        self.re.captures_iter(text).map(|c| {
            templates.iter().map(|t| {
                let mut s = String::new();
                c.expand(t, &mut s);
                s
            }).collect()
        }).collect()
    }

    /// Relies on `regex::Regex::replace_all`.
    #[verifier::external_body]
    pub(crate) fn replace_all(&self, text: &str, template: &str) -> (r: String)
        ensures
            r@ == replaced_all(self@, text@, template@),
            match_count(self@, text@) == 0 ==> r@ == text@,
    {
        self.re.replace_all(text, template).into_owned()
    }

    /// Relies on `regex::Regex::captures`: the text of every group of the
    /// leftmost match.
    #[verifier::external_body]
    pub(crate) fn first_captures(&self, text: &str) -> (r: Option<Vec<String>>)
        ensures
            r is Some <==> first_groups(self@, text@) is Some,
            r matches Some(g) ==> g.deep_view() == first_groups(self@, text@)->Some_0,
    {
        self.re.captures(text).map(|c| {
            c.iter().map(|g| g.map_or(String::new(), |g| g.as_str().to_string())).collect()
        })
    }

    /// Relies on `regex::Regex::replace` with `regex::NoExpand`: the leftmost
    /// match gives way to `literal`.
    #[verifier::external_body]
    pub(crate) fn replace_first(&self, text: &str, literal: &str) -> (r: String)
        ensures
            r@ == replaced_first(self@, text@, literal@),
            first_groups(self@, text@) is None ==> r@ == text@,
    {
        self.re.replace(text, regex::NoExpand(literal)).into_owned()
    }
}

} // verus!
