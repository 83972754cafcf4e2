//! Choosing the color of a derived event from the name of its annotation.

use vstd::prelude::*;

verus! {

/// What the `regex` crate finds for a pattern and a text: `None` where the
/// pattern does not compile, else whether the pattern matches anywhere in
/// the text.
pub uninterp spec fn pattern_found(pattern: Seq<char>, text: Seq<char>) -> Option<bool>;

/// Compiles `pattern` with `regex::Regex::new` and searches `text` with
/// `Regex::is_match`. Both depend on the pattern and the text alone, so the
/// result is the one that `pattern_found` names. A pattern that `Regex::new`
/// refuses gives `None`.
#[verifier::external_body]
fn find_pattern(pattern: &str, text: &str) -> (r: Option<bool>)
    ensures
        r == pattern_found(pattern@, text@),
{
    match regex::Regex::new(pattern) {
        Ok(compiled) => Some(compiled.is_match(text)),
        Err(_) => None,
    }
}

/// The color of the first rule whose verdict is a match; rules whose pattern
/// did not compile are passed over.
pub open spec fn first_color(rules: Seq<(String, String)>, verdicts: Seq<Option<bool>>) -> Option<
    Seq<char>,
>
    decreases rules.len(),
{
    if rules.len() == 0 || verdicts.len() != rules.len() {
        None
    } else if verdicts[0] == Some(true) {
        Some(rules[0].1@)
    } else {
        first_color(rules.drop_first(), verdicts.drop_first())
    }
}

/// The verdict of each rule's pattern on `name`.
pub open spec fn verdicts_on(rules: Seq<(String, String)>, name: Seq<char>) -> Seq<Option<bool>> {
    Seq::new(rules.len(), |i: int| pattern_found(rules[i].0@, name))
}

/// The color that the rules give to `name`: that of the first rule whose
/// pattern matches it, and none where no pattern does.
pub open spec fn color_of(rules: Seq<(String, String)>, name: Seq<char>) -> Option<Seq<char>> {
    first_color(rules, verdicts_on(rules, name))
}

/// Picks the color of the first rule whose verdict is a match. `verdicts`
/// holds one verdict for each rule; with another length no color is picked.
pub fn color_for_verdicts(rules: &[(String, String)], verdicts: &[Option<bool>]) -> (r: Option<
    String,
>)
    ensures
        crate::models::text_view(r) == first_color(rules@, verdicts@),
{
    if verdicts.len() != rules.len() {
        return None;
    }
    let mut i: usize = 0;
    assert(rules@.skip(0) =~= rules@);
    assert(verdicts@.skip(0) =~= verdicts@);
    while i < rules.len()
        invariant
            i <= rules@.len(),
            verdicts@.len() == rules@.len(),
            first_color(rules@, verdicts@) == first_color(
                rules@.skip(i as int),
                verdicts@.skip(i as int),
            ),
        decreases rules@.len() - i,
    {
        assert(rules@.skip(i as int).drop_first() =~= rules@.skip(i + 1));
        assert(verdicts@.skip(i as int).drop_first() =~= verdicts@.skip(i + 1));
        match verdicts[i] {
            Some(true) => {
                return Some(rules[i].1.clone());
            },
            _ => {},
        }
        i = i + 1;
    }
    None
}

/// Tests `name` against the patterns of `rules` in order and gives the color
/// of the first that matches.
pub fn pick_color(rules: &[(String, String)], name: &str) -> (r: Option<String>)
    ensures
        crate::models::text_view(r) == color_of(rules@, name@),
{
    let mut verdicts: Vec<Option<bool>> = Vec::new();
    let mut i: usize = 0;
    while i < rules.len()
        invariant
            i <= rules@.len(),
            verdicts@.len() == i,
            forall|k: int|
                0 <= k < i ==> verdicts@[k] == pattern_found((#[trigger] rules@[k]).0@, name@),
        decreases rules@.len() - i,
    {
        verdicts.push(find_pattern(rules[i].0.as_str(), name));
        i = i + 1;
    }
    assert(verdicts@ =~= verdicts_on(rules@, name@));
    color_for_verdicts(rules, verdicts.as_slice())
}

} // verus!
