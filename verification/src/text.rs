//! Text: the order by which names are sorted, the search for a text inside
//! another, and lower case.

use vstd::prelude::*;

verus! {

/// The texts of a sequence of strings, in the same order.
pub open spec fn texts_of(names: Seq<String>) -> Seq<Seq<char>> {
    names.map_values(|s: String| s@)
}

/// `a` stands before `b` in the order of `str`: at the first place where the
/// two differ `a` has the smaller character, or `a` ends there and `b` goes
/// on.
pub open spec fn text_precedes(a: Seq<char>, b: Seq<char>) -> bool
    decreases a.len(),
{
    if b.len() == 0 {
        false
    } else if a.len() == 0 {
        true
    } else if a[0] != b[0] {
        (a[0] as int) < (b[0] as int)
    } else {
        text_precedes(a.skip(1), b.skip(1))
    }
}

/// `needle` stands somewhere in `hay`, character for character. The empty
/// text stands in every text.
pub open spec fn has_substring(hay: Seq<char>, needle: Seq<char>) -> bool {
    exists|i: int|
        0 <= i && i + needle.len() <= hay.len() && #[trigger] hay.subrange(
            i,
            i + needle.len(),
        ) == needle
}

/// The lower case of a text, as `str::to_lowercase` gives it.
pub uninterp spec fn lowercase_of(s: Seq<char>) -> Seq<char>;

/// No text stands before itself.
pub proof fn lemma_precedes_irreflexive(a: Seq<char>)
    ensures
        !text_precedes(a, a),
    decreases a.len(),
{
    if a.len() > 0 {
        lemma_precedes_irreflexive(a.skip(1));
    }
}

/// The order is transitive.
pub proof fn lemma_precedes_transitive(a: Seq<char>, b: Seq<char>, c: Seq<char>)
    requires
        text_precedes(a, b),
        text_precedes(b, c),
    ensures
        text_precedes(a, c),
    decreases a.len(),
{
    if a.len() > 0 && b.len() > 0 && c.len() > 0 {
        if a[0] == b[0] && b[0] == c[0] {
            lemma_precedes_transitive(a.skip(1), b.skip(1), c.skip(1));
        }
    }
}

/// Of two different texts one stands before the other.
pub proof fn lemma_precedes_total(a: Seq<char>, b: Seq<char>)
    ensures
        a == b || text_precedes(a, b) || text_precedes(b, a),
    decreases a.len(),
{
    if a.len() == 0 || b.len() == 0 {
        if a.len() == 0 && b.len() == 0 {
            assert(a =~= b);
        }
    } else if a[0] == b[0] {
        lemma_precedes_total(a.skip(1), b.skip(1));
        if a.skip(1) == b.skip(1) {
            assert(a.len() == a.skip(1).len() + 1);
            assert(b.len() == b.skip(1).len() + 1);
            assert forall|i: int| 0 <= i < a.len() implies a[i] == b[i] by {
                if i > 0 {
                    assert(a[i] == a.skip(1)[i - 1]);
                    assert(b[i] == b.skip(1)[i - 1]);
                }
            }
            assert(a =~= b);
        }
    } else {
        assert(a[0] as int != b[0] as int);
    }
}

/// No two texts stand before each other.
pub proof fn lemma_precedes_asymmetric(a: Seq<char>, b: Seq<char>)
    requires
        text_precedes(a, b),
    ensures
        !text_precedes(b, a),
        a != b,
{
    lemma_precedes_irreflexive(a);
    if text_precedes(b, a) {
        lemma_precedes_transitive(a, b, a);
    }
}

/// Whether `a` stands before `b`, by `<` on `str`. Rust orders strings by
/// their bytes, which in UTF-8 is the order of their characters' code points.
#[verifier::external_body]
pub(crate) fn comes_before(a: &String, b: &String) -> (r: bool)
    ensures
        r == text_precedes(a@, b@),
{
    a.as_str() < b.as_str()
}

/// Whether `needle` stands in `hay`, by `str::contains`. A match of one
/// well-formed UTF-8 text inside another begins and ends between characters.
#[verifier::external_body]
pub(crate) fn contains_text(hay: &String, needle: &String) -> (r: bool)
    ensures
        r == has_substring(hay@, needle@),
{
    hay.contains(needle.as_str())
}

/// The lower case of `s`, by `str::to_lowercase`. The result is named, not
/// described: it follows the Unicode tables that the standard library
/// carries.
#[verifier::external_body]
pub(crate) fn lowercase(s: &String) -> (r: String)
    ensures
        r@ == lowercase_of(s@),
{
    s.to_lowercase()
}

/// Whether `query` stands in `front` or in `back`, character for character.
/// A search without regard to case hands in all three in lower case.
pub fn found_in_either(front: &String, back: &String, query: &String) -> (r: bool)
    ensures
        r == (has_substring(front@, query@) || has_substring(back@, query@)),
{
    contains_text(front, query) || contains_text(back, query)
}

} // verus!
