//! Text handling: normalization, joining tokens, and access to characters.

use unicode_normalization::UnicodeNormalization;
use vstd::prelude::*;

verus! {

/// The lowercase form of a text, as the standard library computes it.
pub uninterp spec fn lowercase_of(text: Seq<char>) -> Seq<char>;

/// The compatibility decomposition (NFKD) of a text.
pub uninterp spec fn nfkd_of(text: Seq<char>) -> Seq<char>;

/// The form in which texts are compared: lowercased, then decomposed.
pub open spec fn normalized(text: Seq<char>) -> Seq<char> {
    nfkd_of(lowercase_of(text))
}

/// Calls `str::to_lowercase`. Nothing is proved of it: the contract only
/// gives its result a name, as the result depends on the text alone.
#[verifier::external_body]
fn lowercase(text: &str) -> (r: String)
    ensures
        r@ == lowercase_of(text@),
{
    text.to_lowercase()
}

/// Calls `UnicodeNormalization::nfkd` of the crate `unicode-normalization`
/// and collects the characters it yields. Nothing is proved of it: the
/// contract only gives its result a name, as the result depends on the text
/// alone.
#[verifier::external_body]
fn nfkd(text: &str) -> (r: String)
    ensures
        r@ == nfkd_of(text@),
{
    text.nfkd().collect()
}

/// Calls `String::from` on one character: the text that holds exactly it.
#[verifier::external_body]
pub(crate) fn char_to_string(c: char) -> (r: String)
    ensures
        r@ == seq![c],
{
    String::from(c)
}

/// Normalizes a text for comparison.
pub fn normalize(text: &str) -> (r: String)
    ensures
        r@ == normalized(text@),
{
    let lower = lowercase(text);
    nfkd(lower.as_str())
}

/// The texts of a list of tokens.
pub open spec fn token_texts(tokens: Seq<&str>) -> Seq<Seq<char>> {
    Seq::new(tokens.len(), |i: int| tokens[i]@)
}

/// All tokens written one after another.
pub open spec fn concat(tokens: Seq<Seq<char>>) -> Seq<char>
    decreases tokens.len(),
{
    if tokens.len() == 0 {
        Seq::empty()
    } else {
        concat(tokens.drop_last()) + tokens.last()
    }
}

/// Joins the tokens into one text, with nothing between them.
pub fn join(tokens: &[&str]) -> (text: String)
    ensures
        text@ == concat(token_texts(tokens@)),
{
    let mut text = String::new();
    let ghost texts = token_texts(tokens@);
    for i in 0..tokens.len()
        invariant
            texts == token_texts(tokens@),
            text@ == concat(texts.take(i as int)),
    {
        text.append(tokens[i]);
        proof {
            assert(texts.take(i + 1).drop_last() =~= texts.take(i as int));
        }
    }
    proof {
        assert(texts.take(tokens@.len() as int) =~= texts);
    }
    text
}

/// The characters of a text.
pub fn chars_of(text: &str) -> (chars: Vec<char>)
    ensures
        chars@ == text@,
{
    let mut chars: Vec<char> = Vec::new();
    for c in it: text.chars()
        invariant
            chars@ == it.seq().take(it.index()),
            it.seq() == text@,
    {
        chars.push(c);
    }
    chars
}

} // verus!
