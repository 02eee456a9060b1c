//! The public entry points: character-mode normalization, word-mode
//! normalization, and the token-array variants that bypass re-tokenization
//! when the caller already supplies discrete tokens.

use vstd::prelude::*;

verus! {

use crate::text::{chars_vec, string_of};
use crate::codec::join_space;
use crate::plain::{plain_text, tokens_of, normalize_plain_text, tokenize_plain};
use crate::segment::{map_token_spec, map_token, word_tokens_result, normalize_word_tokens_vec};
use crate::tokenlist::{token_list_norm, normalize_token_list};
use crate::dict::DictionarySnapshot;

/// Character-mode normalization of an input against a snapshot: plain-text
/// normalize, tokenize, then map every token independently through the
/// character dictionary and join with single spaces.
pub open spec fn char_normalize_spec(s: Seq<char>, cm: Map<Seq<char>, Seq<char>>) -> Seq<
    char,
> {
    join_space(tokens_of(plain_text(s, cm), 0).map_values(|t: Seq<char>| map_token_spec(t, cm)))
}

/// Word-mode normalization of an input against a snapshot: plain-text
/// normalize, tokenize, then run the full segmentation engine.
pub open spec fn word_normalize_spec(s: Seq<char>, dict: DictionarySnapshot) -> Seq<char> {
    word_tokens_result(tokens_of(plain_text(s, dict.char_map@), 0), dict)
}

/// What a caller-supplied token array normalizes to at word level.
pub open spec fn token_array_normalize_spec(
    ts: Seq<Seq<char>>,
    dict: DictionarySnapshot,
) -> Seq<char> {
    word_tokens_result(token_list_norm(ts), dict)
}

/// One phonetic unit per input token: every token is resolved through the
/// character dictionary alone, with no word-level matching.
pub fn pinyin_char_normalize(origin: &str, dict: &DictionarySnapshot) -> (r: String)
    requires
        dict.wf(),
    ensures
        r@ == char_normalize_spec(origin@, dict.char_map@),
{
    let ghost cm = dict.char_map@;
    let cs = chars_vec(origin);
    let normalized = normalize_plain_text(&cs, dict);
    let tokens = tokenize_plain(&normalized);
    let ghost toks = tokens@.map_values(|t: Vec<char>| t@);
    let ghost mapped_spec = toks.map_values(|t: Seq<char>| map_token_spec(t, cm));
    let mut out: Vec<Vec<char>> = Vec::new();
    let mut i: usize = 0;
    while i < tokens.len()
        invariant
            dict.wf(),
            cm == dict.char_map@,
            i <= tokens@.len(),
            toks == tokens@.map_values(|t: Vec<char>| t@),
            mapped_spec == toks.map_values(|t: Seq<char>| map_token_spec(t, cm)),
            out@.map_values(|t: Vec<char>| t@) == mapped_spec.take(i as int),
        decreases tokens@.len() - i,
    {
        let ghost before = out@.map_values(|t: Vec<char>| t@);
        let m = map_token(&tokens[i], &dict.char_map);
        out.push(m);
        i = i + 1;
        proof {
            assert(toks[i - 1] == tokens@[i - 1]@);
            assert(mapped_spec[i - 1] == map_token_spec(toks[i - 1], cm));
            assert(out@.map_values(|t: Vec<char>| t@) =~= before.push(mapped_spec[i - 1]));
            assert(before.push(mapped_spec[i - 1]) =~= mapped_spec.take(i as int));
        }
    }
    proof {
        assert(mapped_spec.take(tokens@.len() as int) =~= mapped_spec);
    }
    let joined = crate::codec::join_space_vec(&out);
    string_of(&joined)
}

/// Word-mode normalization: plain-text normalize, tokenize, and segment
/// with word-level longest match enabled.
pub fn pinyin_word_normalize(origin: &str, dict: &DictionarySnapshot) -> (r: String)
    requires
        dict.wf(),
    ensures
        r@ == word_normalize_spec(origin@, *dict),
{
    let cs = chars_vec(origin);
    let normalized = normalize_plain_text(&cs, dict);
    let tokens = tokenize_plain(&normalized);
    let joined = normalize_word_tokens_vec(&tokens, dict);
    string_of(&joined)
}

/// Word-mode normalization of a caller-supplied token array: tokens are
/// trimmed, empties dropped, ASCII alphanumeric tokens lowercased, then the
/// segmentation engine runs directly.
pub fn pinyin_word_normalize_tokens(tokens: &Vec<String>, dict: &DictionarySnapshot) -> (r:
    String)
    requires
        dict.wf(),
    ensures
        r@ == token_array_normalize_spec(tokens@.map_values(|s: String| s@), *dict),
{
    let ts = normalize_token_list(tokens);
    let joined = normalize_word_tokens_vec(&ts, dict);
    string_of(&joined)
}

/// What parsing the tokenizer input as a JSON array of strings yields; a
/// function of the input text alone.
pub uninterp spec fn json_string_array(s: Seq<char>) -> Option<Seq<Seq<char>>>;

/// Relies on `serde_json::from_str::<Vec<String>>`: parses a JSON array of
/// strings, deterministically in the input text.
#[verifier::external_body]
fn parse_token_array(s: &str) -> (r: Option<Vec<String>>)
    ensures
        match r {
            Some(ts) => json_string_array(s@) == Some(ts@.map_values(|t: String| t@)),
            None => json_string_array(s@) is None,
        },
{
    serde_json::from_str::<Vec<String>>(s).ok()
}

/// The tokenizer-input entry point: an input that parses as a JSON array
/// of strings is treated as a pre-tokenized list; anything else falls back
/// to word-mode normalization of the raw text.
pub fn pinyin_word_normalize_with_tokenizer(input: &str, dict: &DictionarySnapshot) -> (r:
    String)
    requires
        dict.wf(),
    ensures
        r@ == match json_string_array(input@) {
            Some(ts) => token_array_normalize_spec(ts, *dict),
            None => word_normalize_spec(input@, *dict),
        },
{
    match parse_token_array(input) {
        Some(tokens) => pinyin_word_normalize_tokens(&tokens, dict),
        None => pinyin_word_normalize(input, dict),
    }
}

} // verus!
