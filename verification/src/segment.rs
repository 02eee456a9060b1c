//! The segmentation engine: a left-to-right scan over atomic tokens that
//! prefers exact word-map hits, then greedy longest word matches over runs
//! of Han-like tokens, and falls back to character-level lookup.

use vstd::prelude::*;

verus! {

use vstd::math::min;
use crate::text::{is_alnum, is_space, lower_seq, alnum_char, space_char, append_chars};
use crate::codec::{normalize_phrase, join_space, normalize_phrase_vec, join_space_vec, sub_vec};
use crate::dict::{StrMap, DictionarySnapshot};

/// A character that is neither whitespace nor ASCII alphanumeric; in
/// dictionary-bearing text these are the lookup candidates.
pub open spec fn is_han_char(c: char) -> bool {
    !is_space(c) && !is_alnum(c)
}

/// A token of exactly one Han-like character.
pub open spec fn is_han_token(t: Seq<char>) -> bool {
    t.len() == 1 && is_han_char(t[0])
}

/// Every character ASCII alphanumeric (vacuously true of the empty token).
pub open spec fn all_alnum(t: Seq<char>) -> bool {
    forall|i: int| 0 <= i < t.len() ==> is_alnum(#[trigger] t[i])
}

/// A non-empty token made entirely of Han-like characters.
pub open spec fn is_han_phrase(t: Seq<char>) -> bool {
    t.len() > 0 && forall|i: int| 0 <= i < t.len() ==> is_han_char(#[trigger] t[i])
}

/// All tokens in `[from, to)` are Han-like single characters.
pub open spec fn all_han(ts: Seq<Seq<char>>, from: int, to: int) -> bool {
    forall|k: int| from <= k < to ==> is_han_token(#[trigger] ts[k])
}

/// The characters of tokens `[from, to)` concatenated.
pub open spec fn concat_tokens(ts: Seq<Seq<char>>, from: int, to: int) -> Seq<char>
    decreases to - from,
{
    if from >= to {
        Seq::empty()
    } else {
        concat_tokens(ts, from, to - 1) + ts[to - 1]
    }
}

/// The phrase a dictionary hit emits: the normalized reading, or the
/// looked-up text itself when the reading normalizes to empty — an empty
/// raw reading means the literal text is its own reading.
pub open spec fn hit_phrase(raw: Seq<char>, text: Seq<char>) -> Seq<char> {
    let p = normalize_phrase(raw);
    if p.len() == 0 {
        text
    } else {
        p
    }
}

/// What a single token maps to at character level: ASCII alphanumeric
/// tokens fold to lowercase, known dictionary characters resolve to their
/// normalized reading (the character itself when the reading normalizes to
/// empty), anything else passes through unchanged.
pub open spec fn map_token_spec(t: Seq<char>, cm: Map<Seq<char>, Seq<char>>) -> Seq<char> {
    if all_alnum(t) {
        lower_seq(t)
    } else if cm.contains_key(t) {
        hit_phrase(cm[t], t)
    } else {
        t
    }
}

/// The word-level fallback for a token no word entry covers: single
/// characters go through the character map; a multi-character all-Han token
/// is decomposed, each character resolved, and the parts joined with
/// spaces; mixed content passes through unchanged.
pub open spec fn map_word_fallback_spec(t: Seq<char>, cm: Map<Seq<char>, Seq<char>>) -> Seq<
    char,
> {
    if all_alnum(t) {
        lower_seq(t)
    } else if t.len() == 1 {
        map_token_spec(t, cm)
    } else if !is_han_phrase(t) {
        t
    } else {
        join_space(t.map_values(|c: char| map_token_spec(seq![c], cm)))
    }
}

/// The longest span `m` with `2 <= m <= n` such that tokens
/// `[start, start+m)` are all Han-like and their concatenation is a word
/// key; 0 if there is none.
pub open spec fn best_span(
    ts: Seq<Seq<char>>,
    start: int,
    n: int,
    wm: Map<Seq<char>, Seq<char>>,
) -> int
    decreases n,
{
    if n < 2 {
        0
    } else if all_han(ts, start, start + n) && wm.contains_key(
        concat_tokens(ts, start, start + n),
    ) {
        n
    } else {
        best_span(ts, start, n - 1, wm)
    }
}

pub proof fn lemma_best_span_range(
    ts: Seq<Seq<char>>,
    start: int,
    n: int,
    wm: Map<Seq<char>, Seq<char>>,
)
    ensures
        best_span(ts, start, n, wm) == 0 || (2 <= best_span(ts, start, n, wm) <= n),
    decreases n,
{
    if n >= 2 {
        lemma_best_span_range(ts, start, n - 1, wm);
    }
}

/// A non-Han token inside the window caps the search: spans reaching past
/// it cannot match.
pub proof fn lemma_best_span_cut(
    ts: Seq<Seq<char>>,
    start: int,
    k: int,
    n: int,
    wm: Map<Seq<char>, Seq<char>>,
)
    requires
        0 <= k <= n,
        !is_han_token(ts[start + k]),
    ensures
        best_span(ts, start, n, wm) == best_span(ts, start, k, wm),
    decreases n,
{
    if n > k && n >= 2 {
        assert(!all_han(ts, start, start + n)) by {
            assert(start <= start + k < start + n);
        }
        lemma_best_span_cut(ts, start, k, n - 1, wm);
    }
}

/// The phrases the segmentation engine emits from position `from` on:
/// an exact word hit for the token itself, else the longest multi-token
/// Han word match, else the character-level fallback.
pub open spec fn segment_tokens(
    ts: Seq<Seq<char>>,
    from: int,
    dict: DictionarySnapshot,
) -> Seq<Seq<char>>
    decreases ts.len() - from
        when 0 <= from <= ts.len()
        via segment_tokens_decreases
{
    if from >= ts.len() {
        Seq::empty()
    } else if dict.word_map@.contains_key(ts[from]) {
        seq![hit_phrase(dict.word_map@[ts[from]], ts[from])] + segment_tokens(ts, from + 1,
            dict)
    } else {
        let b = if dict.max_word_len >= 2 && is_han_token(ts[from]) {
            best_span(ts, from, min(dict.max_word_len as int, ts.len() - from), dict.word_map@)
        } else {
            0
        };
        if b >= 2 {
            seq![hit_phrase(dict.word_map@[concat_tokens(ts, from, from + b)], concat_tokens(
                ts, from, from + b))] + segment_tokens(ts, from + b, dict)
        } else {
            seq![map_word_fallback_spec(ts[from], dict.char_map@)] + segment_tokens(
                ts, from + 1, dict)
        }
    }
}

#[via_fn]
proof fn segment_tokens_decreases(ts: Seq<Seq<char>>, from: int, dict: DictionarySnapshot) {
    if 0 <= from < ts.len() && !dict.word_map@.contains_key(ts[from]) && dict.max_word_len >= 2
        && is_han_token(ts[from]) {
        lemma_best_span_range(ts, from, min(dict.max_word_len as int, ts.len() - from),
            dict.word_map@);
    }
}

/// The token list with empty tokens removed, order kept.
pub open spec fn non_empty_tokens(ts: Seq<Seq<char>>) -> Seq<Seq<char>>
    decreases ts.len(),
{
    if ts.len() == 0 {
        Seq::empty()
    } else if ts[0].len() > 0 {
        seq![ts[0]] + non_empty_tokens(ts.drop_first())
    } else {
        non_empty_tokens(ts.drop_first())
    }
}

/// The full result of word-level normalization of a token list: empties
/// dropped, the rest segmented, the phrases joined with single spaces.
pub open spec fn word_tokens_result(ts: Seq<Seq<char>>, dict: DictionarySnapshot) -> Seq<char> {
    join_space(segment_tokens(non_empty_tokens(ts), 0, dict))
}

/// Every character ASCII alphanumeric, executable form.
pub fn all_alnum_vec(t: &Vec<char>) -> (r: bool)
    ensures
        r == all_alnum(t@),
{
    let n = t.len();
    let mut i: usize = 0;
    while i < n && alnum_char(t[i])
        invariant
            i <= n,
            n == t@.len(),
            forall|j: int| 0 <= j < i ==> is_alnum(#[trigger] t@[j]),
        decreases n - i,
    {
        i = i + 1;
    }
    if i == n {
        true
    } else {
        proof {
            assert(!is_alnum(t@[i as int]));
        }
        false
    }
}

pub fn han_token(t: &Vec<char>) -> (r: bool)
    ensures
        r == is_han_token(t@),
{
    t.len() == 1 && !space_char(t[0]) && !alnum_char(t[0])
}

/// Map one token through the character dictionary.
pub fn map_token(t: &Vec<char>, cm: &StrMap) -> (r: Vec<char>)
    requires
        cm.wf(),
    ensures
        r@ == map_token_spec(t@, cm@),
{
    let n = t.len();
    let mut i: usize = 0;
    while i < n && alnum_char(t[i])
        invariant
            i <= n,
            n == t@.len(),
            forall|j: int| 0 <= j < i ==> is_alnum(#[trigger] t@[j]),
        decreases n - i,
    {
        i = i + 1;
    }
    if i == n {
        proof {
            assert(all_alnum(t@));
        }
        return crate::codec::lower_range(t, 0, n);
    }
    proof {
        assert(!is_alnum(t@[i as int]));
        assert(!all_alnum(t@));
    }
    match cm.get(t) {
        Some(v) => {
            let p = normalize_phrase_vec(v);
            if p.len() == 0 {
                sub_vec(t, 0, n)
            } else {
                p
            }
        },
        None => sub_vec(t, 0, n),
    }
}

/// The word-level fallback for one token.
pub fn map_word_fallback(t: &Vec<char>, cm: &StrMap) -> (r: Vec<char>)
    requires
        cm.wf(),
    ensures
        r@ == map_word_fallback_spec(t@, cm@),
{
    let n = t.len();
    let mut i: usize = 0;
    while i < n && alnum_char(t[i])
        invariant
            i <= n,
            n == t@.len(),
            forall|j: int| 0 <= j < i ==> is_alnum(#[trigger] t@[j]),
        decreases n - i,
    {
        i = i + 1;
    }
    if i == n {
        proof {
            assert(all_alnum(t@));
        }
        return crate::codec::lower_range(t, 0, n);
    }
    proof {
        assert(!is_alnum(t@[i as int]));
        assert(!all_alnum(t@));
    }
    if n == 1 {
        return map_token(t, cm);
    }
    let mut k: usize = 0;
    while k < n && !space_char(t[k]) && !alnum_char(t[k])
        invariant
            k <= n,
            n == t@.len(),
            forall|j: int| 0 <= j < k ==> is_han_char(#[trigger] t@[j]),
        decreases n - k,
    {
        k = k + 1;
    }
    if k < n {
        proof {
            assert(!is_han_char(t@[k as int]));
            assert(!is_han_phrase(t@));
        }
        return sub_vec(t, 0, n);
    }
    proof {
        assert(is_han_phrase(t@));
    }
    let ghost per_char = t@.map_values(|c: char| map_token_spec(seq![c], cm@));
    let mut parts: Vec<Vec<char>> = Vec::new();
    let mut j: usize = 0;
    while j < n
        invariant
            cm.wf(),
            j <= n,
            n == t@.len(),
            per_char == t@.map_values(|c: char| map_token_spec(seq![c], cm@)),
            parts@.map_values(|p: Vec<char>| p@) == per_char.take(j as int),
        decreases n - j,
    {
        let one = sub_vec(t, j, j + 1);
        proof {
            assert(one@ =~= seq![t@[j as int]]);
        }
        let mapped = map_token(&one, cm);
        let ghost before = parts@.map_values(|p: Vec<char>| p@);
        parts.push(mapped);
        j = j + 1;
        proof {
            assert(mapped@ == map_token_spec(seq![t@[j - 1]], cm@));
            assert(per_char[j - 1] == map_token_spec(seq![t@[j - 1]], cm@));
            assert(parts@.map_values(|p: Vec<char>| p@) =~= before.push(per_char[j - 1]));
            assert(before.push(per_char[j - 1]) =~= per_char.take(j as int));
        }
    }
    proof {
        assert(per_char.take(n as int) =~= per_char);
    }
    join_space_vec(&parts)
}

/// Normalize a token list at word level: drop empty tokens, run the
/// segmentation scan, join the emitted phrases with single spaces.
pub fn normalize_word_tokens_vec(tokens: &Vec<Vec<char>>, dict: &DictionarySnapshot) -> (r: Vec<
    char,
>)
    requires
        dict.wf(),
    ensures
        r@ == word_tokens_result(tokens@.map_values(|t: Vec<char>| t@), *dict),
{
    let ghost all = tokens@.map_values(|t: Vec<char>| t@);
    let mut ts: Vec<Vec<char>> = Vec::new();
    let mut i: usize = 0;
    proof {
        assert(all.skip(0) =~= all);
        assert(ts@.map_values(|t: Vec<char>| t@) + non_empty_tokens(all) =~= non_empty_tokens(
            all));
    }
    while i < tokens.len()
        invariant
            i <= tokens@.len(),
            all == tokens@.map_values(|t: Vec<char>| t@),
            ts@.map_values(|t: Vec<char>| t@) + non_empty_tokens(all.skip(i as int))
                == non_empty_tokens(all),
        decreases tokens@.len() - i,
    {
        let ghost before = ts@.map_values(|t: Vec<char>| t@);
        let ghost rest = all.skip(i as int);
        proof {
            assert(rest[0] == all[i as int]);
            assert(rest.drop_first() =~= all.skip(i + 1));
        }
        if tokens[i].len() > 0 {
            let copied = sub_vec(&tokens[i], 0, tokens[i].len());
            proof {
                assert(copied@ =~= all[i as int]);
            }
            ts.push(copied);
            proof {
                assert(ts@.map_values(|t: Vec<char>| t@) =~= before.push(all[i as int]));
                assert(ts@.map_values(|t: Vec<char>| t@) + non_empty_tokens(all.skip(i + 1))
                    =~= before + (seq![rest[0]] + non_empty_tokens(rest.drop_first())));
            }
        } else {
            proof {
                assert(ts@.map_values(|t: Vec<char>| t@) + non_empty_tokens(all.skip(i + 1))
                    =~= before + non_empty_tokens(rest.drop_first()));
            }
        }
        i = i + 1;
    }
    proof {
        assert(all.skip(tokens@.len() as int) =~= Seq::<Seq<char>>::empty());
        assert(ts@.map_values(|t: Vec<char>| t@) + non_empty_tokens(all.skip(
            tokens@.len() as int)) =~= ts@.map_values(|t: Vec<char>| t@));
    }
    let ghost tsv = ts@.map_values(|t: Vec<char>| t@);
    let mut out: Vec<Vec<char>> = Vec::new();
    let mut idx: usize = 0;
    proof {
        assert(out@.map_values(|p: Vec<char>| p@) + segment_tokens(tsv, 0, *dict)
            =~= segment_tokens(tsv, 0, *dict));
    }
    while idx < ts.len()
        invariant
            dict.wf(),
            idx <= ts@.len(),
            tsv == ts@.map_values(|t: Vec<char>| t@),
            out@.map_values(|p: Vec<char>| p@) + segment_tokens(tsv, idx as int, *dict)
                == segment_tokens(tsv, 0, *dict),
        decreases ts@.len() - idx,
    {
        let ghost before = out@.map_values(|p: Vec<char>| p@);
        let ghost idx0 = idx as int;
        proof {
            assert(tsv[idx0] == ts@[idx0]@);
        }
        let hit = dict.word_map.get(&ts[idx]);
        match hit {
            Some(mapped) => {
                let phrase = normalize_phrase_vec(mapped);
                let emitted = if phrase.len() == 0 {
                    sub_vec(&ts[idx], 0, ts[idx].len())
                } else {
                    phrase
                };
                proof {
                    assert(emitted@ == hit_phrase(dict.word_map@[tsv[idx0]], tsv[idx0]));
                }
                out.push(emitted);
                idx = idx + 1;
                proof {
                    assert(out@.map_values(|p: Vec<char>| p@) =~= before.push(
                        hit_phrase(dict.word_map@[tsv[idx0]], tsv[idx0])));
                    assert(out@.map_values(|p: Vec<char>| p@) + segment_tokens(tsv,
                        idx as int, *dict) =~= before + segment_tokens(tsv, idx0, *dict));
                }
            },
            None => {
                let mut best: usize = 0;
                let mut best_phrase: Vec<char> = Vec::new();
                if dict.max_word_len >= 2 && han_token(&ts[idx]) {
                    let remaining = ts.len() - idx;
                    let window = if dict.max_word_len < remaining {
                        dict.max_word_len
                    } else {
                        remaining
                    };
                    let ghost n0 = min(dict.max_word_len as int, tsv.len() - idx0);
                    proof {
                        assert(n0 == window as int);
                    }
                    let limit = idx + window;
                    let mut candidate: Vec<char> = Vec::new();
                    let mut end: usize = idx;
                    while end < limit
                        invariant_except_break
                            dict.wf(),
                            tsv == ts@.map_values(|t: Vec<char>| t@),
                            idx <= end <= limit,
                            limit == idx + window <= ts@.len(),
                            n0 == window as int,
                            idx == idx0,
                            all_han(tsv, idx0, end as int),
                            candidate@ == concat_tokens(tsv, idx0, end as int),
                            best as int == best_span(tsv, idx0, end - idx0, dict.word_map@),
                            best == 0 || (2 <= best && best as int <= end - idx0),
                            best > 0 ==> best_phrase@ == hit_phrase(dict.word_map@[
                                concat_tokens(tsv, idx0, idx0 + best)], concat_tokens(tsv,
                                idx0, idx0 + best)),
                        ensures
                            best as int == best_span(tsv, idx0, n0, dict.word_map@),
                            best == 0 || (2 <= best && best as int <= n0),
                            best > 0 ==> best_phrase@ == hit_phrase(dict.word_map@[
                                concat_tokens(tsv, idx0, idx0 + best)], concat_tokens(tsv,
                                idx0, idx0 + best)),
                        decreases limit - end,
                    {
                        if !han_token(&ts[end]) {
                            proof {
                                assert(tsv[end as int] == ts@[end as int]@);
                                lemma_best_span_cut(tsv, idx0, end - idx0, n0, dict.word_map@);
                            }
                            break;
                        }
                        proof {
                            assert(tsv[end as int] == ts@[end as int]@);
                        }
                        append_chars(&mut candidate, &ts[end]);
                        proof {
                            assert(candidate@ == concat_tokens(tsv, idx0, end as int)
                                + tsv[end as int]);
                            assert(candidate@ == concat_tokens(tsv, idx0, end + 1));
                            assert(all_han(tsv, idx0, end + 1));
                        }
                        let span = end - idx + 1;
                        if span >= 2 {
                            let m = dict.word_map.get(&candidate);
                            match m {
                                Some(w) => {
                                    best = span;
                                    let p = normalize_phrase_vec(w);
                                    best_phrase = if p.len() == 0 {
                                        sub_vec(&candidate, 0, candidate.len())
                                    } else {
                                        p
                                    };
                                    proof {
                                        assert(dict.word_map@.contains_key(concat_tokens(
                                            tsv, idx0, idx0 + span)));
                                        assert(best_phrase@ == hit_phrase(dict.word_map@[
                                            concat_tokens(tsv, idx0, idx0 + span)],
                                            concat_tokens(tsv, idx0, idx0 + span)));
                                        assert(best as int == best_span(tsv, idx0,
                                            span as int, dict.word_map@));
                                    }
                                },
                                None => {
                                    proof {
                                        assert(!dict.word_map@.contains_key(concat_tokens(
                                            tsv, idx0, idx0 + span)));
                                        assert(best as int == best_span(tsv, idx0,
                                            span as int, dict.word_map@));
                                    }
                                },
                            }
                        } else {
                            proof {
                                assert(best as int == best_span(tsv, idx0, span as int,
                                    dict.word_map@));
                            }
                        }
                        end = end + 1;
                    }
                }
                if best >= 2 {
                    out.push(best_phrase);
                    idx = idx + best;
                    proof {
                        assert(out@.map_values(|p: Vec<char>| p@) =~= before.push(
                            hit_phrase(dict.word_map@[concat_tokens(tsv, idx0, idx0 + best)],
                                concat_tokens(tsv, idx0, idx0 + best))));
                        assert(out@.map_values(|p: Vec<char>| p@) + segment_tokens(tsv,
                            idx as int, *dict) =~= before + segment_tokens(tsv, idx0, *dict));
                    }
                } else {
                    let mapped = map_word_fallback(&ts[idx], &dict.char_map);
                    out.push(mapped);
                    idx = idx + 1;
                    proof {
                        assert(out@.map_values(|p: Vec<char>| p@) =~= before.push(
                            map_word_fallback_spec(tsv[idx0], dict.char_map@)));
                        assert(out@.map_values(|p: Vec<char>| p@) + segment_tokens(tsv,
                            idx as int, *dict) =~= before + segment_tokens(tsv, idx0, *dict));
                    }
                }
            },
        }
    }
    proof {
        assert(out@.map_values(|p: Vec<char>| p@) + segment_tokens(tsv, ts@.len() as int,
            *dict) =~= out@.map_values(|p: Vec<char>| p@));
        assert(out@.map_values(|p: Vec<char>| p@) == segment_tokens(tsv, 0, *dict));
        assert(tsv == non_empty_tokens(all));
    }
    join_space_vec(&out)
}

} // verus!
