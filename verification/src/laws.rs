//! The library's laws: properties that hold across several functions,
//! stated over the same spec functions the public contracts use.

use vstd::prelude::*;

verus! {

use vstd::math::min;
use crate::codec::{first_reading, lemma_non_pipe_at_bounds, lemma_pipe_at_bounds, non_pipe_at,
    pipe_at, normalize_phrase};
use crate::text::lower_seq;
use crate::dict::{DictionaryCache, DictionarySnapshot};
use crate::segment::{segment_tokens, is_han_token, best_span, concat_tokens, all_han};

/// Polyphone default selection: when a raw reading consists of some pipes,
/// then a non-empty pipe-free alternative, then a pipe and anything
/// further, the selected reading is exactly that first alternative,
/// lowercased.
pub proof fn lemma_polyphone_default(pre: Seq<char>, head: Seq<char>, rest: Seq<char>)
    requires
        forall|i: int| 0 <= i < pre.len() ==> #[trigger] pre[i] == '|',
        head.len() > 0,
        forall|i: int| 0 <= i < head.len() ==> #[trigger] head[i] != '|',
    ensures
        first_reading(pre + head + seq!['|'] + rest) == lower_seq(head),
{
    let raw = pre + head + seq!['|'] + rest;
    let p = pre.len() as int;
    let h = head.len() as int;
    lemma_non_pipe_at_bounds(raw, 0);
    let i = non_pipe_at(raw, 0);
    assert(raw[p] == head[0]);
    assert(forall|k: int| 0 <= k < p ==> #[trigger] raw[k] == '|');
    assert(i <= p) by {
        if i > p {
            assert(raw[p] == '|');
        }
    }
    assert(i >= p) by {
        if i < p {
            assert(raw[i] != '|');
            assert(raw[i] == '|');
        }
    }
    lemma_pipe_at_bounds(raw, i);
    let j = pipe_at(raw, i);
    assert(raw[p + h] == '|');
    assert(forall|k: int| p <= k < p + h ==> #[trigger] raw[k] == head[k - p]);
    assert(j <= p + h) by {
        if j > p + h {
            assert(raw[p + h] != '|');
        }
    }
    assert(j >= p + h) by {
        if j < p + h {
            assert(raw[j] == head[j - p]);
            assert(raw[j] != '|');
            assert(raw[j] == '|');
        }
    }
    assert(raw.subrange(i, j) =~= head);
}

/// Longest match takes priority: with a word entry for the two-token
/// concatenation and no word entry for the first token alone, segmenting
/// the two tokens emits the word's reading as one phrase — never the first
/// token's character-level fallback followed by the second's. (When the
/// word's reading normalizes to empty, the reading is the word text
/// itself.)
pub proof fn lemma_longest_match_priority(t1: Seq<char>, t2: Seq<char>, dict: DictionarySnapshot)
    requires
        dict.wf(),
        is_han_token(t1),
        is_han_token(t2),
        dict.word_map@.contains_key(t1 + t2),
        !dict.word_map@.contains_key(t1),
    ensures
        segment_tokens(seq![t1, t2], 0, dict) == seq![
            crate::segment::hit_phrase(dict.word_map@[t1 + t2], t1 + t2),
        ],
{
    let ts = seq![t1, t2];
    assert((t1 + t2).len() == 2);
    assert(dict.max_word_len >= 2);
    assert(min(dict.max_word_len as int, ts.len() - 0) == 2);
    assert(concat_tokens(ts, 0, 2) =~= t1 + t2) by {
        assert(concat_tokens(ts, 0, 0) =~= Seq::<char>::empty());
        assert(concat_tokens(ts, 0, 1) =~= concat_tokens(ts, 0, 0) + ts[0]);
        assert(concat_tokens(ts, 0, 1) =~= t1);
    }
    assert(all_han(ts, 0, 2));
    assert(best_span(ts, 0, 2, dict.word_map@) == 2);
    assert(segment_tokens(ts, 2, dict) =~= Seq::<Seq<char>>::empty());
    assert(segment_tokens(ts, 0, dict) =~= seq![crate::segment::hit_phrase(
        dict.word_map@[t1 + t2], t1 + t2)]);
}

/// The cache state after the reload protocol has run against an observed
/// version `v` and a snapshot fetched at `v`: the fast path keeps the
/// held snapshot when it already carries `v`; otherwise the fetched
/// snapshot is installed.
pub open spec fn refreshed(
    pre: DictionaryCache,
    fetched: DictionarySnapshot,
    v: i64,
) -> DictionaryCache {
    if pre.loaded && pre.snapshot.version == v {
        pre
    } else {
        DictionaryCache { loaded: true, snapshot: fetched }
    }
}

/// Cache coherence: whichever path the reload protocol takes for an
/// observed version, the snapshot that serves the call carries exactly
/// that version — a version bump can never be observed while superseded
/// contents are returned.
pub proof fn lemma_cache_coherence(pre: DictionaryCache, fetched: DictionarySnapshot, v: i64)
    requires
        fetched.version == v,
    ensures
        refreshed(pre, fetched, v).loaded,
        refreshed(pre, fetched, v).snapshot.version == v,
{
}

use crate::splitter::{split_pieces, PieceKind, non_alnum_at, lemma_non_alnum_at_bounds};
use crate::plain::{plain_pieces, plain_text, tokens_of, trim_trailing_space};
use crate::codec::join_space;
use crate::segment::{map_token_spec, all_alnum};
use crate::text::{is_alnum, is_space, lower_char};
use crate::entry::char_normalize_spec;

/// Joining a head phrase before further phrases prepends it, with a
/// single separating space when anything follows.
pub proof fn lemma_join_space_cons(a: Seq<char>, ts: Seq<Seq<char>>)
    ensures
        join_space(seq![a] + ts) == if ts.len() == 0 {
            a
        } else {
            a + seq![' '] + join_space(ts)
        },
    decreases ts.len(),
{
    let all = seq![a] + ts;
    if ts.len() == 0 {
        assert(all.len() == 1);
        assert(all[0] == a);
    } else {
        assert(all.drop_last() =~= seq![a] + ts.drop_last());
        assert(all.last() == ts.last());
        lemma_join_space_cons(a, ts.drop_last());
        if ts.len() == 1 {
            assert(join_space(seq![a] + ts.drop_last()) == a);
            assert(join_space(ts) == ts[0]);
            assert(join_space(all) == a + seq![' '] + ts[0]);
        } else {
            assert(join_space(all) == (a + seq![' '] + join_space(ts.drop_last())) + seq![' ']
                + ts.last());
            assert((a + seq![' '] + join_space(ts.drop_last())) + seq![' '] + ts.last()
                =~= a + seq![' '] + (join_space(ts.drop_last()) + seq![' '] + ts.last()));
        }
    }
}

/// A lowercase ASCII letter or digit: its own lowercase form, not a
/// separator, and a valid run character.
pub open spec fn is_lower_alnum(c: char) -> bool {
    ('0' <= c && c <= '9') || ('a' <= c && c <= 'z')
}

/// Text already in canonical character-normalized shape: lowercase ASCII
/// alphanumeric runs separated by single spaces, no leading or trailing
/// space.
pub open spec fn canonical_ascii(s: Seq<char>) -> bool {
    &&& forall|i: int| 0 <= i < s.len() ==> (is_lower_alnum(#[trigger] s[i]) || s[i] == ' ')
    &&& s.len() > 0 ==> s[0] != ' '
    &&& s.len() > 0 ==> s[s.len() - 1] != ' '
    &&& forall|i: int| 0 <= i < s.len() - 1 ==> !(#[trigger] s[i] == ' ' && s[i + 1] == ' ')
}

/// On canonical text, the plain normalizer reproduces the remainder of the
/// input from any run boundary on.
proof fn lemma_plain_fixed_from(s: Seq<char>, i: int, ls: bool, cm: Map<Seq<char>, Seq<char>>)
    requires
        canonical_ascii(s),
        0 <= i <= s.len(),
        i < s.len() ==> s[i] != ' ',
    ensures
        plain_pieces(split_pieces(s, i), ls, cm) == s.skip(i),
    decreases s.len() - i,
{
    if i == s.len() {
        assert(s.skip(i) =~= Seq::<char>::empty());
    } else {
        assert(is_lower_alnum(s[i]));
        assert(is_alnum(s[i]));
        lemma_non_alnum_at_bounds(s, i);
        let e = non_alnum_at(s, i);
        let run = s.subrange(i, e);
        let ps = split_pieces(s, i);
        assert(ps == seq![(run, PieceKind::AsciiRun)] + split_pieces(s, e));
        assert(ps[0] == (run, PieceKind::AsciiRun));
        assert(ps.drop_first() =~= split_pieces(s, e));
        assert(crate::text::lower_seq(run) =~= run) by {
            assert(forall|k: int| 0 <= k < run.len() ==> is_lower_alnum(#[trigger] run[k]));
            assert(forall|k: int| 0 <= k < run.len() ==> #[trigger] lower_char(run[k])
                == run[k]);
        }
        if e == s.len() {
            assert(split_pieces(s, e) =~= Seq::<(Seq<char>, PieceKind)>::empty());
            assert(plain_pieces(ps, ls, cm) == run + plain_pieces(ps.drop_first(), false, cm));
            assert(run + Seq::<char>::empty() =~= s.skip(i));
        } else {
            assert(s[e] == ' ') by {
                assert(!is_alnum(s[e]));
                assert(is_lower_alnum(s[e]) || s[e] == ' ');
            }
            assert(e < s.len() - 1) by {
                if e == s.len() - 1 {
                    assert(s[s.len() - 1] == ' ');
                }
            }
            assert(s[e + 1] != ' ');
            let ps2 = split_pieces(s, e);
            assert(ps2 == seq![(seq![s[e]], PieceKind::Space)] + split_pieces(s, e + 1));
            assert(ps2[0] == (seq![s[e]], PieceKind::Space));
            assert(ps2.drop_first() =~= split_pieces(s, e + 1));
            lemma_plain_fixed_from(s, e + 1, true, cm);
            assert(plain_pieces(ps2, false, cm) == seq![' '] + plain_pieces(
                split_pieces(s, e + 1), true, cm));
            assert(plain_pieces(ps, ls, cm) == run + (seq![' '] + s.skip(e + 1)));
            assert(run + (seq![' '] + s.skip(e + 1)) =~= s.skip(i));
        }
    }
}

/// On canonical text, tokenization, character-level token mapping and
/// rejoining reproduce the remainder of the input from any run boundary.
proof fn lemma_tokens_fixed_from(s: Seq<char>, i: int, cm: Map<Seq<char>, Seq<char>>)
    requires
        canonical_ascii(s),
        0 <= i <= s.len(),
        i < s.len() ==> s[i] != ' ',
    ensures
        join_space(tokens_of(s, i).map_values(|t: Seq<char>| map_token_spec(t, cm)))
            == s.skip(i),
    decreases s.len() - i,
{
    if i == s.len() {
        assert(tokens_of(s, i) =~= Seq::<Seq<char>>::empty());
        assert(tokens_of(s, i).map_values(|t: Seq<char>| map_token_spec(t, cm))
            =~= Seq::<Seq<char>>::empty());
        assert(s.skip(i) =~= Seq::<char>::empty());
    } else {
        assert(is_lower_alnum(s[i]));
        assert(is_alnum(s[i]));
        assert(!is_space(s[i])) by {
            assert(s[i] != ' ');
        }
        lemma_non_alnum_at_bounds(s, i);
        let e = non_alnum_at(s, i);
        let run = s.subrange(i, e);
        assert(crate::text::lower_seq(run) =~= run) by {
            assert(forall|k: int| 0 <= k < run.len() ==> is_lower_alnum(#[trigger] run[k]));
            assert(forall|k: int| 0 <= k < run.len() ==> #[trigger] lower_char(run[k])
                == run[k]);
        }
        assert(tokens_of(s, i) == seq![run] + tokens_of(s, e));
        assert(all_alnum(run));
        assert(map_token_spec(run, cm) == run);
        if e == s.len() {
            assert(tokens_of(s, e) =~= Seq::<Seq<char>>::empty());
            assert(tokens_of(s, i) =~= seq![run]);
            let mapped = tokens_of(s, i).map_values(|t: Seq<char>| map_token_spec(t, cm));
            assert(mapped =~= seq![run]);
            assert(join_space(mapped) == run);
            assert(run =~= s.skip(i));
        } else {
            assert(s[e] == ' ') by {
                assert(!is_alnum(s[e]));
            }
            assert(is_space(s[e]));
            assert(e < s.len() - 1) by {
                if e == s.len() - 1 {
                    assert(s[s.len() - 1] == ' ');
                }
            }
            assert(s[e + 1] != ' ');
            assert(tokens_of(s, e) == tokens_of(s, e + 1));
            lemma_tokens_fixed_from(s, e + 1, cm);
            let rest = tokens_of(s, e + 1);
            let mapped_rest = rest.map_values(|t: Seq<char>| map_token_spec(t, cm));
            assert(join_space(mapped_rest) == s.skip(e + 1));
            assert(s.skip(e + 1).len() > 0);
            assert(mapped_rest.len() > 0) by {
                if mapped_rest.len() == 0 {
                    assert(join_space(mapped_rest) == Seq::<char>::empty());
                }
            }
            let mapped = tokens_of(s, i).map_values(|t: Seq<char>| map_token_spec(t, cm));
            assert(mapped =~= seq![run] + mapped_rest);
            lemma_join_space_cons(run, mapped_rest);
            assert(join_space(mapped) == run + seq![' '] + s.skip(e + 1));
            assert(run + seq![' '] + s.skip(e + 1) =~= s.skip(i));
        }
    }
}

/// Idempotence at the character level: text already in canonical
/// normalized shape — space-separated lowercase ASCII alphanumeric runs —
/// is a fixed point of character-mode normalization, whatever the
/// dictionary holds.
pub proof fn lemma_char_normalize_fixed_point(s: Seq<char>, dict: DictionarySnapshot)
    requires
        canonical_ascii(s),
    ensures
        char_normalize_spec(s, dict.char_map@) == s,
{
    let cm = dict.char_map@;
    lemma_plain_fixed_from(s, 0, true, cm);
    assert(s.skip(0) =~= s);
    assert(plain_pieces(split_pieces(s, 0), true, cm) == s);
    if s.len() > 0 {
        assert(s[s.len() - 1] != ' ');
    }
    assert(trim_trailing_space(s) == s);
    assert(plain_text(s, cm) == s);
    lemma_tokens_fixed_from(s, 0, cm);
}

use crate::codec::{phrase_tokens, lemma_space_at_bounds, space_at};
use crate::segment::{map_word_fallback_spec, non_empty_tokens, is_han_phrase, is_han_char,
    lemma_best_span_range};

/// No whitespace character at all.
pub open spec fn ws_free(u: Seq<char>) -> bool {
    forall|i: int| 0 <= i < u.len() ==> !is_space(#[trigger] u[i])
}

/// At least one non-whitespace character.
pub open spec fn has_non_space(u: Seq<char>) -> bool {
    exists|i: int| 0 <= i < u.len() && !is_space(#[trigger] u[i])
}

/// A well-shaped emitted phrase: non-empty, whitespace only as single
/// plain spaces, and none of them leading or trailing.
pub open spec fn emit_unit(u: Seq<char>) -> bool {
    &&& u.len() > 0
    &&& forall|i: int| 0 <= i < u.len() ==> (is_space(#[trigger] u[i]) ==> u[i] == ' ')
    &&& u[0] != ' '
    &&& u[u.len() - 1] != ' '
    &&& forall|i: int| 0 <= i < u.len() - 1 ==> !(#[trigger] u[i] == ' ' && u[i + 1] == ' ')
}

/// The shape the output laws promise: no tab, newline or other exotic
/// whitespace — only plain spaces — and no run of two or more of them.
pub open spec fn tame_output(s: Seq<char>) -> bool {
    &&& forall|i: int| 0 <= i < s.len() ==> (is_space(#[trigger] s[i]) ==> s[i] == ' ')
    &&& forall|i: int| 0 <= i < s.len() - 1 ==> !(#[trigger] s[i] == ' ' && s[i + 1] == ' ')
}

/// Every non-empty reading held under a key that a lookup can ever hit —
/// keys are tokens or token concatenations, so non-empty and
/// whitespace-free — has at least one non-whitespace character. (The
/// seeded space-to-space mapping row has a whitespace key, so no lookup
/// reaches it; an empty reading is harmless, since a hit then emits the
/// looked-up text itself.)
pub open spec fn readings_wf(m: Map<Seq<char>, Seq<char>>) -> bool {
    forall|k: Seq<char>| #[trigger] m.contains_key(k) && k.len() > 0 && ws_free(k)
        && m[k].len() > 0 ==> has_non_space(m[k])
}

proof fn lemma_emit_unit_tame(u: Seq<char>)
    requires
        u.len() == 0 || emit_unit(u),
    ensures
        tame_output(u),
{
}

proof fn lemma_ws_free_unit(u: Seq<char>)
    requires
        u.len() > 0,
        ws_free(u),
    ensures
        emit_unit(u),
{
}

/// Lowercasing never introduces whitespace.
proof fn lemma_lower_seq_ws(u: Seq<char>)
    requires
        ws_free(u),
    ensures
        ws_free(lower_seq(u)),
        lower_seq(u).len() == u.len(),
{
    assert forall|i: int| 0 <= i < lower_seq(u).len() implies !is_space(
        #[trigger] lower_seq(u)[i]) by {
        assert(lower_seq(u)[i] == lower_char(u[i]));
        assert(!is_space(u[i]));
        if 'A' <= u[i] && u[i] <= 'Z' {
            assert(!is_space(lower_char(u[i])));
        }
    }
}

/// The default reading of a non-empty whitespace-free raw reading is
/// non-empty and whitespace-free.
proof fn lemma_first_reading_unit(raw: Seq<char>)
    requires
        raw.len() > 0,
        ws_free(raw),
    ensures
        first_reading(raw).len() > 0,
        ws_free(first_reading(raw)),
{
    lemma_non_pipe_at_bounds(raw, 0);
    let i = non_pipe_at(raw, 0);
    if i == raw.len() {
        lemma_lower_seq_ws(raw);
    } else {
        lemma_pipe_at_bounds(raw, i);
        let j = pipe_at(raw, i);
        assert(j > i) by {
            if j == i {
                assert(raw[i] == '|');
            }
        }
        let seg = raw.subrange(i, j);
        assert(ws_free(seg)) by {
            assert(forall|k: int| 0 <= k < seg.len() ==> #[trigger] seg[k] == raw[i + k]);
        }
        lemma_lower_seq_ws(seg);
    }
}

/// Syllables of a word reading are non-empty and whitespace-free, and a
/// reading with any non-whitespace character has at least one syllable.
proof fn lemma_phrase_tokens_props(s: Seq<char>, i: int)
    requires
        0 <= i <= s.len(),
    ensures
        forall|k: int| 0 <= k < phrase_tokens(s, i).len() ==> (#[trigger] phrase_tokens(
            s, i)[k].len() > 0 && ws_free(phrase_tokens(s, i)[k])),
        (exists|k: int| i <= k < s.len() && !is_space(#[trigger] s[k])) ==> phrase_tokens(
            s, i).len() > 0,
    decreases s.len() - i,
{
    if i >= s.len() {
    } else if is_space(s[i]) {
        lemma_phrase_tokens_props(s, i + 1);
        if exists|k: int| i <= k < s.len() && !is_space(#[trigger] s[k]) {
            let k = choose|k: int| i <= k < s.len() && !is_space(#[trigger] s[k]);
            assert(k != i);
            assert(i + 1 <= k < s.len() && !is_space(s[k]));
        }
    } else {
        lemma_space_at_bounds(s, i);
        let e = space_at(s, i);
        assert(e > i) by {
            if e == i {
                assert(is_space(s[i]));
            }
        }
        let part = s.subrange(i, e);
        assert(ws_free(part)) by {
            assert(forall|k: int| 0 <= k < part.len() ==> #[trigger] part[k] == s[i + k]);
        }
        lemma_first_reading_unit(part);
        let t = first_reading(part);
        lemma_phrase_tokens_props(s, e);
        assert(t.len() > 0);
        assert(phrase_tokens(s, i) == seq![t] + phrase_tokens(s, e));
        assert(forall|k: int| 0 <= k < phrase_tokens(s, i).len() ==> (#[trigger] phrase_tokens(
            s, i)[k].len() > 0 && ws_free(phrase_tokens(s, i)[k]))) by {
            assert(phrase_tokens(s, i)[0] == t);
            assert(forall|k: int| 1 <= k < phrase_tokens(s, i).len()
                ==> #[trigger] phrase_tokens(s, i)[k] == phrase_tokens(s, e)[k - 1]);
        }
    }
}

/// Joining two well-shaped phrases with one space keeps the shape.
proof fn lemma_emit_unit_join2(a: Seq<char>, b: Seq<char>)
    requires
        emit_unit(a),
        emit_unit(b),
    ensures
        emit_unit(a + seq![' '] + b),
{
    let c = a + seq![' '] + b;
    let al = a.len() as int;
    assert(c[0] == a[0]);
    assert(c[c.len() - 1] == b[b.len() - 1]);
    assert forall|i: int| 0 <= i < c.len() implies (is_space(#[trigger] c[i]) ==> c[i]
        == ' ') by {
        if i < al {
            assert(c[i] == a[i]);
        } else if i == al {
            assert(c[i] == ' ');
        } else {
            assert(c[i] == b[i - al - 1]);
        }
    }
    assert forall|i: int| 0 <= i < c.len() - 1 implies !(#[trigger] c[i] == ' ' && c[i + 1]
        == ' ') by {
        if i + 1 < al {
            assert(c[i] == a[i] && c[i + 1] == a[i + 1]);
        } else if i + 1 == al {
            assert(c[i] == a[al - 1]);
            assert(a[al - 1] != ' ');
        } else if i == al {
            assert(c[i + 1] == b[0]);
            assert(b[0] != ' ');
        } else {
            assert(c[i] == b[i - al - 1] && c[i + 1] == b[i - al]);
        }
    }
}

/// Joining any number of well-shaped phrases with single spaces yields a
/// well-shaped phrase.
proof fn lemma_join_space_units(parts: Seq<Seq<char>>)
    requires
        parts.len() > 0,
        forall|k: int| 0 <= k < parts.len() ==> emit_unit(#[trigger] parts[k]),
    ensures
        emit_unit(join_space(parts)),
    decreases parts.len(),
{
    if parts.len() == 1 {
        assert(join_space(parts) == parts[0]);
    } else {
        lemma_join_space_units(parts.drop_last());
        lemma_emit_unit_join2(join_space(parts.drop_last()), parts.last());
    }
}

/// A word reading with any non-whitespace character normalizes to a
/// well-shaped phrase.
proof fn lemma_phrase_unit(raw: Seq<char>)
    requires
        has_non_space(raw),
    ensures
        emit_unit(normalize_phrase(raw)),
{
    lemma_phrase_tokens_props(raw, 0);
    let parts = phrase_tokens(raw, 0);
    assert(parts.len() > 0);
    assert forall|k: int| 0 <= k < parts.len() implies emit_unit(#[trigger] parts[k]) by {
        lemma_ws_free_unit(parts[k]);
    }
    lemma_join_space_units(parts);
}

/// The empty raw reading normalizes to the empty phrase, so a non-empty
/// normalized phrase always comes from a non-empty reading.
proof fn lemma_phrase_of_empty()
    ensures
        normalize_phrase(Seq::<char>::empty()).len() == 0,
{
    let e = Seq::<char>::empty();
    assert(phrase_tokens(e, 0) =~= Seq::<Seq<char>>::empty());
    assert(non_pipe_at(e, 0) == 0);
    assert(first_reading(e) == lower_seq(e));
    assert(lower_seq(e).len() == 0);
}

/// A hit whose reading normalizes to a non-empty phrase has a non-empty
/// raw reading.
proof fn lemma_nonempty_phrase_nonempty_raw(raw: Seq<char>)
    requires
        normalize_phrase(raw).len() > 0,
    ensures
        raw.len() > 0,
{
    if raw.len() == 0 {
        assert(raw =~= Seq::<char>::empty());
        lemma_phrase_of_empty();
    }
}

/// A non-empty whitespace-free token maps to a well-shaped phrase at
/// character level.
proof fn lemma_map_token_unit(t: Seq<char>, cm: Map<Seq<char>, Seq<char>>)
    requires
        t.len() > 0,
        ws_free(t),
        readings_wf(cm),
    ensures
        emit_unit(map_token_spec(t, cm)),
{
    if all_alnum(t) {
        lemma_lower_seq_ws(t);
        lemma_ws_free_unit(lower_seq(t));
    } else if cm.contains_key(t) {
        if normalize_phrase(cm[t]).len() == 0 {
            lemma_ws_free_unit(t);
        } else {
            lemma_nonempty_phrase_nonempty_raw(cm[t]);
            assert(has_non_space(cm[t]));
            lemma_phrase_unit(cm[t]);
        }
    } else {
        lemma_ws_free_unit(t);
    }
}

/// A non-empty whitespace-free token maps to a well-shaped phrase through
/// the word-level fallback.
proof fn lemma_map_word_fallback_unit(t: Seq<char>, cm: Map<Seq<char>, Seq<char>>)
    requires
        t.len() > 0,
        ws_free(t),
        readings_wf(cm),
    ensures
        emit_unit(map_word_fallback_spec(t, cm)),
{
    if all_alnum(t) {
        lemma_lower_seq_ws(t);
        lemma_ws_free_unit(lower_seq(t));
    } else if t.len() == 1 {
        lemma_map_token_unit(t, cm);
    } else if !is_han_phrase(t) {
        lemma_ws_free_unit(t);
    } else {
        let parts = t.map_values(|c: char| map_token_spec(seq![c], cm));
        assert forall|k: int| 0 <= k < parts.len() implies emit_unit(#[trigger] parts[k]) by {
            assert(parts[k] == map_token_spec(seq![t[k]], cm));
            assert(!is_space(t[k]));
            assert(ws_free(seq![t[k]]));
            lemma_map_token_unit(seq![t[k]], cm);
        }
        lemma_join_space_units(parts);
    }
}

/// Every phrase the segmentation engine emits from non-empty
/// whitespace-free tokens is well shaped.
proof fn lemma_segment_units(ts: Seq<Seq<char>>, from: int, dict: DictionarySnapshot)
    requires
        0 <= from <= ts.len(),
        forall|k: int| 0 <= k < ts.len() ==> (#[trigger] ts[k].len() > 0 && ws_free(ts[k])),
        readings_wf(dict.char_map@),
        readings_wf(dict.word_map@),
    ensures
        forall|k: int| 0 <= k < segment_tokens(ts, from, dict).len() ==> emit_unit(
            #[trigger] segment_tokens(ts, from, dict)[k]),
    decreases ts.len() - from,
{
    if from >= ts.len() {
    } else if dict.word_map@.contains_key(ts[from]) {
        let u = crate::segment::hit_phrase(dict.word_map@[ts[from]], ts[from]);
        if normalize_phrase(dict.word_map@[ts[from]]).len() == 0 {
            lemma_ws_free_unit(ts[from]);
        } else {
            lemma_nonempty_phrase_nonempty_raw(dict.word_map@[ts[from]]);
            assert(has_non_space(dict.word_map@[ts[from]]));
            lemma_phrase_unit(dict.word_map@[ts[from]]);
        }
        lemma_segment_units(ts, from + 1, dict);
        let whole = segment_tokens(ts, from, dict);
        assert(whole == seq![u] + segment_tokens(ts, from + 1, dict));
        assert forall|k: int| 0 <= k < whole.len() implies emit_unit(#[trigger] whole[k]) by {
            if k == 0 {
                assert(whole[0] == u);
            } else {
                assert(whole[k] == segment_tokens(ts, from + 1, dict)[k - 1]);
            }
        }
    } else {
        let b = if dict.max_word_len >= 2 && is_han_token(ts[from]) {
            best_span(ts, from, min(dict.max_word_len as int, ts.len() - from), dict.word_map@)
        } else {
            0
        };
        if dict.max_word_len >= 2 && is_han_token(ts[from]) {
            lemma_best_span_range(ts, from, min(dict.max_word_len as int, ts.len() - from),
                dict.word_map@);
        }
        if b >= 2 {
            let key = concat_tokens(ts, from, from + b);
            lemma_best_span_contains(ts, from, min(dict.max_word_len as int, ts.len() - from),
                dict.word_map@);
            lemma_concat_han(ts, from, from + b);
            assert(key.len() > 0 && ws_free(key));
            let u = crate::segment::hit_phrase(dict.word_map@[key], key);
            if normalize_phrase(dict.word_map@[key]).len() == 0 {
                lemma_ws_free_unit(key);
            } else {
                lemma_nonempty_phrase_nonempty_raw(dict.word_map@[key]);
                assert(has_non_space(dict.word_map@[key]));
                lemma_phrase_unit(dict.word_map@[key]);
            }
            lemma_segment_units(ts, from + b, dict);
            let whole = segment_tokens(ts, from, dict);
            assert(whole == seq![u] + segment_tokens(ts, from + b, dict));
            assert forall|k: int| 0 <= k < whole.len() implies emit_unit(
                #[trigger] whole[k]) by {
                if k == 0 {
                    assert(whole[0] == u);
                } else {
                    assert(whole[k] == segment_tokens(ts, from + b, dict)[k - 1]);
                }
            }
        } else {
            lemma_map_word_fallback_unit(ts[from], dict.char_map@);
            lemma_segment_units(ts, from + 1, dict);
            let u = map_word_fallback_spec(ts[from], dict.char_map@);
            let whole = segment_tokens(ts, from, dict);
            assert(whole == seq![u] + segment_tokens(ts, from + 1, dict));
            assert forall|k: int| 0 <= k < whole.len() implies emit_unit(
                #[trigger] whole[k]) by {
                if k == 0 {
                    assert(whole[0] == u);
                } else {
                    assert(whole[k] == segment_tokens(ts, from + 1, dict)[k - 1]);
                }
            }
        }
    }
}

/// When the greedy search reports a match, its span is a run of Han
/// tokens whose concatenation is a word key.
proof fn lemma_best_span_contains(
    ts: Seq<Seq<char>>,
    start: int,
    n: int,
    wm: Map<Seq<char>, Seq<char>>,
)
    requires
        best_span(ts, start, n, wm) >= 2,
    ensures
        wm.contains_key(concat_tokens(ts, start, start + best_span(ts, start, n, wm))),
        all_han(ts, start, start + best_span(ts, start, n, wm)),
    decreases n,
{
    if n >= 2 {
        if !(all_han(ts, start, start + n) && wm.contains_key(concat_tokens(ts, start, start
            + n))) {
            lemma_best_span_contains(ts, start, n - 1, wm);
        }
    }
}

/// Concatenating a run of Han tokens yields one whitespace-free character
/// per token.
proof fn lemma_concat_han(ts: Seq<Seq<char>>, from: int, to: int)
    requires
        0 <= from <= to,
        all_han(ts, from, to),
    ensures
        concat_tokens(ts, from, to).len() == to - from,
        ws_free(concat_tokens(ts, from, to)),
    decreases to - from,
{
    if from < to {
        assert(all_han(ts, from, to - 1));
        lemma_concat_han(ts, from, to - 1);
        let a = concat_tokens(ts, from, to - 1);
        let b = ts[to - 1];
        assert(is_han_token(b));
        assert(!is_space(b[0])) by {
            assert(is_han_char(b[0]));
        }
        let c = concat_tokens(ts, from, to);
        assert(c == a + b);
        assert forall|i: int| 0 <= i < c.len() implies !is_space(#[trigger] c[i]) by {
            if i < a.len() {
                assert(c[i] == a[i]);
            } else {
                assert(c[i] == b[i - a.len()]);
            }
        }
    }
}

/// The tokens the tokenizer produces are non-empty and whitespace-free.
proof fn lemma_tokens_of_props(s: Seq<char>, i: int)
    requires
        0 <= i <= s.len(),
    ensures
        forall|k: int| 0 <= k < tokens_of(s, i).len() ==> (#[trigger] tokens_of(s, i)[k].len()
            > 0 && ws_free(tokens_of(s, i)[k])),
    decreases s.len() - i,
{
    if i >= s.len() {
    } else if is_space(s[i]) {
        lemma_tokens_of_props(s, i + 1);
    } else if is_alnum(s[i]) {
        lemma_non_alnum_at_bounds(s, i);
        let e = non_alnum_at(s, i);
        let run = s.subrange(i, e);
        assert(ws_free(run)) by {
            assert(forall|k: int| 0 <= k < run.len() ==> #[trigger] run[k] == s[i + k]);
            assert forall|k: int| 0 <= k < run.len() implies !is_space(#[trigger] run[k]) by {
                assert(is_alnum(s[i + k]));
                assert(!is_space(s[i + k]));
            }
        }
        lemma_lower_seq_ws(run);
        lemma_tokens_of_props(s, e);
        let whole = tokens_of(s, i);
        assert(whole == seq![lower_seq(run)] + tokens_of(s, e));
        assert forall|k: int| 0 <= k < whole.len() implies (#[trigger] whole[k].len() > 0
            && ws_free(whole[k])) by {
            if k == 0 {
                assert(whole[0] == lower_seq(run));
            } else {
                assert(whole[k] == tokens_of(s, e)[k - 1]);
            }
        }
    } else {
        lemma_tokens_of_props(s, i + 1);
        let whole = tokens_of(s, i);
        assert(whole == seq![seq![s[i]]] + tokens_of(s, i + 1));
        assert forall|k: int| 0 <= k < whole.len() implies (#[trigger] whole[k].len() > 0
            && ws_free(whole[k])) by {
            if k == 0 {
                assert(whole[0] == seq![s[i]]);
                assert(ws_free(seq![s[i]]));
            } else {
                assert(whole[k] == tokens_of(s, i + 1)[k - 1]);
            }
        }
    }
}

/// Dropping empty tokens keeps the remaining ones non-empty and
/// whitespace-free.
proof fn lemma_non_empty_tokens_props(ts: Seq<Seq<char>>)
    requires
        forall|k: int| 0 <= k < ts.len() ==> ws_free(#[trigger] ts[k]),
    ensures
        forall|k: int| 0 <= k < non_empty_tokens(ts).len() ==> (#[trigger] non_empty_tokens(
            ts)[k].len() > 0 && ws_free(non_empty_tokens(ts)[k])),
    decreases ts.len(),
{
    if ts.len() > 0 {
        assert(forall|k: int| 0 <= k < ts.drop_first().len() ==> ws_free(
            #[trigger] ts.drop_first()[k]));
        lemma_non_empty_tokens_props(ts.drop_first());
        if ts[0].len() > 0 {
            let whole = non_empty_tokens(ts);
            assert(whole == seq![ts[0]] + non_empty_tokens(ts.drop_first()));
            assert forall|k: int| 0 <= k < whole.len() implies (#[trigger] whole[k].len() > 0
                && ws_free(whole[k])) by {
                if k == 0 {
                    assert(whole[0] == ts[0]);
                } else {
                    assert(whole[k] == non_empty_tokens(ts.drop_first())[k - 1]);
                }
            }
        }
    }
}

/// Output discipline at character level: for every input, when all
/// dictionary readings hold some non-whitespace character, the output has
/// no tab, newline or other exotic whitespace and no run of two or more
/// spaces; it is empty or a well-shaped phrase.
pub proof fn lemma_char_normalize_tame(s: Seq<char>, dict: DictionarySnapshot)
    requires
        readings_wf(dict.char_map@),
    ensures
        tame_output(char_normalize_spec(s, dict.char_map@)),
        char_normalize_spec(s, dict.char_map@).len() == 0 || emit_unit(char_normalize_spec(
            s, dict.char_map@)),
{
    let cm = dict.char_map@;
    let toks = tokens_of(plain_text(s, cm), 0);
    lemma_tokens_of_props(plain_text(s, cm), 0);
    let mapped = toks.map_values(|t: Seq<char>| map_token_spec(t, cm));
    assert forall|k: int| 0 <= k < mapped.len() implies emit_unit(#[trigger] mapped[k]) by {
        assert(mapped[k] == map_token_spec(toks[k], cm));
        lemma_map_token_unit(toks[k], cm);
    }
    if mapped.len() > 0 {
        lemma_join_space_units(mapped);
    }
    lemma_emit_unit_tame(join_space(mapped));
}

/// Output discipline at word level: the same shape guarantee for
/// word-mode normalization, when both dictionaries' readings hold some
/// non-whitespace character.
pub proof fn lemma_word_normalize_tame(s: Seq<char>, dict: DictionarySnapshot)
    requires
        readings_wf(dict.char_map@),
        readings_wf(dict.word_map@),
    ensures
        tame_output(crate::entry::word_normalize_spec(s, dict)),
        crate::entry::word_normalize_spec(s, dict).len() == 0 || emit_unit(
            crate::entry::word_normalize_spec(s, dict)),
{
    let cm = dict.char_map@;
    let toks = tokens_of(plain_text(s, cm), 0);
    lemma_tokens_of_props(plain_text(s, cm), 0);
    assert(forall|k: int| 0 <= k < toks.len() ==> ws_free(#[trigger] toks[k]));
    lemma_non_empty_tokens_props(toks);
    let kept = non_empty_tokens(toks);
    lemma_segment_units(kept, 0, dict);
    let phrases = segment_tokens(kept, 0, dict);
    if phrases.len() > 0 {
        lemma_join_space_units(phrases);
    }
    lemma_emit_unit_tame(join_space(phrases));
}

} // verus!
