//! Plain-text normalization and re-tokenization. The normalizer lowercases
//! ASCII runs, keeps characters known to the dictionary, and collapses
//! every other separator — whitespace or unknown symbol — to at most one
//! space, with no leading or trailing separator. The tokenizer then cuts
//! the normalized text into atomic tokens: lowercased ASCII runs and single
//! non-ASCII characters.

use vstd::prelude::*;

verus! {

use crate::text::{is_alnum, is_space, lower_seq, alnum_char, space_char, lower_char_exec};
use crate::splitter::{PieceKind, split_pieces, split_input, pieces_view, non_alnum_at,
    lemma_non_alnum_at_bounds};
use crate::dict::DictionarySnapshot;
use crate::codec::sub_vec;

/// What the normalizer emits for a piece list, given the set of characters
/// the dictionary knows. `last_space` tells whether the previously emitted
/// character was already a separator (true initially, so that no leading
/// separator is emitted).
pub open spec fn plain_pieces(
    ps: Seq<(Seq<char>, PieceKind)>,
    last_space: bool,
    cm: Map<Seq<char>, Seq<char>>,
) -> Seq<char>
    decreases ps.len(),
{
    if ps.len() == 0 {
        Seq::empty()
    } else {
        let p = ps[0];
        match p.1 {
            PieceKind::AsciiRun => lower_seq(p.0) + plain_pieces(ps.drop_first(), false, cm),
            PieceKind::Space => if last_space {
                plain_pieces(ps.drop_first(), true, cm)
            } else {
                seq![' '] + plain_pieces(ps.drop_first(), true, cm)
            },
            PieceKind::Other => if cm.contains_key(p.0) {
                p.0 + plain_pieces(ps.drop_first(), false, cm)
            } else if last_space {
                plain_pieces(ps.drop_first(), true, cm)
            } else {
                seq![' '] + plain_pieces(ps.drop_first(), true, cm)
            },
        }
    }
}

/// A possible single trailing space removed.
pub open spec fn trim_trailing_space(s: Seq<char>) -> Seq<char> {
    if s.len() > 0 && s.last() == ' ' {
        s.drop_last()
    } else {
        s
    }
}

/// The canonical plain form of an input: split into pieces, ASCII
/// lowercased, dictionary-known characters kept, all other separators
/// collapsed, and the trailing separator trimmed.
pub open spec fn plain_text(s: Seq<char>, cm: Map<Seq<char>, Seq<char>>) -> Seq<char> {
    trim_trailing_space(plain_pieces(split_pieces(s, 0), true, cm))
}

/// Normalize an input against the snapshot's character dictionary.
pub fn normalize_plain_text(origin: &Vec<char>, dict: &DictionarySnapshot) -> (r: Vec<char>)
    requires
        dict.wf(),
    ensures
        r@ == plain_text(origin@, dict.char_map@),
{
    let ghost cm = dict.char_map@;
    let ghost all = split_pieces(origin@, 0);
    let pieces = split_input(origin);
    let mut out: Vec<char> = Vec::new();
    let mut last_space = true;
    let mut i: usize = 0;
    proof {
        assert(all.skip(0) =~= all);
        assert(out@ + plain_pieces(all, true, cm) =~= plain_pieces(all, true, cm));
    }
    while i < pieces.len()
        invariant
            dict.wf(),
            cm == dict.char_map@,
            all == pieces_view(pieces@),
            i <= pieces@.len(),
            out@ + plain_pieces(all.skip(i as int), last_space, cm) == plain_pieces(all, true, cm),
        decreases pieces@.len() - i,
    {
        let ghost rest = all.skip(i as int);
        let ghost before = out@;
        proof {
            assert(rest[0] == pieces@[i as int]@);
            assert(rest.drop_first() =~= all.skip(i + 1));
        }
        match pieces[i].kind {
            PieceKind::AsciiRun => {
                let piece = &pieces[i];
                let mut k: usize = 0;
                while k < piece.value.len()
                    invariant
                        k <= piece.value@.len(),
                        out@ == before + lower_seq(piece.value@.subrange(0, k as int)),
                    decreases piece.value@.len() - k,
                {
                    out.push(lower_char_exec(piece.value[k]));
                    k = k + 1;
                    proof {
                        let sub = piece.value@.subrange(0, k as int);
                        assert(sub.drop_last() =~= piece.value@.subrange(0, k - 1));
                        assert(lower_seq(sub) =~= lower_seq(sub.drop_last()).push(
                            crate::text::lower_char(sub.last())));
                        assert(out@ =~= before + lower_seq(sub));
                    }
                }
                proof {
                    assert(piece.value@.subrange(0, piece.value@.len() as int) =~= piece.value@);
                    assert(out@ + plain_pieces(all.skip(i + 1), false, cm) =~= before + (
                        lower_seq(rest[0].0) + plain_pieces(rest.drop_first(), false, cm)));
                }
                last_space = false;
            },
            PieceKind::Space => {
                if !last_space {
                    out.push(' ');
                    proof {
                        assert(out@ + plain_pieces(all.skip(i + 1), true, cm) =~= before + (
                            seq![' '] + plain_pieces(rest.drop_first(), true, cm)));
                    }
                    last_space = true;
                } else {
                    proof {
                        assert(out@ + plain_pieces(all.skip(i + 1), true, cm) =~= before
                            + plain_pieces(rest.drop_first(), true, cm));
                    }
                }
            },
            PieceKind::Other => {
                if dict.char_map.contains_key(&pieces[i].value) {
                    let piece = &pieces[i];
                    let mut k: usize = 0;
                    while k < piece.value.len()
                        invariant
                            k <= piece.value@.len(),
                            out@ == before + piece.value@.subrange(0, k as int),
                        decreases piece.value@.len() - k,
                    {
                        out.push(piece.value[k]);
                        k = k + 1;
                        proof {
                            assert(out@ =~= before + piece.value@.subrange(0, k as int));
                        }
                    }
                    proof {
                        assert(piece.value@.subrange(0, piece.value@.len() as int)
                            =~= piece.value@);
                        assert(out@ + plain_pieces(all.skip(i + 1), false, cm) =~= before + (
                            rest[0].0 + plain_pieces(rest.drop_first(), false, cm)));
                    }
                    last_space = false;
                } else if !last_space {
                    out.push(' ');
                    proof {
                        assert(out@ + plain_pieces(all.skip(i + 1), true, cm) =~= before + (
                            seq![' '] + plain_pieces(rest.drop_first(), true, cm)));
                    }
                    last_space = true;
                } else {
                    proof {
                        assert(out@ + plain_pieces(all.skip(i + 1), true, cm) =~= before
                            + plain_pieces(rest.drop_first(), true, cm));
                    }
                }
            },
        }
        i = i + 1;
    }
    proof {
        assert(all.skip(pieces@.len() as int) =~= Seq::<(Seq<char>, PieceKind)>::empty());
        assert(out@ + plain_pieces(all.skip(pieces@.len() as int), last_space, cm) =~= out@);
    }
    if out.len() > 0 {
        let last_idx = out.len() - 1;
        if out[last_idx] == ' ' {
            let trimmed = sub_vec(&out, 0, last_idx);
            proof {
                assert(trimmed@ =~= out@.drop_last());
            }
            return trimmed;
        }
    }
    out
}

/// The atomic tokens of a normalized text, from position `from` on:
/// whitespace is dropped, a maximal ASCII alphanumeric run becomes one
/// lowercased token, and every other character becomes a token by itself.
pub open spec fn tokens_of(s: Seq<char>, from: int) -> Seq<Seq<char>>
    decreases s.len() - from
        when 0 <= from <= s.len()
        via tokens_of_decreases
{
    if from >= s.len() {
        Seq::empty()
    } else if is_space(s[from]) {
        tokens_of(s, from + 1)
    } else if is_alnum(s[from]) {
        let e = non_alnum_at(s, from);
        seq![lower_seq(s.subrange(from, e))] + tokens_of(s, e)
    } else {
        seq![seq![s[from]]] + tokens_of(s, from + 1)
    }
}

#[via_fn]
proof fn tokens_of_decreases(s: Seq<char>, from: int) {
    if 0 <= from < s.len() && !is_space(s[from]) && is_alnum(s[from]) {
        lemma_non_alnum_at_bounds(s, from);
    }
}

/// Cut a normalized text into its atomic tokens.
pub fn tokenize_plain(normalized: &Vec<char>) -> (r: Vec<Vec<char>>)
    ensures
        r@.map_values(|t: Vec<char>| t@) == tokens_of(normalized@, 0),
{
    let n = normalized.len();
    let mut r: Vec<Vec<char>> = Vec::new();
    let mut i: usize = 0;
    proof {
        assert(r@.map_values(|t: Vec<char>| t@) + tokens_of(normalized@, 0) =~= tokens_of(
            normalized@, 0));
    }
    while i < n
        invariant
            i <= n,
            n == normalized@.len(),
            r@.map_values(|t: Vec<char>| t@) + tokens_of(normalized@, i as int) == tokens_of(
                normalized@, 0),
        decreases n - i,
    {
        let ghost before = r@.map_values(|t: Vec<char>| t@);
        let ghost i0 = i as int;
        if space_char(normalized[i]) {
            i = i + 1;
        } else if alnum_char(normalized[i]) {
            let mut j: usize = i;
            while j < n && alnum_char(normalized[j])
                invariant
                    i <= j <= n,
                    n == normalized@.len(),
                    non_alnum_at(normalized@, i as int) == non_alnum_at(normalized@, j as int),
                decreases n - j,
            {
                j = j + 1;
            }
            proof {
                assert(non_alnum_at(normalized@, i as int) == j);
            }
            let mut token: Vec<char> = Vec::new();
            let mut k: usize = i;
            while k < j
                invariant
                    i <= k <= j <= normalized@.len(),
                    token@ == lower_seq(normalized@.subrange(i as int, k as int)),
                decreases j - k,
            {
                token.push(lower_char_exec(normalized[k]));
                k = k + 1;
                proof {
                    let sub = normalized@.subrange(i as int, k as int);
                    assert(sub.drop_last() =~= normalized@.subrange(i as int, k - 1));
                    assert(lower_seq(sub) =~= lower_seq(sub.drop_last()).push(
                        crate::text::lower_char(sub.last())));
                }
            }
            r.push(token);
            i = j;
            proof {
                assert(r@.map_values(|t: Vec<char>| t@) =~= before.push(
                    lower_seq(normalized@.subrange(i0, j as int))));
                assert(r@.map_values(|t: Vec<char>| t@) + tokens_of(normalized@, i as int)
                    =~= before + tokens_of(normalized@, i0));
            }
        } else {
            let token = sub_vec(normalized, i, i + 1);
            proof {
                assert(token@ =~= seq![normalized@[i as int]]);
            }
            r.push(token);
            i = i + 1;
            proof {
                assert(r@.map_values(|t: Vec<char>| t@) =~= before.push(
                    seq![normalized@[i0]]));
                assert(r@.map_values(|t: Vec<char>| t@) + tokens_of(normalized@, i as int)
                    =~= before + tokens_of(normalized@, i0));
            }
        }
    }
    proof {
        assert(r@.map_values(|t: Vec<char>| t@) + tokens_of(normalized@, n as int)
            =~= r@.map_values(|t: Vec<char>| t@));
    }
    r
}

} // verus!
