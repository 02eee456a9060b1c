//! The text splitter: partitions input into maximal classified runs. ASCII
//! alphanumeric characters accumulate into runs; every whitespace code
//! point and every other code point stands alone as its own piece.

use vstd::prelude::*;

verus! {

use crate::text::{is_alnum, is_space, alnum_char, space_char};
use crate::codec::sub_vec;

#[derive(Clone, Copy, PartialEq, Eq, Structural)]
pub enum PieceKind {
    AsciiRun,
    Space,
    Other,
}

/// A maximal classified run of input characters.
pub struct Piece {
    pub value: Vec<char>,
    pub kind: PieceKind,
}

impl View for Piece {
    type V = (Seq<char>, PieceKind);

    open spec fn view(&self) -> (Seq<char>, PieceKind) {
        (self.value@, self.kind)
    }
}

/// The sequence of piece views of a piece vector.
pub open spec fn pieces_view(ps: Seq<Piece>) -> Seq<(Seq<char>, PieceKind)> {
    ps.map_values(|p: Piece| p@)
}

/// The first position at or after `from` whose character is not ASCII
/// alphanumeric, or the length if there is none.
pub open spec fn non_alnum_at(s: Seq<char>, from: int) -> int
    decreases s.len() - from
        when 0 <= from
{
    if from >= s.len() {
        s.len() as int
    } else if is_alnum(s[from]) {
        non_alnum_at(s, from + 1)
    } else {
        from
    }
}

pub proof fn lemma_non_alnum_at_bounds(s: Seq<char>, from: int)
    requires
        0 <= from <= s.len(),
    ensures
        from <= non_alnum_at(s, from) <= s.len(),
        forall|k: int| from <= k < non_alnum_at(s, from) ==> is_alnum(s[k]),
        non_alnum_at(s, from) < s.len() ==> !is_alnum(s[non_alnum_at(s, from)]),
    decreases s.len() - from,
{
    if from < s.len() && is_alnum(s[from]) {
        lemma_non_alnum_at_bounds(s, from + 1);
    }
}

/// The pieces of the input from position `from` on: a maximal ASCII
/// alphanumeric run, or one whitespace character, or one other character.
pub open spec fn split_pieces(s: Seq<char>, from: int) -> Seq<(Seq<char>, PieceKind)>
    decreases s.len() - from
        when 0 <= from <= s.len()
        via split_pieces_decreases
{
    if from >= s.len() {
        Seq::empty()
    } else if is_alnum(s[from]) {
        let e = non_alnum_at(s, from);
        seq![(s.subrange(from, e), PieceKind::AsciiRun)] + split_pieces(s, e)
    } else if is_space(s[from]) {
        seq![(seq![s[from]], PieceKind::Space)] + split_pieces(s, from + 1)
    } else {
        seq![(seq![s[from]], PieceKind::Other)] + split_pieces(s, from + 1)
    }
}

#[via_fn]
proof fn split_pieces_decreases(s: Seq<char>, from: int) {
    if 0 <= from < s.len() && is_alnum(s[from]) {
        lemma_non_alnum_at_bounds(s, from);
    }
}

/// Scan the input into its ordered pieces.
pub fn split_input(origin: &Vec<char>) -> (r: Vec<Piece>)
    ensures
        pieces_view(r@) == split_pieces(origin@, 0),
{
    let n = origin.len();
    let mut r: Vec<Piece> = Vec::new();
    let mut i: usize = 0;
    while i < n
        invariant
            i <= n,
            n == origin@.len(),
            pieces_view(r@) + split_pieces(origin@, i as int) == split_pieces(origin@, 0),
        decreases n - i,
    {
        let ghost before = pieces_view(r@);
        let ghost i0 = i as int;
        if alnum_char(origin[i]) {
            let mut j: usize = i;
            while j < n && alnum_char(origin[j])
                invariant
                    i <= j <= n,
                    n == origin@.len(),
                    non_alnum_at(origin@, i as int) == non_alnum_at(origin@, j as int),
                decreases n - j,
            {
                j = j + 1;
            }
            proof {
                assert(non_alnum_at(origin@, i as int) == j);
            }
            let value = sub_vec(origin, i, j);
            r.push(Piece { value, kind: PieceKind::AsciiRun });
            proof {
                assert(pieces_view(r@) =~= before.push(
                    (origin@.subrange(i as int, j as int), PieceKind::AsciiRun)));
            }
            i = j;
            proof {
                assert(pieces_view(r@) + split_pieces(origin@, i as int) =~= before
                    + split_pieces(origin@, i0));
            }
        } else if space_char(origin[i]) {
            let value = sub_vec(origin, i, i + 1);
            proof {
                assert(value@ =~= seq![origin@[i as int]]);
            }
            r.push(Piece { value, kind: PieceKind::Space });
            proof {
                assert(pieces_view(r@) =~= before.push(
                    (seq![origin@[i as int]], PieceKind::Space)));
            }
            i = i + 1;
            proof {
                assert(pieces_view(r@) + split_pieces(origin@, i as int) =~= before
                    + split_pieces(origin@, i0));
            }
        } else {
            let value = sub_vec(origin, i, i + 1);
            proof {
                assert(value@ =~= seq![origin@[i as int]]);
            }
            r.push(Piece { value, kind: PieceKind::Other });
            proof {
                assert(pieces_view(r@) =~= before.push(
                    (seq![origin@[i as int]], PieceKind::Other)));
            }
            i = i + 1;
            proof {
                assert(pieces_view(r@) + split_pieces(origin@, i as int) =~= before
                    + split_pieces(origin@, i0));
            }
        }
    }
    proof {
        assert(pieces_view(r@) + split_pieces(origin@, n as int) =~= pieces_view(r@));
    }
    r
}

} // verus!
