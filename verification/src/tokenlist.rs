//! Normalization of caller-supplied token lists: each token is trimmed of
//! surrounding whitespace, empty tokens are dropped, and a token made
//! entirely of ASCII alphanumerics is lowercased while any other token
//! passes through unchanged.

use vstd::prelude::*;

verus! {

use crate::text::{is_space, lower_seq, space_char, chars_vec};
use crate::codec::{sub_vec, lower_range};
use crate::segment::{all_alnum, all_alnum_vec};

/// The first position at or after `from` holding a non-whitespace
/// character, or the length if there is none.
pub open spec fn non_space_at(s: Seq<char>, from: int) -> int
    decreases s.len() - from
        when 0 <= from
{
    if from >= s.len() {
        s.len() as int
    } else if is_space(s[from]) {
        non_space_at(s, from + 1)
    } else {
        from
    }
}

/// The position just after the last non-whitespace character strictly
/// before `upto`, or 0 if there is none.
pub open spec fn non_space_end(s: Seq<char>, upto: int) -> int
    decreases upto
        when upto <= s.len()
{
    if upto <= 0 {
        0
    } else if is_space(s[upto - 1]) {
        non_space_end(s, upto - 1)
    } else {
        upto
    }
}

/// The token with surrounding whitespace removed.
pub open spec fn trim_spec(s: Seq<char>) -> Seq<char> {
    let i = non_space_at(s, 0);
    if i == s.len() {
        Seq::empty()
    } else {
        s.subrange(i, non_space_end(s, s.len() as int))
    }
}

/// One caller-supplied token normalized: trimmed, and lowercased when it is
/// entirely ASCII alphanumeric.
pub open spec fn norm_one_token(t: Seq<char>) -> Seq<char> {
    let u = trim_spec(t);
    if all_alnum(u) {
        lower_seq(u)
    } else {
        u
    }
}

/// A caller-supplied token list normalized: every token trimmed, tokens
/// that were only whitespace dropped, the rest normalized in order.
pub open spec fn token_list_norm(ts: Seq<Seq<char>>) -> Seq<Seq<char>>
    decreases ts.len(),
{
    if ts.len() == 0 {
        Seq::empty()
    } else if trim_spec(ts[0]).len() > 0 {
        seq![norm_one_token(ts[0])] + token_list_norm(ts.drop_first())
    } else {
        token_list_norm(ts.drop_first())
    }
}

/// Trim surrounding whitespace, executable form.
pub fn trim_vec(cs: &Vec<char>) -> (r: Vec<char>)
    ensures
        r@ == trim_spec(cs@),
{
    let n = cs.len();
    let mut i: usize = 0;
    while i < n && space_char(cs[i])
        invariant
            i <= n,
            n == cs@.len(),
            non_space_at(cs@, 0) == non_space_at(cs@, i as int),
        decreases n - i,
    {
        i = i + 1;
    }
    proof {
        assert(non_space_at(cs@, 0) == i);
    }
    if i == n {
        return Vec::new();
    }
    let mut e: usize = n;
    while e > i && space_char(cs[e - 1])
        invariant
            i < n,
            !is_space(cs@[i as int]),
            i < e <= n,
            n == cs@.len(),
            non_space_end(cs@, n as int) == non_space_end(cs@, e as int),
        decreases e,
    {
        e = e - 1;
    }
    proof {
        assert(non_space_end(cs@, e as int) == e);
    }
    sub_vec(cs, i, e)
}

/// Normalize a caller-supplied token list.
pub fn normalize_token_list(tokens: &Vec<String>) -> (r: Vec<Vec<char>>)
    ensures
        r@.map_values(|t: Vec<char>| t@) == token_list_norm(tokens@.map_values(
            |s: String| s@)),
{
    let ghost all = tokens@.map_values(|s: String| s@);
    let mut r: Vec<Vec<char>> = Vec::new();
    let mut i: usize = 0;
    proof {
        assert(all.skip(0) =~= all);
        assert(r@.map_values(|t: Vec<char>| t@) + token_list_norm(all) =~= token_list_norm(
            all));
    }
    while i < tokens.len()
        invariant
            i <= tokens@.len(),
            all == tokens@.map_values(|s: String| s@),
            r@.map_values(|t: Vec<char>| t@) + token_list_norm(all.skip(i as int))
                == token_list_norm(all),
        decreases tokens@.len() - i,
    {
        let ghost before = r@.map_values(|t: Vec<char>| t@);
        let ghost rest = all.skip(i as int);
        proof {
            assert(rest[0] == all[i as int]);
            assert(rest[0] == tokens@[i as int]@);
            assert(rest.drop_first() =~= all.skip(i + 1));
        }
        let cs = chars_vec(tokens[i].as_str());
        let trimmed = trim_vec(&cs);
        if trimmed.len() > 0 {
            let normed = if all_alnum_vec(&trimmed) {
                lower_range(&trimmed, 0, trimmed.len())
            } else {
                trimmed
            };
            proof {
                assert(trim_spec(rest[0]).subrange(0, trim_spec(rest[0]).len() as int)
                    =~= trim_spec(rest[0]));
                assert(normed@ == norm_one_token(rest[0]));
            }
            r.push(normed);
            proof {
                assert(r@.map_values(|t: Vec<char>| t@) =~= before.push(norm_one_token(
                    rest[0])));
                assert(r@.map_values(|t: Vec<char>| t@) + token_list_norm(all.skip(i + 1))
                    =~= before + (seq![norm_one_token(rest[0])] + token_list_norm(
                    rest.drop_first())));
            }
        } else {
            proof {
                assert(r@.map_values(|t: Vec<char>| t@) + token_list_norm(all.skip(i + 1))
                    =~= before + token_list_norm(rest.drop_first()));
            }
        }
        i = i + 1;
    }
    proof {
        assert(all.skip(tokens@.len() as int) =~= Seq::<Seq<char>>::empty());
        assert(r@.map_values(|t: Vec<char>| t@) + token_list_norm(all.skip(
            tokens@.len() as int)) =~= r@.map_values(|t: Vec<char>| t@));
    }
    r
}

} // verus!
