//! The reading codec. A raw dictionary reading may encode several
//! alternative pronunciations separated by `'|'` (a polyphone); the first
//! non-empty alternative is the default. A word-level reading may hold
//! several whitespace-separated syllables, each encoded that way.

use vstd::prelude::*;

verus! {

use crate::text::{is_space, lower_seq, lower_char_exec, space_char};

/// The first position at or after `from` whose character is not `'|'`, or
/// the length if there is none.
pub open spec fn non_pipe_at(s: Seq<char>, from: int) -> int
    decreases s.len() - from
        when 0 <= from
{
    if from >= s.len() {
        s.len() as int
    } else if s[from] == '|' {
        non_pipe_at(s, from + 1)
    } else {
        from
    }
}

/// The first position at or after `from` whose character is `'|'`, or the
/// length if there is none.
pub open spec fn pipe_at(s: Seq<char>, from: int) -> int
    decreases s.len() - from
        when 0 <= from
{
    if from >= s.len() {
        s.len() as int
    } else if s[from] == '|' {
        from
    } else {
        pipe_at(s, from + 1)
    }
}

pub proof fn lemma_non_pipe_at_bounds(s: Seq<char>, from: int)
    requires
        0 <= from <= s.len(),
    ensures
        from <= non_pipe_at(s, from) <= s.len(),
        forall|k: int| from <= k < non_pipe_at(s, from) ==> s[k] == '|',
        non_pipe_at(s, from) < s.len() ==> s[non_pipe_at(s, from)] != '|',
    decreases s.len() - from,
{
    if from < s.len() && s[from] == '|' {
        lemma_non_pipe_at_bounds(s, from + 1);
    }
}

pub proof fn lemma_pipe_at_bounds(s: Seq<char>, from: int)
    requires
        0 <= from <= s.len(),
    ensures
        from <= pipe_at(s, from) <= s.len(),
        forall|k: int| from <= k < pipe_at(s, from) ==> s[k] != '|',
        pipe_at(s, from) < s.len() ==> s[pipe_at(s, from)] == '|',
    decreases s.len() - from,
{
    if from < s.len() && s[from] != '|' {
        lemma_pipe_at_bounds(s, from + 1);
    }
}

/// The default reading of a raw reading string: its first non-empty
/// pipe-delimited segment, lowercased; if every segment is empty, the whole
/// raw string lowercased.
pub open spec fn first_reading(raw: Seq<char>) -> Seq<char> {
    let i = non_pipe_at(raw, 0);
    if i == raw.len() {
        lower_seq(raw)
    } else {
        lower_seq(raw.subrange(i, pipe_at(raw, i)))
    }
}

/// The first position at or after `from` holding a whitespace character,
/// or the length if there is none.
pub open spec fn space_at(s: Seq<char>, from: int) -> int
    decreases s.len() - from
        when 0 <= from
{
    if from >= s.len() {
        s.len() as int
    } else if is_space(s[from]) {
        from
    } else {
        space_at(s, from + 1)
    }
}

pub proof fn lemma_space_at_bounds(s: Seq<char>, from: int)
    requires
        0 <= from <= s.len(),
    ensures
        from <= space_at(s, from) <= s.len(),
        forall|k: int| from <= k < space_at(s, from) ==> !is_space(s[k]),
        space_at(s, from) < s.len() ==> is_space(s[space_at(s, from)]),
    decreases s.len() - from,
{
    if from < s.len() && !is_space(s[from]) {
        lemma_space_at_bounds(s, from + 1);
    }
}

/// The syllables of a word-level reading: each maximal whitespace-free run
/// resolved through `first_reading`, empty results dropped.
pub open spec fn phrase_tokens(s: Seq<char>, from: int) -> Seq<Seq<char>>
    decreases s.len() - from
        when 0 <= from <= s.len()
        via phrase_tokens_decreases
{
    if from >= s.len() {
        Seq::empty()
    } else if is_space(s[from]) {
        phrase_tokens(s, from + 1)
    } else {
        let e = space_at(s, from);
        let t = first_reading(s.subrange(from, e));
        if t.len() > 0 {
            seq![t] + phrase_tokens(s, e)
        } else {
            phrase_tokens(s, e)
        }
    }
}

#[via_fn]
proof fn phrase_tokens_decreases(s: Seq<char>, from: int) {
    if 0 <= from < s.len() && !is_space(s[from]) {
        lemma_space_at_bounds(s, from);
    }
}

/// Phrases joined by single spaces, in order.
pub open spec fn join_space(parts: Seq<Seq<char>>) -> Seq<char>
    decreases parts.len(),
{
    if parts.len() == 0 {
        Seq::empty()
    } else if parts.len() == 1 {
        parts[0]
    } else {
        join_space(parts.drop_last()) + seq![' '] + parts.last()
    }
}

/// A word-level reading normalized to a canonical phrase: its syllables
/// resolved independently and joined with single spaces; if it has no
/// syllables at all, the default reading of the whole raw string.
pub open spec fn normalize_phrase(raw: Seq<char>) -> Seq<char> {
    let parts = phrase_tokens(raw, 0);
    if parts.len() == 0 {
        first_reading(raw)
    } else {
        join_space(parts)
    }
}

/// Lowercase the characters of `cs` between `from` and `to`.
pub fn lower_range(cs: &Vec<char>, from: usize, to: usize) -> (r: Vec<char>)
    requires
        from <= to <= cs@.len(),
    ensures
        r@ == lower_seq(cs@.subrange(from as int, to as int)),
{
    let mut r: Vec<char> = Vec::new();
    let mut i: usize = from;
    while i < to
        invariant
            from <= i <= to <= cs@.len(),
            r@ == lower_seq(cs@.subrange(from as int, i as int)),
        decreases to - i,
    {
        r.push(lower_char_exec(cs[i]));
        i = i + 1;
        proof {
            let sub = cs@.subrange(from as int, i as int);
            assert(sub.drop_last() =~= cs@.subrange(from as int, i - 1));
            assert(lower_seq(sub) =~= lower_seq(sub.drop_last()).push(
                crate::text::lower_char(sub.last())));
        }
    }
    proof {
        assert(r@ =~= lower_seq(cs@.subrange(from as int, to as int)));
    }
    r
}

/// The default reading of a raw reading, executable form.
pub fn first_reading_vec(raw: &Vec<char>) -> (r: Vec<char>)
    ensures
        r@ == first_reading(raw@),
{
    let n = raw.len();
    let mut i: usize = 0;
    while i < n && raw[i] == '|'
        invariant
            i <= n,
            n == raw@.len(),
            non_pipe_at(raw@, 0) == non_pipe_at(raw@, i as int),
        decreases n - i,
    {
        i = i + 1;
    }
    proof {
        assert(non_pipe_at(raw@, 0) == i);
    }
    if i == n {
        return lower_range(raw, 0, n);
    }
    let mut j: usize = i;
    while j < n && raw[j] != '|'
        invariant
            i <= j <= n,
            n == raw@.len(),
            pipe_at(raw@, i as int) == pipe_at(raw@, j as int),
        decreases n - j,
    {
        j = j + 1;
    }
    proof {
        assert(pipe_at(raw@, i as int) == j);
    }
    lower_range(raw, i, j)
}

/// A word-level reading normalized to a canonical phrase, executable form.
pub fn normalize_phrase_vec(raw: &Vec<char>) -> (r: Vec<char>)
    ensures
        r@ == normalize_phrase(raw@),
{
    let n = raw.len();
    let mut parts: Vec<Vec<char>> = Vec::new();
    let mut i: usize = 0;
    while i < n
        invariant
            i <= n,
            n == raw@.len(),
            parts@.map_values(|p: Vec<char>| p@) + phrase_tokens(raw@, i as int)
                == phrase_tokens(raw@, 0),
            forall|k: int| 0 <= k < parts@.len() ==> #[trigger] parts@[k]@.len() > 0,
        decreases n - i,
    {
        if space_char(raw[i]) {
            i = i + 1;
        } else {
            let mut j: usize = i;
            while j < n && !space_char(raw[j])
                invariant
                    i <= j <= n,
                    n == raw@.len(),
                    space_at(raw@, i as int) == space_at(raw@, j as int),
                decreases n - j,
            {
                j = j + 1;
            }
            proof {
                assert(space_at(raw@, i as int) == j);
            }
            let part = sub_vec(raw, i, j);
            let t = first_reading_vec(&part);
            let ghost old_parts = parts@;
            if t.len() > 0 {
                parts.push(t);
                proof {
                    assert(parts@.map_values(|p: Vec<char>| p@) =~= old_parts.map_values(
                        |p: Vec<char>| p@).push(first_reading(raw@.subrange(i as int, j as int))));
                }
            }
            i = j;
        }
    }
    proof {
        assert(phrase_tokens(raw@, n as int) =~= Seq::<Seq<char>>::empty());
        assert(parts@.map_values(|p: Vec<char>| p@) + phrase_tokens(raw@, n as int)
            =~= parts@.map_values(|p: Vec<char>| p@));
        assert(parts@.map_values(|p: Vec<char>| p@) == phrase_tokens(raw@, 0));
    }
    if parts.len() == 0 {
        first_reading_vec(raw)
    } else {
        join_space_vec(&parts)
    }
}

/// Copy of a character range.
pub fn sub_vec(cs: &Vec<char>, from: usize, to: usize) -> (r: Vec<char>)
    requires
        from <= to <= cs@.len(),
    ensures
        r@ == cs@.subrange(from as int, to as int),
{
    let mut r: Vec<char> = Vec::new();
    let mut i: usize = from;
    while i < to
        invariant
            from <= i <= to <= cs@.len(),
            r@ == cs@.subrange(from as int, i as int),
        decreases to - i,
    {
        r.push(cs[i]);
        i = i + 1;
        proof {
            assert(r@ =~= cs@.subrange(from as int, i as int));
        }
    }
    r
}

/// Join phrases with single spaces, executable form.
pub fn join_space_vec(parts: &Vec<Vec<char>>) -> (r: Vec<char>)
    ensures
        r@ == join_space(parts@.map_values(|p: Vec<char>| p@)),
{
    let ghost ps = parts@.map_values(|p: Vec<char>| p@);
    let mut r: Vec<char> = Vec::new();
    let mut i: usize = 0;
    while i < parts.len()
        invariant
            i <= parts@.len(),
            ps == parts@.map_values(|p: Vec<char>| p@),
            r@ == join_space(ps.take(i as int)),
        decreases parts@.len() - i,
    {
        if i > 0 {
            r.push(' ');
        }
        let mut k: usize = 0;
        let ghost mid = r@;
        while k < parts[i].len()
            invariant
                0 <= i < parts@.len(),
                ps == parts@.map_values(|p: Vec<char>| p@),
                k <= parts@[i as int]@.len(),
                r@ == mid + parts@[i as int]@.subrange(0, k as int),
            decreases parts@[i as int]@.len() - k,
        {
            r.push(parts[i][k]);
            k = k + 1;
            proof {
                assert(r@ =~= mid + parts@[i as int]@.subrange(0, k as int));
            }
        }
        i = i + 1;
        proof {
            let t = ps.take(i as int);
            assert(t.drop_last() =~= ps.take(i - 1));
            assert(t.last() == ps[i - 1]);
            assert(parts@[i - 1]@.subrange(0, parts@[i - 1]@.len() as int) =~= ps[i - 1]);
            if i == 1 {
                assert(r@ =~= join_space(t));
            } else {
                assert(r@ =~= join_space(t.drop_last()) + seq![' '] + t.last());
            }
        }
    }
    proof {
        assert(ps.take(parts@.len() as int) =~= ps);
    }
    r
}

} // verus!
