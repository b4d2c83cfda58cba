use vstd::prelude::*;
use crate::general::grid::grid_view;
use crate::general::text::{chars_of, split_words, string_of, words};

verus! {

/// The index of the first `.` of `t` from `from` on, or the length of `t`
/// where there is none.
pub open spec fn first_dot(t: Seq<char>, from: int) -> int
    decreases t.len() - from,
{
    if 0 <= from < t.len() && t[from] != '.' {
        first_dot(t, from + 1)
    } else {
        from
    }
}

/// The notation in a token: what follows the first `.`, where text stands
/// on both sides of it; else the token as it is.
pub open spec fn move_token(t: Seq<char>) -> Seq<char> {
    let i = first_dot(t, 0);
    if 0 < i < t.len() - 1 {
        t.skip(i + 1)
    } else {
        t
    }
}

/// The notations in a line of moves: a token for each word.
pub open spec fn pgn_tokens(text: Seq<char>) -> Seq<Seq<char>> {
    Seq::new(words(text).len(), |i: int| move_token(words(text)[i]))
}

/// The views of the strings of `v`.
pub open spec fn texts(v: Vec<String>) -> Seq<Seq<char>> {
    Seq::new(v.len() as nat, |i: int| v[i]@)
}

/// Splits a line of moves at white space and takes the move number, if
/// there is one, off each token.
pub fn parse_pgn(pgn: &str) -> (r: Vec<String>)
    ensures
        texts(r) == pgn_tokens(pgn@),
{
    let text = chars_of(pgn);
    let tokens = split_words(&text);
    let ghost w = words(text@);
    let mut r: Vec<String> = Vec::new();
    let mut k: usize = 0;
    while k < tokens.len()
        invariant
            k <= tokens.len(),
            w == grid_view(tokens),
            r.len() == k,
            forall|i: int| 0 <= i < k ==> (#[trigger] r[i])@ == move_token(w[i]),
        decreases tokens.len() - k,
    {
        let token = &tokens[k];
        assert(w[k as int] == token@);
        let mut dot: usize = 0;
        while dot < token.len() && token[dot] != '.'
            invariant
                dot <= token.len(),
                first_dot(token@, 0) == first_dot(token@, dot as int),
            decreases token.len() - dot,
        {
            dot += 1;
        }
        let s = if dot > 0 && token.len() > 0 && dot < token.len() - 1 {
            assert(token@.subrange(dot + 1, token.len() as int) =~= token@.skip(dot + 1));
            string_of(token, dot + 1, token.len())
        } else {
            assert(token@.subrange(0, token.len() as int) =~= token@);
            string_of(token, 0, token.len())
        };
        r.push(s);
        k += 1;
    }
    assert(texts(r) =~= pgn_tokens(pgn@));
    r
}

} // verus!
