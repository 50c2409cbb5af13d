//! Separator normalization and whitespace tokenization: commas and
//! slashes become spaces, and the result is split on runs of
//! whitespace into non-empty tokens.

use vstd::prelude::*;
use vstd::slice::slice_index_get;
use crate::chars::{norm_char, is_sep, is_space, ex_is_space};

verus! {

/// The input with every comma and slash replaced by one space.
pub open spec fn norm_seq(s: Seq<char>) -> Seq<char> {
    s.map_values(|c: char| norm_char(c))
}

/// The tokens of `s`, accumulated left to right: `cur` is the part of
/// the current token read so far; whitespace closes it.
pub open spec fn toks(s: Seq<char>, cur: Seq<char>) -> Seq<Seq<char>>
    decreases s.len(),
{
    if s.len() == 0 {
        if cur.len() == 0 {
            Seq::empty()
        } else {
            seq![cur]
        }
    } else if is_space(s[0]) {
        if cur.len() == 0 {
            toks(s.drop_first(), Seq::empty())
        } else {
            seq![cur] + toks(s.drop_first(), Seq::empty())
        }
    } else {
        toks(s.drop_first(), cur.push(s[0]))
    }
}

/// The whitespace-separated tokens of `s`.
pub open spec fn tokens_of(s: Seq<char>) -> Seq<Seq<char>> {
    toks(s, Seq::empty())
}

/// The views of a sequence of character vectors.
pub open spec fn views_of(v: Seq<Vec<char>>) -> Seq<Seq<char>> {
    v.map_values(|x: Vec<char>| x@)
}

/// Replaces every comma and slash with a space.
pub fn normalize(t: &[char]) -> (r: Vec<char>)
    ensures
        r@ == norm_seq(t@),
{
    let mut r: Vec<char> = Vec::new();
    let mut i: usize = 0;
    while i < t.len()
        invariant
            0 <= i <= t@.len(),
            r@.len() == i,
            forall|k: int| 0 <= k < i ==> #[trigger] r@[k] == norm_char(t@[k]),
        decreases t@.len() - i,
    {
        let c = *slice_index_get(t, i);
        if c == ',' || c == '/' {
            r.push(' ');
        } else {
            proof {
                assert(!is_sep(t@[i as int]));
            }
            r.push(c);
        }
        i += 1;
    }
    proof {
        assert(r@ =~= norm_seq(t@));
    }
    r
}

/// Splits on runs of whitespace, discarding empty tokens.
pub fn tokenize(t: &[char]) -> (r: Vec<Vec<char>>)
    ensures
        views_of(r@) == tokens_of(t@),
{
    let mut out: Vec<Vec<char>> = Vec::new();
    let mut cur: Vec<char> = Vec::new();
    let mut i: usize = 0;
    proof {
        assert(t@.skip(0) =~= t@);
        assert(views_of(out@) =~= Seq::<Seq<char>>::empty());
        assert(views_of(out@) + toks(t@, cur@) =~= toks(t@, cur@));
    }
    while i < t.len()
        invariant
            0 <= i <= t@.len(),
            tokens_of(t@) == views_of(out@) + toks(t@.skip(i as int), cur@),
        decreases t@.len() - i,
    {
        let ghost rest = t@.skip(i as int);
        proof {
            assert(rest.len() == t@.len() - i);
            assert(rest[0] == t@[i as int]);
            assert(rest.drop_first() =~= t@.skip(i as int + 1));
        }
        let c = *slice_index_get(t, i);
        if ex_is_space(c) {
            if cur.len() > 0 {
                proof {
                    assert(toks(rest, cur@) == seq![cur@] + toks(rest.drop_first(), Seq::empty()));
                    assert(views_of(out@.push(cur)) =~= views_of(out@) + seq![cur@]);
                    assert((views_of(out@) + seq![cur@]) + toks(rest.drop_first(), Seq::empty())
                        =~= views_of(out@) + (seq![cur@] + toks(rest.drop_first(), Seq::empty())));
                }
                out.push(cur);
                cur = Vec::new();
            } else {
                proof {
                    assert(cur@ =~= Seq::<char>::empty());
                    assert(toks(rest, cur@) == toks(rest.drop_first(), Seq::empty()));
                }
            }
        } else {
            proof {
                assert(toks(rest, cur@) == toks(rest.drop_first(), cur@.push(t@[i as int])));
            }
            cur.push(c);
        }
        i += 1;
    }
    proof {
        assert(t@.skip(i as int) =~= Seq::<char>::empty());
    }
    if cur.len() > 0 {
        proof {
            assert(toks(Seq::<char>::empty(), cur@) =~= seq![cur@]);
            assert(views_of(out@.push(cur)) =~= views_of(out@) + seq![cur@]);
        }
        out.push(cur);
    } else {
        proof {
            assert(toks(Seq::<char>::empty(), cur@) =~= Seq::<Seq<char>>::empty());
            assert(views_of(out@) + Seq::<Seq<char>>::empty() =~= views_of(out@));
        }
    }
    out
}

} // verus!
