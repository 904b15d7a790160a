//! What the full-text index is told of a text.

use crate::archive::lexicon::{segmented, token_views, Token, Words};
use crate::bytes::{text_of, utf8_text};
use crate::order::positions;
use vstd::prelude::*;

verus! {

/// What taking a text apart gave.
pub enum Segmented {
    /// The bytes are no text.
    NotText,
    /// The words.
    Tokens(Vec<Token>),
    /// The segmenter failed.
    Failed,
}

/// Takes bytes apart into words, if they are a text.
pub fn segment(w: &Words, bytes: Vec<u8>) -> (r: Segmented)
    ensures
        match utf8_text(bytes@) {
            None => r is NotText,
            Some(t) => match segmented(w@, t) {
                None => r is Failed,
                Some(v) => r matches Segmented::Tokens(found) && token_views(found@) == v,
            },
        },
{
    match text_of(bytes) {
        None => Segmented::NotText,
        Some(t) => match w.take_apart(t.as_str()) {
            Some(v) => Segmented::Tokens(v),
            None => Segmented::Failed,
        },
    }
}

/// The segmenter failed.
#[derive(Clone, Copy, PartialEq, Eq, Debug, Structural)]
pub struct SegmenterFailed;

/// Where the words that are not empty stand among the first `n`.
pub open spec fn spoken_at(v: Seq<Token>, n: int) -> Seq<int>
    decreases n,
{
    if n <= 0 {
        seq![]
    } else if v[n - 1].surface@.len() > 0 {
        spoken_at(v, n - 1).push(n - 1)
    } else {
        spoken_at(v, n - 1)
    }
}

/// Which words are put into the index: those that are not empty, in order. Bytes that are no text
/// hold none.
pub fn tokens_to_emit(s: &Segmented) -> (r: Result<Vec<usize>, SegmenterFailed>)
    ensures
        match *s {
            Segmented::NotText => r matches Ok(v) && v@.len() == 0,
            Segmented::Tokens(t) => r matches Ok(v) && positions(v@) == spoken_at(
                t@,
                t@.len() as int,
            ),
            Segmented::Failed => r is Err,
        },
{
    match s {
        Segmented::NotText => Ok(Vec::new()),
        Segmented::Failed => Err(SegmenterFailed),
        Segmented::Tokens(t) => {
            let mut out: Vec<usize> = Vec::new();
            let mut i: usize = 0;
            assert(positions(out@) =~= spoken_at(t@, 0));
            while i < t.len()
                invariant
                    i <= t@.len(),
                    positions(out@) == spoken_at(t@, i as int),
                decreases t@.len() - i,
            {
                if !t[i].surface.as_str().is_empty() {
                    let ghost before = out@;
                    out.push(i);
                    assert(positions(out@) =~= positions(before).push(i as int));
                }
                i += 1;
            }
            Ok(out)
        },
    }
}

/// Handed on are the words that have a character at all, in order.
pub proof fn words_handed_on_say_something(v: Seq<Token>, n: int, x: int)
    requires
        0 <= n,
    ensures
        spoken_at(v, n).contains(x) <==> 0 <= x < n && (v[x].surface@.len() > 0),
        forall|a: int, b: int|
            0 <= a < b < spoken_at(v, n).len() ==> #[trigger] spoken_at(v, n)[a]
                < #[trigger] spoken_at(v, n)[b],
        forall|a: int|
            0 <= a < spoken_at(v, n).len() ==> 0 <= #[trigger] spoken_at(v, n)[a] < n,
    decreases n,
{
    if n > 0 {
        words_handed_on_say_something(v, n - 1, x);
        let all = spoken_at(v, n);
        let front = spoken_at(v, n - 1);
        if all.len() > front.len() {
            assert(all[all.len() - 1] == n - 1);
            assert(all.drop_last() =~= front);
        }
        assert forall|a: int| 0 <= a < all.len() implies 0 <= #[trigger] all[a] < n by {
            if a < front.len() {
                assert(all[a] == front[a]);
            }
        }
        assert forall|a: int, b: int| 0 <= a < b < all.len() implies #[trigger] all[a]
            < #[trigger] all[b] by {
            assert(all[a] == front[a]);
            if b < front.len() {
                assert(all[b] == front[b]);
            }
        }
        if front.contains(x) {
            let k = choose|k: int| 0 <= k < front.len() && front[k] == x;
            assert(all[k] == x);
        }
        if all.contains(x) {
            let k = choose|k: int| 0 <= k < all.len() && all[k] == x;
            if k < front.len() {
                assert(front[k] == x);
            }
        }
    }
}

} // verus!
