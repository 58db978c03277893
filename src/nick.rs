use vstd::prelude::*;
use crate::text::chars_of;

verus! {

/// Levenshtein distance: the least number of single-character insertions,
/// deletions and substitutions that turn `a` into `b`.
pub open spec fn lev(a: Seq<char>, b: Seq<char>) -> nat
    decreases a.len() + b.len(),
{
    if a.len() == 0 {
        b.len()
    } else if b.len() == 0 {
        a.len()
    } else {
        let del = lev(a.drop_last(), b) + 1;
        let ins = lev(a, b.drop_last()) + 1;
        let sub = lev(a.drop_last(), b.drop_last()) + if a.last() == b.last() {
            0nat
        } else {
            1nat
        };
        if del <= ins && del <= sub {
            del
        } else if ins <= sub {
            ins
        } else {
            sub
        }
    }
}

/// Whether `word` may stand for `nick`: equal, or both at least four
/// characters long and within a third of the nickname's length in edit distance.
pub open spec fn similar(word: Seq<char>, nick: Seq<char>) -> bool {
    word == nick || (word.len() >= 4 && nick.len() >= 4 && lev(nick, word) <= nick.len() / 3)
}

/// Relies on `edit_distance::edit_distance`: the Levenshtein distance over characters.
#[verifier::external_body]
fn edit_distance_of(a: &str, b: &str) -> (r: usize)
    ensures
        r == lev(a@, b@),
{
    edit_distance::edit_distance(a, b)
}

fn same_chars(a: &Vec<char>, b: &Vec<char>) -> (r: bool)
    ensures
        r == (a@ == b@),
{
    if a.len() != b.len() {
        return false;
    }
    let mut i: usize = 0;
    while i < a.len()
        invariant
            a.len() == b.len(),
            i <= a.len(),
            forall|k: int| 0 <= k < i ==> a@[k] == b@[k],
        decreases a.len() - i,
    {
        if a[i] != b[i] {
            return false;
        }
        i = i + 1;
    }
    assert(a@ =~= b@);
    true
}

/// Whether `word` plausibly names `nick` (both expected in lowercase).
pub fn similar_to_nick(word: &str, nick: &str) -> (r: bool)
    ensures
        r == similar(word@, nick@),
{
    let w = chars_of(word);
    let n = chars_of(nick);
    if same_chars(&w, &n) {
        return true;
    }
    if w.len() < 4 || n.len() < 4 {
        return false;
    }
    let q = n.len() / 3;
    edit_distance_of(nick, word) <= q
}

/// A nickname always matches itself.
pub proof fn lemma_similar_to_self(nick: Seq<char>)
    ensures
        similar(nick, nick),
{
}

/// Two different strings never match when either is shorter than four characters.
pub proof fn lemma_short_never_similar(word: Seq<char>, nick: Seq<char>)
    requires
        word != nick,
        word.len() < 4 || nick.len() < 4,
    ensures
        !similar(word, nick),
{
}

} // verus!
