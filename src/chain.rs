use vstd::prelude::*;
use crate::text::{split_runs, words};

verus! {

/// The longest walk that generation takes before it stops on its own.
pub const MAX_STEPS: usize = 300;

/// A state of the chain: `None` is the start before a first token, or the end
/// after a last one; `Some(w)` is the token `w`.
pub type Tok = Option<Seq<char>>;

pub open spec fn tok_view(t: Option<String>) -> Tok {
    match t {
        Some(s) => Some(s@),
        None => None,
    }
}

pub open spec fn pair_view(p: (Option<String>, Option<String>)) -> (Tok, Tok) {
    (tok_view(p.0), tok_view(p.1))
}

/// The successors recorded after state `k`, in the order they were recorded.
pub open spec fn succ_of(ps: Seq<(Tok, Tok)>, k: Tok) -> Seq<Tok>
    decreases ps.len(),
{
    if ps.len() == 0 {
        seq![]
    } else {
        let p = succ_of(ps.drop_last(), k);
        if ps.last().0 == k {
            p.push(ps.last().1)
        } else {
            p
        }
    }
}

/// The transitions of one training sequence: start to the first token, each
/// token to the next, the last token to the end.
pub open spec fn chain_pairs(ts: Seq<Seq<char>>) -> Seq<(Tok, Tok)> {
    Seq::new(
        ts.len() + 1,
        |i: int|
            (
                if i == 0 {
                    None
                } else {
                    Some(ts[i - 1])
                },
                if i < ts.len() {
                    Some(ts[i])
                } else {
                    None
                },
            ),
    )
}

/// The random number used at a step; missing ones count as zero.
pub open spec fn pick_at(picks: Seq<u64>, step: int) -> u64 {
    if 0 <= step < picks.len() {
        picks[step]
    } else {
        0
    }
}

/// The walk from `state` on: at each step the successor at `pick % count` is taken,
/// until the end is drawn, no successor is known, or the step bound is met.
pub open spec fn walk(ps: Seq<(Tok, Tok)>, picks: Seq<u64>, state: Tok, step: nat) -> Seq<Seq<char>>
    decreases MAX_STEPS - step,
{
    if step >= MAX_STEPS {
        seq![]
    } else {
        let ss = succ_of(ps, state);
        if ss.len() == 0 {
            seq![]
        } else {
            match ss[(pick_at(picks, step as int) as int) % (ss.len() as int)] {
                None => seq![],
                Some(w) => seq![w] + walk(ps, picks, Some(w), step + 1),
            }
        }
    }
}

/// Every token recorded as a successor is also recorded as a predecessor:
/// no walk reaches a token from which it cannot go on.
pub open spec fn closed_chain(ps: Seq<(Tok, Tok)>) -> bool {
    forall|i: int|
        0 <= i < ps.len() && (#[trigger] ps[i]).1 is Some ==> exists|j: int|
            0 <= j < ps.len() && (#[trigger] ps[j]).0 == ps[i].1
}

/// Tokens joined by single spaces.
pub open spec fn join_words(ws: Seq<Seq<char>>) -> Seq<char>
    decreases ws.len(),
{
    if ws.len() == 0 {
        seq![]
    } else if ws.len() == 1 {
        ws[0]
    } else {
        join_words(ws.drop_last()) + seq![' '] + ws.last()
    }
}

/// A token chain. Each observed transition is kept once per observation, so a
/// successor is drawn in proportion to how often it was seen.
pub struct MarkovChain {
    pairs: Vec<(Option<String>, Option<String>)>,
}

impl MarkovChain {
    /// The observed transitions, in the order they were recorded.
    pub closed spec fn view(&self) -> Seq<(Tok, Tok)> {
        self.pairs@.map_values(|p: (Option<String>, Option<String>)| pair_view(p))
    }

    /// A chain that has seen nothing.
    pub fn new() -> (r: MarkovChain)
        ensures
            r@ == Seq::<(Tok, Tok)>::empty(),
            closed_chain(r@),
    {
        let r = MarkovChain { pairs: Vec::new() };
        assert(r@ =~= Seq::<(Tok, Tok)>::empty());
        r
    }

    /// Whether nothing was recorded.
    pub fn is_empty(&self) -> (r: bool)
        ensures
            r == (self@.len() == 0),
    {
        self.pairs.len() == 0
    }

    fn clone_tok(t: &Option<String>) -> (r: Option<String>)
        ensures
            tok_view(r) == tok_view(*t),
    {
        match t {
            Some(s) => Some(s.clone()),
            None => None,
        }
    }

    fn same_tok(a: &Option<String>, b: &Option<String>) -> (r: bool)
        ensures
            r == (tok_view(*a) == tok_view(*b)),
    {
        match (a, b) {
            (Some(x), Some(y)) => x.eq(y),
            (None, None) => true,
            _ => false,
        }
    }

    /// Records one token sequence, bounded by the start and the end.
    pub fn train(&mut self, tokens: &Vec<String>)
        ensures
            final(self)@ == old(self)@ + chain_pairs(tokens@.map_values(|s: String| s@)),
            closed_chain(old(self)@) ==> closed_chain(final(self)@),
    {
        let ghost ts = tokens@.map_values(|s: String| s@);
        let ghost cp = chain_pairs(ts);
        let ghost start = self@;
        let n = tokens.len();
        let mut i: usize = 0;
        while i < n
            invariant
                n == tokens.len(),
                ts == tokens@.map_values(|s: String| s@),
                cp == chain_pairs(ts),
                i <= n,
                self@ == start + cp.subrange(0, i as int),
            decreases n - i,
        {
            let prev = if i == 0 {
                None
            } else {
                Some(tokens[i - 1].clone())
            };
            let ghost before = self@;
            self.pairs.push((prev, Some(tokens[i].clone())));
            assert(self@ =~= before.push(cp[i as int]));
            assert(cp.subrange(0, i + 1) =~= cp.subrange(0, i as int).push(cp[i as int]));
            i = i + 1;
        }
        let last = if n == 0 {
            None
        } else {
            Some(tokens[n - 1].clone())
        };
        let ghost before = self@;
        self.pairs.push((last, None));
        assert(self@ =~= before.push(cp[n as int]));
        assert(cp =~= cp.subrange(0, n as int).push(cp[n as int]));
        proof {
            lemma_chain_pairs_closed(ts);
            if closed_chain(start) {
                lemma_closed_concat(start, cp);
            }
        }
    }

    /// Records the whitespace-separated tokens of a message.
    pub fn feed_str(&mut self, message: &str)
        ensures
            final(self)@ == old(self)@ + chain_pairs(split_runs(message@)),
            closed_chain(old(self)@) ==> closed_chain(final(self)@),
    {
        let ws = words(message);
        self.train(&ws);
    }

    /// Adds every transition of `other` to this chain.
    pub fn merge(&mut self, other: &MarkovChain)
        ensures
            final(self)@ == old(self)@ + other@,
            closed_chain(old(self)@) && closed_chain(other@) ==> closed_chain(final(self)@),
    {
        let ghost start = self@;
        let mut i: usize = 0;
        while i < other.pairs.len()
            invariant
                i <= other@.len(),
                other@.len() == other.pairs@.len(),
                self@ == start + other@.subrange(0, i as int),
            decreases other.pairs.len() - i,
        {
            let p = &other.pairs[i];
            let q = (Self::clone_tok(&p.0), Self::clone_tok(&p.1));
            let ghost before = self@;
            self.pairs.push(q);
            assert(self@ =~= before.push(other@[i as int]));
            assert(other@.subrange(0, i + 1) =~= other@.subrange(0, i as int).push(other@[i as int]));
            i = i + 1;
        }
        assert(other@.subrange(0, other@.len() as int) =~= other@);
        proof {
            if closed_chain(start) && closed_chain(other@) {
                lemma_closed_concat(start, other@);
            }
        }
    }

    fn successors(&self, k: &Option<String>) -> (r: Vec<Option<String>>)
        ensures
            r@.map_values(|t: Option<String>| tok_view(t)) == succ_of(self@, tok_view(*k)),
    {
        let mut out: Vec<Option<String>> = Vec::new();
        let mut i: usize = 0;
        while i < self.pairs.len()
            invariant
                i <= self.pairs@.len(),
                self@.len() == self.pairs@.len(),
                out@.map_values(|t: Option<String>| tok_view(t)) == succ_of(
                    self@.subrange(0, i as int),
                    tok_view(*k),
                ),
            decreases self.pairs.len() - i,
        {
            let ghost before = out@.map_values(|t: Option<String>| tok_view(t));
            let ghost sub = self@.subrange(0, i + 1);
            assert(sub.drop_last() =~= self@.subrange(0, i as int));
            assert(sub.last() == self@[i as int]);
            let p = &self.pairs[i];
            if Self::same_tok(&p.0, k) {
                out.push(Self::clone_tok(&p.1));
                assert(out@.map_values(|t: Option<String>| tok_view(t)) =~= before.push(
                    tok_view(p.1),
                ));
            }
            i = i + 1;
        }
        assert(self@.subrange(0, self@.len() as int) =~= self@);
        out
    }

    /// A random walk from the start: the number at `picks[step]` (zero where
    /// missing) chooses the successor, and at most `MAX_STEPS` tokens come out.
    pub fn generate(&self, picks: &Vec<u64>) -> (r: Vec<String>)
        ensures
            r@.map_values(|s: String| s@) == walk(self@, picks@, None, 0),
    {
        let mut out: Vec<String> = Vec::new();
        let mut state: Option<String> = None;
        let mut step: usize = 0;
        while step < MAX_STEPS
            invariant
                step <= MAX_STEPS,
                walk(self@, picks@, None, 0) == out@.map_values(|s: String| s@) + walk(
                    self@,
                    picks@,
                    tok_view(state),
                    step as nat,
                ),
            decreases MAX_STEPS - step,
        {
            let ss = self.successors(&state);
            let ghost outv = out@.map_values(|s: String| s@);
            if ss.len() == 0 {
                assert(outv + seq![] =~= outv);
                return out;
            }
            let x: u64 = if step < picks.len() {
                picks[step]
            } else {
                0
            };
            let j = (x % (ss.len() as u64)) as usize;
            assert(ss@.map_values(|t: Option<String>| tok_view(t))[j as int] == tok_view(ss@[j as int]));
            match &ss[j] {
                None => {
                    assert(outv + seq![] =~= outv);
                    return out;
                },
                Some(w) => {
                    let w2 = w.clone();
                    out.push(w.clone());
                    assert(out@.map_values(|s: String| s@) =~= outv.push(w@));
                    assert(outv + (seq![w@] + walk(self@, picks@, Some(w@), step as nat + 1)) =~= outv.push(
                        w@,
                    ) + walk(self@, picks@, Some(w@), step as nat + 1));
                    state = Some(w2);
                },
            }
            step = step + 1;
        }
        assert(out@.map_values(|s: String| s@) + seq![] =~= out@.map_values(|s: String| s@));
        out
    }

    /// A generated sentence, its tokens joined by single spaces.
    pub fn generate_str(&self, picks: &Vec<u64>) -> (r: String)
        ensures
            r@ == join_words(walk(self@, picks@, None, 0)),
    {
        let ws = self.generate(picks);
        let ghost wv = ws@.map_values(|s: String| s@);
        let mut out = String::new();
        let mut i: usize = 0;
        while i < ws.len()
            invariant
                i <= ws.len(),
                wv == ws@.map_values(|s: String| s@),
                out@ == join_words(wv.subrange(0, i as int)),
            decreases ws.len() - i,
        {
            let ghost sub = wv.subrange(0, i + 1);
            assert(sub.drop_last() =~= wv.subrange(0, i as int));
            if i > 0 {
                proof {
                    reveal_strlit(" ");
                }
                out.append(" ");
            }
            out.append(ws[i].as_str());
            proof {
                if i == 0 {
                    assert(out@ =~= sub[0]);
                } else {
                    assert(out@ =~= join_words(sub.drop_last()) + seq![' '] + sub.last());
                }
            }
            i = i + 1;
        }
        assert(wv.subrange(0, wv.len() as int) =~= wv);
        out
    }
}

/// The transitions of one training sequence leave no token without a successor.
pub proof fn lemma_chain_pairs_closed(ts: Seq<Seq<char>>)
    ensures
        closed_chain(chain_pairs(ts)),
{
    let cp = chain_pairs(ts);
    assert forall|i: int| 0 <= i < cp.len() && (#[trigger] cp[i]).1 is Some implies exists|j: int|
        0 <= j < cp.len() && (#[trigger] cp[j]).0 == cp[i].1 by {
        assert(cp[i + 1].0 == cp[i].1);
    }
}

/// Two closed transition sequences stay closed when one follows the other.
pub proof fn lemma_closed_concat(a: Seq<(Tok, Tok)>, b: Seq<(Tok, Tok)>)
    requires
        closed_chain(a),
        closed_chain(b),
    ensures
        closed_chain(a + b),
{
    let c = a + b;
    assert forall|i: int| 0 <= i < c.len() && (#[trigger] c[i]).1 is Some implies exists|j: int|
        0 <= j < c.len() && (#[trigger] c[j]).0 == c[i].1 by {
        if i < a.len() {
            assert(a[i] == c[i]);
            let j = choose|j: int| 0 <= j < a.len() && (#[trigger] a[j]).0 == a[i].1;
            assert(c[j] == a[j]);
        } else {
            assert(b[i - a.len()] == c[i]);
            let j = choose|j: int| 0 <= j < b.len() && (#[trigger] b[j]).0 == b[i - a.len()].1;
            assert(c[j + a.len()] == b[j]);
        }
    }
}

proof fn lemma_succ_of_recorded(ps: Seq<(Tok, Tok)>, k: Tok, j: int)
    requires
        0 <= j < succ_of(ps, k).len(),
    ensures
        ps.contains((k, succ_of(ps, k)[j])),
    decreases ps.len(),
{
    let p = succ_of(ps.drop_last(), k);
    if ps.last().0 == k && j == p.len() {
        assert(ps[ps.len() - 1] == (k, succ_of(ps, k)[j]));
    } else {
        lemma_succ_of_recorded(ps.drop_last(), k, j);
        let w = choose|w: int| 0 <= w < ps.drop_last().len() && ps.drop_last()[w] == (k, p[j]);
        assert(ps[w] == (k, p[j]));
    }
}

/// A walk is no longer than the step bound, is empty when nothing was
/// recorded, and each token it emits was recorded as a successor of the state
/// before it.
pub proof fn lemma_walk_follows_transitions(ps: Seq<(Tok, Tok)>, picks: Seq<u64>, state: Tok, step: nat)
    ensures
        walk(ps, picks, state, step).len() + step <= MAX_STEPS || walk(ps, picks, state, step).len() == 0,
        ps.len() == 0 ==> walk(ps, picks, state, step).len() == 0,
        walk(ps, picks, state, step).len() > 0 ==> ps.contains((state, Some(walk(ps, picks, state, step)[0]))),
        forall|i: int|
            1 <= i < walk(ps, picks, state, step).len() ==> ps.contains(
                (Some(walk(ps, picks, state, step)[i - 1]), Some(#[trigger] walk(ps, picks, state, step)[i])),
            ),
    decreases MAX_STEPS - step,
{
    let r = walk(ps, picks, state, step);
    if step < MAX_STEPS {
        let ss = succ_of(ps, state);
        if ps.len() == 0 {
            assert(ss.len() == 0);
        }
        if ss.len() > 0 {
            let j = (pick_at(picks, step as int) as int) % (ss.len() as int);
            lemma_succ_of_recorded(ps, state, j);
            match ss[j] {
                None => {},
                Some(w) => {
                    let rest = walk(ps, picks, Some(w), step + 1);
                    lemma_walk_follows_transitions(ps, picks, Some(w), step + 1);
                    assert(r == seq![w] + rest);
                    assert forall|i: int| 1 <= i < r.len() implies ps.contains(
                        (Some(r[i - 1]), Some(#[trigger] r[i])),
                    ) by {
                        if i == 1 {
                            assert(r[0] == w);
                            assert(r[1] == rest[0]);
                        } else {
                            assert(r[i] == rest[i - 1]);
                            assert(r[i - 1] == rest[i - 2]);
                        }
                    }
                },
            }
        }
    }
}

/// Generation ends within the step bound, gives nothing on an untrained chain,
/// and emits only tokens that were recorded as successors of the state it was in.
pub proof fn lemma_generate_follows_transitions(c: MarkovChain, picks: Seq<u64>)
    ensures
        walk(c@, picks, None, 0).len() <= MAX_STEPS,
        c@.len() == 0 ==> walk(c@, picks, None, 0).len() == 0,
        walk(c@, picks, None, 0).len() > 0 ==> c@.contains((None, Some(walk(c@, picks, None, 0)[0]))),
        forall|i: int|
            1 <= i < walk(c@, picks, None, 0).len() ==> c@.contains(
                (Some(walk(c@, picks, None, 0)[i - 1]), Some(#[trigger] walk(c@, picks, None, 0)[i])),
            ),
{
    lemma_walk_follows_transitions(c@, picks, None, 0);
}

} // verus!
