use vstd::prelude::*;
use crate::chain::{chain_pairs, closed_chain, MarkovChain, Tok};
use crate::counts::{find_in, lemma_find_in_found, sat_add, Counts};
use crate::nick::{similar, similar_to_nick};
use crate::parse::{parse_line, parse_znc_line, ChatEvent, EventView};
use crate::text::{strings_view, content_word, is_content_word, lower_of, lowercase, split_runs, words};

verus! {

/// How many of the tokens `ts` are the content word `w`.
pub open spec fn content_count(ts: Seq<Seq<char>>, w: Seq<char>) -> nat
    decreases ts.len(),
{
    if ts.len() == 0 {
        0
    } else {
        content_count(ts.drop_last(), w) + if ts.last() == w && content_word(w) {
            1nat
        } else {
            0nat
        }
    }
}

/// What the statistics hold: the ignored nicknames, the counts per nickname,
/// per message length and per word, the distinct messages, and the
/// transitions recorded in the chain.
pub struct AggModel {
    pub ignored: spec_fn(Seq<char>) -> bool,
    pub users: spec_fn(Seq<char>) -> nat,
    pub lengths: spec_fn(nat) -> nat,
    pub words: spec_fn(Seq<char>) -> nat,
    pub lines: spec_fn(Seq<char>) -> bool,
    pub chain: Seq<(Tok, Tok)>,
}

/// Nothing counted yet.
pub open spec fn empty_model(ignored: spec_fn(Seq<char>) -> bool) -> AggModel {
    AggModel {
        ignored,
        users: |k: Seq<char>| 0nat,
        lengths: |l: nat| 0nat,
        words: |w: Seq<char>| 0nat,
        lines: |x: Seq<char>| false,
        chain: seq![],
    }
}

/// One event folded in; an event of an ignored nickname changes nothing.
pub open spec fn update_model(m: AggModel, e: EventView) -> AggModel {
    let (ts, nick, msg) = e;
    if (m.ignored)(nick) {
        m
    } else {
        AggModel {
            ignored: m.ignored,
            users: |k: Seq<char>|
                if k == nick {
                    sat_add((m.users)(k), 1)
                } else {
                    (m.users)(k)
                },
            lengths: |l: nat|
                if l == msg.len() {
                    sat_add((m.lengths)(l), 1)
                } else {
                    (m.lengths)(l)
                },
            words: |w: Seq<char>| sat_add((m.words)(w), content_count(split_runs(msg), w)),
            lines: |x: Seq<char>| (m.lines)(x) || x == msg,
            chain: m.chain + chain_pairs(split_runs(msg)),
        }
    }
}

/// Events folded in order.
pub open spec fn fold_model(m: AggModel, evs: Seq<EventView>) -> AggModel
    decreases evs.len(),
{
    if evs.len() == 0 {
        m
    } else {
        update_model(fold_model(m, evs.drop_last()), evs.last())
    }
}

/// Two partial results combined: counts add, message sets unite, transitions
/// of the second follow those of the first.
pub open spec fn merge_model(a: AggModel, b: AggModel) -> AggModel {
    AggModel {
        ignored: a.ignored,
        users: |k: Seq<char>| sat_add((a.users)(k), (b.users)(k)),
        lengths: |l: nat| sat_add((a.lengths)(l), (b.lengths)(l)),
        words: |w: Seq<char>| sat_add((a.words)(w), (b.words)(w)),
        lines: |x: Seq<char>| (a.lines)(x) || (b.lines)(x),
        chain: a.chain + b.chain,
    }
}

/// The two hold the same statistics.
pub open spec fn same_model(a: AggModel, b: AggModel) -> bool {
    &&& forall|k: Seq<char>| #[trigger] (a.ignored)(k) == (b.ignored)(k)
    &&& forall|k: Seq<char>| #[trigger] (a.users)(k) == (b.users)(k)
    &&& forall|l: nat| #[trigger] (a.lengths)(l) == (b.lengths)(l)
    &&& forall|w: Seq<char>| #[trigger] (a.words)(w) == (b.words)(w)
    &&& forall|x: Seq<char>| #[trigger] (a.lines)(x) == (b.lines)(x)
    &&& a.chain == b.chain
}

/// Some token of `msg`, lowercased, resembles `nick`.
pub open spec fn mentions(msg: Seq<char>, nick: Seq<char>) -> bool {
    exists|i: int| 0 <= i < split_runs(msg).len() && similar(lower_of(#[trigger] split_runs(msg)[i]), nick)
}

/// The transitions that the chain of `nick` records: those of each message,
/// in order, that mentions it.
pub open spec fn nick_pairs(msgs: Seq<Seq<char>>, nick: Seq<char>) -> Seq<(Tok, Tok)>
    decreases msgs.len(),
{
    if msgs.len() == 0 {
        seq![]
    } else {
        nick_pairs(msgs.drop_last(), nick) + if mentions(msgs.last(), nick) {
            chain_pairs(split_runs(msgs.last()))
        } else {
            seq![]
        }
    }
}

/// Some message of `msgs` mentions `nick`.
pub open spec fn any_mention(msgs: Seq<Seq<char>>, nick: Seq<char>) -> bool {
    exists|i: int| 0 <= i < msgs.len() && mentions(#[trigger] msgs[i], nick)
}

/// The lowercased nicknames of `keys` that some message mentions, each once,
/// in the order of their first key.
pub open spec fn mentioned_nicks(keys: Seq<Seq<char>>, msgs: Seq<Seq<char>>) -> Seq<Seq<char>>
    decreases keys.len(),
{
    if keys.len() == 0 {
        seq![]
    } else {
        let p = mentioned_nicks(keys.drop_last(), msgs);
        let n = lower_of(keys.last());
        if any_mention(msgs, n) && !p.contains(n) {
            p.push(n)
        } else {
            p
        }
    }
}

proof fn lemma_count_known_bounded(xs: Seq<Seq<char>>, known: Seq<Seq<char>>)
    ensures
        count_known(xs, known) <= xs.len(),
    decreases xs.len(),
{
    if xs.len() > 0 {
        lemma_count_known_bounded(xs.drop_last(), known);
    }
}

proof fn lemma_nick_pairs_nonempty(msgs: Seq<Seq<char>>, nick: Seq<char>)
    ensures
        nick_pairs(msgs, nick).len() > 0 <==> any_mention(msgs, nick),
    decreases msgs.len(),
{
    if msgs.len() > 0 {
        let p = msgs.drop_last();
        lemma_nick_pairs_nonempty(p, nick);
        if any_mention(p, nick) {
            let i = choose|i: int| 0 <= i < p.len() && mentions(#[trigger] p[i], nick);
            assert(msgs[i] == p[i]);
        }
        if mentions(msgs.last(), nick) {
            assert(msgs[msgs.len() - 1] == msgs.last());
        }
        if any_mention(msgs, nick) && !mentions(msgs.last(), nick) {
            let i = choose|i: int| 0 <= i < msgs.len() && mentions(#[trigger] msgs[i], nick);
            assert(p[i] == msgs[i]);
        }
    }
}

/// How many of `xs` occur in `known`.
pub open spec fn count_known(xs: Seq<Seq<char>>, known: Seq<Seq<char>>) -> nat
    decreases xs.len(),
{
    if xs.len() == 0 {
        0
    } else {
        count_known(xs.drop_last(), known) + if known.contains(xs.last()) {
            1nat
        } else {
            0nat
        }
    }
}

fn mentions_exec(ws: &Vec<String>, nick: &String) -> (r: bool)
    ensures
        r == exists|i: int| 0 <= i < ws@.len() && similar(lower_of(#[trigger] ws@[i]@), nick@),
{
    let mut i: usize = 0;
    while i < ws.len()
        invariant
            i <= ws@.len(),
            forall|k: int| 0 <= k < i ==> !similar(lower_of(#[trigger] ws@[k]@), nick@),
        decreases ws.len() - i,
    {
        let low = lowercase(ws[i].as_str());
        if similar_to_nick(low.as_str(), nick.as_str()) {
            return true;
        }
        i = i + 1;
    }
    false
}

/// The chains built per nickname in the second pass.
pub struct NickChains {
    nicks: Vec<String>,
    chains: Vec<MarkovChain>,
}

impl NickChains {
    pub closed spec fn nicks_view(&self) -> Seq<Seq<char>> {
        self.nicks@.map_values(|s: String| s@)
    }

    pub closed spec fn wf(&self) -> bool {
        self.chains@.len() == self.nicks@.len()
    }

    pub closed spec fn chains_view(&self) -> Seq<Seq<(Tok, Tok)>> {
        self.chains@.map_values(|c: MarkovChain| c@)
    }

    pub fn len(&self) -> (r: usize)
        ensures
            r == self.nicks_view().len(),
    {
        self.nicks.len()
    }

    /// The lowercased nickname at `i`.
    pub fn nick(&self, i: usize) -> (r: &String)
        requires
            i < self.nicks_view().len(),
        ensures
            r@ == self.nicks_view()[i as int],
    {
        &self.nicks[i]
    }

    /// The chain of the nickname at `i`.
    pub fn chain(&self, i: usize) -> (r: &MarkovChain)
        requires
            i < self.nicks_view().len(),
            self.wf(),
        ensures
            r@ == self.chains_view()[i as int],
    {
        &self.chains[i]
    }
}

/// The least count for a word to be listed by length.
pub const WORD_FLOOR: u64 = 10;

/// The running statistics of a chat log.
pub struct Aggregator {
    ignored: Vec<String>,
    users: Counts,
    lengths: Vec<u64>,
    words: Counts,
    lines: Vec<String>,
    chain: MarkovChain,
}

impl Aggregator {
    pub closed spec fn wf(&self) -> bool {
        self.users.wf() && self.words.wf() && closed_chain(self.chain@)
    }

    pub closed spec fn is_ignored(&self, k: Seq<char>) -> bool {
        exists|i: int| 0 <= i < self.ignored@.len() && #[trigger] self.ignored@[i]@ == k
    }

    pub closed spec fn has_line(&self, x: Seq<char>) -> bool {
        exists|i: int| 0 <= i < self.lines@.len() && #[trigger] self.lines@[i]@ == x
    }

    pub closed spec fn length_count(&self, l: nat) -> nat {
        if l < self.lengths@.len() {
            self.lengths@[l as int] as nat
        } else {
            0
        }
    }

    pub closed spec fn model(&self) -> AggModel {
        AggModel {
            ignored: |k: Seq<char>| self.is_ignored(k),
            users: |k: Seq<char>| self.users.count(k),
            lengths: |l: nat| self.length_count(l),
            words: |w: Seq<char>| self.words.count(w),
            lines: |x: Seq<char>| self.has_line(x),
            chain: self.chain@,
        }
    }

    /// Empty statistics that will pass over the nicknames in `ignored`.
    pub fn new(ignored: Vec<String>) -> (r: Aggregator)
        ensures
            r.wf(),
            same_model(
                r.model(),
                empty_model(|k: Seq<char>| exists|i: int| 0 <= i < ignored@.len() && #[trigger] ignored@[i]@ == k),
            ),
            r.user_keys() == Seq::<Seq<char>>::empty(),
            r.word_keys() == Seq::<Seq<char>>::empty(),
    {
        let r = Aggregator {
            ignored,
            users: Counts::new(),
            lengths: Vec::new(),
            words: Counts::new(),
            lines: Vec::new(),
            chain: MarkovChain::new(),
        };
        let ghost e = empty_model(|k: Seq<char>| exists|i: int| 0 <= i < ignored@.len() && #[trigger] ignored@[i]@ == k);
        assert forall|k: Seq<char>| #[trigger] (r.model().users)(k) == (e.users)(k) by {
            assert(r.users.count(k) == 0);
        }
        assert forall|k: Seq<char>| #[trigger] (r.model().words)(k) == (e.words)(k) by {
            assert(r.words.count(k) == 0);
        }
        assert(r.model().chain =~= e.chain);
        assert forall|k: Seq<char>| #[trigger] (r.model().ignored)(k) == (e.ignored)(k) by {
            assert(r.ignored@ == ignored@);
        }
        assert forall|l: nat| #[trigger] (r.model().lengths)(l) == (e.lengths)(l) by {
        }
        assert forall|x: Seq<char>| #[trigger] (r.model().lines)(x) == (e.lines)(x) by {
        }
        r
    }

    fn ignores(&self, nick: &String) -> (r: bool)
        ensures
            r == self.is_ignored(nick@),
    {
        let mut i: usize = 0;
        while i < self.ignored.len()
            invariant
                i <= self.ignored@.len(),
                forall|k: int| 0 <= k < i ==> #[trigger] self.ignored@[k]@ != nick@,
            decreases self.ignored.len() - i,
        {
            if self.ignored[i].eq(nick) {
                return true;
            }
            i = i + 1;
        }
        false
    }

    fn add_length(&mut self, l: usize, n: u64)
        ensures
            final(self).users == old(self).users,
            final(self).words == old(self).words,
            final(self).lines == old(self).lines,
            final(self).ignored == old(self).ignored,
            final(self).chain == old(self).chain,
            forall|j: nat|
                #[trigger] final(self).length_count(j) == if j == l {
                    sat_add(old(self).length_count(j), n as nat)
                } else {
                    old(self).length_count(j)
                },
    {
        while self.lengths.len() <= l
            invariant
                self.users == old(self).users,
                self.words == old(self).words,
                self.lines == old(self).lines,
                self.ignored == old(self).ignored,
                self.chain == old(self).chain,
                forall|j: nat| #[trigger] self.length_count(j) == old(self).length_count(j),
            decreases l + 1 - self.lengths.len(),
        {
            let ghost before = *self;
            self.lengths.push(0);
            assert forall|j: nat| #[trigger] self.length_count(j) == before.length_count(j) by {
                if j < before.lengths@.len() {
                    assert(self.lengths@[j as int] == before.lengths@[j as int]);
                }
            }
        }
        let ghost before = *self;
        let v = self.lengths[l].saturating_add(n);
        self.lengths.set(l, v);
        assert forall|j: nat|
            #[trigger] self.length_count(j) == if j == l {
                sat_add(before.length_count(j), n as nat)
            } else {
                before.length_count(j)
            } by {
            if j < before.lengths@.len() && j != l {
                assert(self.lengths@[j as int] == before.lengths@[j as int]);
            }
        }
    }

    fn add_line(&mut self, m: &String)
        ensures
            final(self).users == old(self).users,
            final(self).words == old(self).words,
            final(self).lengths == old(self).lengths,
            final(self).ignored == old(self).ignored,
            final(self).chain == old(self).chain,
            forall|x: Seq<char>| #[trigger] final(self).has_line(x) == (old(self).has_line(x) || x == m@),
    {
        let mut i: usize = 0;
        while i < self.lines.len()
            invariant
                i <= self.lines@.len(),
                forall|k: int| 0 <= k < i ==> #[trigger] self.lines@[k]@ != m@,
            decreases self.lines.len() - i,
        {
            if self.lines[i].eq(m) {
                assert(self.lines@[i as int]@ == m@);
                return;
            }
            i = i + 1;
        }
        let ghost before = self.lines@;
        self.lines.push(m.clone());
        assert forall|x: Seq<char>| #[trigger] self.has_line(x) == (old(self).has_line(x) || x == m@) by {
            if x == m@ {
                assert(self.lines@[before.len() as int]@ == x);
            }
            if self.has_line(x) {
                let w = choose|w: int| 0 <= w < self.lines@.len() && #[trigger] self.lines@[w]@ == x;
                if w < before.len() {
                    assert(before[w]@ == x);
                }
            }
            if old(self).has_line(x) {
                let w = choose|w: int| 0 <= w < before.len() && #[trigger] before[w]@ == x;
                assert(self.lines@[w]@ == x);
            }
        }
    }

    /// Folds one chat event in: unless its nickname is ignored, counts the
    /// nickname, the message length and each content word, keeps the message
    /// among the distinct ones, and trains the chain on its tokens.
    pub fn update(&mut self, e: &ChatEvent)
        requires
            old(self).wf(),
        ensures
            final(self).wf(),
            same_model(final(self).model(), update_model(old(self).model(), e.view())),
            final(self).user_keys() == if (old(self).model().ignored)(e.nickname@) || old(
                self,
            ).user_keys().contains(e.nickname@) {
                old(self).user_keys()
            } else {
                old(self).user_keys().push(e.nickname@)
            },
    {
        if self.ignores(&e.nickname) {
            return;
        }
        let ghost start = *self;
        self.users.add(&e.nickname, 1);
        let n = e.message.as_str().unicode_len();
        assert(n == e.message@.len());
        let ghost before_len = *self;
        self.add_length(n, 1);
        let ghost after_len = *self;
        let ws = words(e.message.as_str());
        let ghost ts = ws@.map_values(|s: String| s@);
        let ghost mid = *self;
        proof {
            assert forall|w: Seq<char>| #[trigger] self.words.count(w) == sat_add(
                mid.words.count(w),
                content_count(ts.subrange(0, 0), w),
            ) by {
                self.words.lemma_count_bounded(w);
            }
        }
        let mut i: usize = 0;
        while i < ws.len()
            invariant
                i <= ws.len(),
                self.users == mid.users,
                self.lengths == mid.lengths,
                self.ignored == mid.ignored,
                self.lines == mid.lines,
                self.chain == mid.chain,
                ts == ws@.map_values(|s: String| s@),
                self.words.wf(),
                forall|w: Seq<char>|
                    #[trigger] self.words.count(w) == sat_add(
                        mid.words.count(w),
                        content_count(ts.subrange(0, i as int), w),
                    ),
            decreases ws.len() - i,
        {
            let ghost sub = ts.subrange(0, i + 1);
            assert(sub.drop_last() =~= ts.subrange(0, i as int));
            assert(sub.last() == ws@[i as int]@);
            if is_content_word(ws[i].as_str()) {
                self.words.add(&ws[i], 1);
            }
            i = i + 1;
        }
        assert(ts.subrange(0, ws.len() as int) =~= ts);
        let ghost before_line = *self;
        self.add_line(&e.message);
        let ghost after_line = *self;
        self.chain.train(&ws);
        proof {
            let um = update_model(start.model(), e.view());
            assert(!(start.model().ignored)(e.nickname@));
            assert forall|w: Seq<char>| #[trigger] (self.model().words)(w) == (um.words)(w) by {}
            assert forall|k: Seq<char>| #[trigger] (self.model().users)(k) == (um.users)(k) by {}
            assert forall|l: nat| #[trigger] (self.model().lengths)(l) == (um.lengths)(l) by {
                assert(self.lengths == after_len.lengths);
                assert(after_len.length_count(l) == if l == n {
                    sat_add(before_len.length_count(l), 1)
                } else {
                    before_len.length_count(l)
                });
                assert(before_len.lengths == start.lengths);
            }
            assert forall|x: Seq<char>| #[trigger] (self.model().lines)(x) == (um.lines)(x) by {
                assert(self.lines == after_line.lines);
                assert(after_line.has_line(x) == (before_line.has_line(x) || x == e.message@));
                assert(before_line.lines == start.lines);
            }
            assert forall|k: Seq<char>| #[trigger] (self.model().ignored)(k) == (um.ignored)(k) by {
                assert(self.ignored == after_line.ignored);
                assert(before_line.ignored == after_len.ignored);
                assert(before_len.ignored == start.ignored);
            }
        }
    }

    /// Adds the statistics of `other` to these: counts add (held at
    /// `u64::MAX`), message sets unite, and the chain takes on the other's
    /// transitions. The ignored nicknames stay those of `self`.
    pub fn merge(&mut self, other: &Aggregator)
        requires
            old(self).wf(),
            other.wf(),
        ensures
            final(self).wf(),
            same_model(final(self).model(), merge_model(old(self).model(), other.model())),
    {
        let ghost start = *self;
        proof {
            assert forall|k: Seq<char>| #[trigger] self.users.count(k) == sat_add(
                start.users.count(k),
                if find_in(other.users.key_seq(), k, 0) < 0 {
                    other.users.count(k)
                } else {
                    0
                },
            ) by {
                start.users.lemma_count_bounded(k);
                lemma_find_in_found(other.users.key_seq(), k, 0);
            }
        }
        let mut i: usize = 0;
        while i < other.users.len()
            invariant
                self.users.wf(),
                other.users.wf(),
                self.words == start.words,
                self.lengths == start.lengths,
                self.lines == start.lines,
                self.ignored == start.ignored,
                self.chain == start.chain,
                i <= other.users.key_seq().len(),
                forall|k: Seq<char>|
                    #[trigger] self.users.count(k) == sat_add(
                        start.users.count(k),
                        if find_in(other.users.key_seq(), k, 0) < i {
                            other.users.count(k)
                        } else {
                            0
                        },
                    ),
            decreases other.users.key_seq().len() - i,
        {
            let (k, c) = other.users.entry(i);
            self.users.add(k, c);
            proof {
                assert forall|j: Seq<char>| #[trigger] self.users.count(j) == sat_add(
                    start.users.count(j),
                    if find_in(other.users.key_seq(), j, 0) < i + 1 {
                        other.users.count(j)
                    } else {
                        0
                    },
                ) by {
                    start.users.lemma_count_bounded(j);
                    if find_in(other.users.key_seq(), j, 0) == i {
                        lemma_find_in_found(other.users.key_seq(), j, 0);
                    }
                }
            }
            i = i + 1;
        }
        proof {
            assert forall|k: Seq<char>|
                #[trigger] self.users.count(k) == sat_add(start.users.count(k), other.users.count(k))
                by {
                other.users.lemma_absent_is_zero(k);
            }
        }
        let ghost after_users = *self;
        proof {
            assert forall|k: Seq<char>| #[trigger] self.words.count(k) == sat_add(
                start.words.count(k),
                if find_in(other.words.key_seq(), k, 0) < 0 {
                    other.words.count(k)
                } else {
                    0
                },
            ) by {
                start.words.lemma_count_bounded(k);
                lemma_find_in_found(other.words.key_seq(), k, 0);
            }
        }
        let mut i: usize = 0;
        while i < other.words.len()
            invariant
                self.words.wf(),
                other.words.wf(),
                self.users == after_users.users,
                self.lengths == start.lengths,
                self.lines == start.lines,
                self.ignored == start.ignored,
                self.chain == start.chain,
                i <= other.words.key_seq().len(),
                forall|k: Seq<char>|
                    #[trigger] self.words.count(k) == sat_add(
                        start.words.count(k),
                        if find_in(other.words.key_seq(), k, 0) < i {
                            other.words.count(k)
                        } else {
                            0
                        },
                    ),
            decreases other.words.key_seq().len() - i,
        {
            let (k, c) = other.words.entry(i);
            self.words.add(k, c);
            proof {
                assert forall|j: Seq<char>| #[trigger] self.words.count(j) == sat_add(
                    start.words.count(j),
                    if find_in(other.words.key_seq(), j, 0) < i + 1 {
                        other.words.count(j)
                    } else {
                        0
                    },
                ) by {
                    start.words.lemma_count_bounded(j);
                    if find_in(other.words.key_seq(), j, 0) == i {
                        lemma_find_in_found(other.words.key_seq(), j, 0);
                    }
                }
            }
            i = i + 1;
        }
        proof {
            assert forall|k: Seq<char>|
                #[trigger] self.words.count(k) == sat_add(start.words.count(k), other.words.count(k))
                by {
                other.words.lemma_absent_is_zero(k);
            }
        }
        let ghost after_words = *self;
        let mut i: usize = 0;
        while i < other.lengths.len()
            invariant
                self.users == after_users.users,
                self.words == after_words.words,
                self.lines == start.lines,
                self.ignored == start.ignored,
                self.chain == start.chain,
                i <= other.lengths@.len(),
                forall|l: nat|
                    #[trigger] self.length_count(l) == sat_add(
                        start.length_count(l),
                        if l < i {
                            other.length_count(l)
                        } else {
                            0
                        },
                    ),
            decreases other.lengths.len() - i,
        {
            let ghost before = *self;
            self.add_length(i, other.lengths[i]);
            proof {
                assert forall|l: nat| #[trigger] self.length_count(l) == sat_add(
                    start.length_count(l),
                    if l < i + 1 {
                        other.length_count(l)
                    } else {
                        0
                    },
                ) by {
                    assert(before.length_count(l) == sat_add(
                        start.length_count(l),
                        if l < i {
                            other.length_count(l)
                        } else {
                            0
                        },
                    ));
                    if l < start.lengths@.len() {
                        assert(start.length_count(l) <= u64::MAX);
                    }
                }
            }
            i = i + 1;
        }
        let ghost after_lengths = *self;
        let mut i: usize = 0;
        while i < other.lines.len()
            invariant
                self.users == after_users.users,
                self.words == after_words.words,
                self.lengths == after_lengths.lengths,
                self.ignored == start.ignored,
                self.chain == start.chain,
                i <= other.lines@.len(),
                forall|x: Seq<char>|
                    #[trigger] self.has_line(x) == (start.has_line(x) || exists|j: int|
                        0 <= j < i && #[trigger] other.lines@[j]@ == x),
            decreases other.lines.len() - i,
        {
            self.add_line(&other.lines[i]);
            proof {
                assert forall|x: Seq<char>| #[trigger] self.has_line(x) == (start.has_line(x)
                    || exists|j: int| 0 <= j < i + 1 && #[trigger] other.lines@[j]@ == x) by {
                    if x == other.lines@[i as int]@ {
                        assert(exists|j: int| 0 <= j < i + 1 && #[trigger] other.lines@[j]@ == x);
                    }
                }
            }
            i = i + 1;
        }
        let ghost after_lines = *self;
        assert(forall|l: nat| #[trigger] after_lengths.length_count(l) == sat_add(
            start.length_count(l),
            if l < other.lengths@.len() {
                other.length_count(l)
            } else {
                0
            },
        ));
        self.chain.merge(&other.chain);
        proof {
            let mm = merge_model(start.model(), other.model());
            assert forall|l: nat| #[trigger] (self.model().lengths)(l) == (mm.lengths)(l) by {
                assert(self.lengths == after_lengths.lengths);
                assert(self.length_count(l) == after_lengths.length_count(l));
                start.lemma_length_bounded(l);
            }
            assert forall|x: Seq<char>| #[trigger] (self.model().lines)(x) == (mm.lines)(x) by {
                assert(self.lines == after_lines.lines);
                assert(self.has_line(x) == after_lines.has_line(x));
                if other.has_line(x) {
                    let j = choose|j: int| 0 <= j < other.lines@.len() && #[trigger] other.lines@[j]@ == x;
                    assert(other.lines@[j]@ == x);
                }
            }
            assert forall|k: Seq<char>| #[trigger] (self.model().users)(k) == (mm.users)(k) by {}
            assert forall|k: Seq<char>| #[trigger] (self.model().words)(k) == (mm.words)(k) by {}
            assert forall|k: Seq<char>| #[trigger] (self.model().ignored)(k) == (mm.ignored)(k) by {
                assert(self.ignored == after_lines.ignored);
                assert(self.ignored == start.ignored);
            }
        }
    }

    /// The counted nicknames, in the order first seen.
    pub closed spec fn user_keys(&self) -> Seq<Seq<char>> {
        self.users.key_seq()
    }

    /// The counted words, in the order first seen.
    pub closed spec fn word_keys(&self) -> Seq<Seq<char>> {
        self.words.key_seq()
    }

    /// The messages kept, each once.
    pub closed spec fn messages_view(&self) -> Seq<Seq<char>> {
        self.lines@.map_values(|s: String| s@)
    }

    /// The per-nickname counts.
    pub fn users(&self) -> (r: &Counts)
        requires
            self.wf(),
        ensures
            r.wf(),
            r.key_seq() == self.user_keys(),
            forall|k: Seq<char>| #[trigger] r.count(k) == (self.model().users)(k),
    {
        &self.users
    }

    /// The per-word counts.
    pub fn words(&self) -> (r: &Counts)
        requires
            self.wf(),
        ensures
            r.wf(),
            r.key_seq() == self.word_keys(),
            forall|k: Seq<char>| #[trigger] r.count(k) == (self.model().words)(k),
    {
        &self.words
    }

    /// The number of messages of length `l`.
    pub fn length_count_of(&self, l: usize) -> (r: u64)
        ensures
            r == (self.model().lengths)(l as nat),
    {
        if l < self.lengths.len() {
            self.lengths[l]
        } else {
            0
        }
    }

    /// The distinct messages seen.
    pub fn messages(&self) -> (r: &Vec<String>)
        ensures
            r@.map_values(|s: String| s@) == self.messages_view(),
            forall|x: Seq<char>| #[trigger] (self.model().lines)(x) <==> self.messages_view().contains(x),
    {
        proof {
            assert forall|x: Seq<char>| #[trigger] (self.model().lines)(x) <==> self.messages_view().contains(x) by {
                if self.has_line(x) {
                    let i = choose|i: int| 0 <= i < self.lines@.len() && #[trigger] self.lines@[i]@ == x;
                    assert(self.messages_view()[i] == x);
                }
                if self.messages_view().contains(x) {
                    let i = choose|i: int| 0 <= i < self.messages_view().len() && self.messages_view()[i] == x;
                    assert(self.lines@[i]@ == x);
                }
            }
        }
        &self.lines
    }

    /// The chain trained on every message counted.
    pub fn chain(&self) -> (r: &MarkovChain)
        requires
            self.wf(),
        ensures
            r@ == self.model().chain,
            closed_chain(r@),
    {
        &self.chain
    }

    /// Reads one log line and folds it in when it is a chat line.
    pub fn ingest_line(&mut self, line: &str)
        requires
            old(self).wf(),
        ensures
            final(self).wf(),
            same_model(
                final(self).model(),
                match parse_line(line@) {
                    Some(e) => update_model(old(self).model(), e),
                    None => old(self).model(),
                },
            ),
    {
        match parse_znc_line(line) {
            Some(e) => self.update(&e),
            None => {},
        }
    }

    /// Folds in every chat line of `lines`, in order (a file's contents).
    pub fn ingest_lines(&mut self, lines: &Vec<String>)
        requires
            old(self).wf(),
        ensures
            final(self).wf(),
            same_model(
                final(self).model(),
                fold_model(old(self).model(), parsed(lines@.map_values(|s: String| s@))),
            ),
    {
        let ghost lv = lines@.map_values(|s: String| s@);
        let ghost start = self.model();
        let mut i: usize = 0;
        while i < lines.len()
            invariant
                self.wf(),
                lv == lines@.map_values(|s: String| s@),
                i <= lines@.len(),
                same_model(self.model(), fold_model(start, parsed(lv.subrange(0, i as int)))),
            decreases lines.len() - i,
        {
            let ghost before = self.model();
            let ghost sub = lv.subrange(0, i + 1);
            assert(sub.drop_last() =~= lv.subrange(0, i as int));
            assert(sub.last() == lines@[i as int]@);
            self.ingest_line(lines[i].as_str());
            proof {
                let prev = fold_model(start, parsed(lv.subrange(0, i as int)));
                match parse_line(sub.last()) {
                    Some(e) => {
                        assert(parsed(sub) =~= parsed(sub.drop_last()).push(e));
                        assert(parsed(sub).drop_last() =~= parsed(sub.drop_last()));
                        lemma_update_congruent(before, prev, e);
                    },
                    None => {
                        assert(parsed(sub) =~= parsed(sub.drop_last()));
                    },
                }
            }
            i = i + 1;
        }
        assert(lv.subrange(0, lv.len() as int) =~= lv);
    }

    /// One chain per nickname that some message mentions, lowercased and
    /// listed once, trained on every distinct message that has a token
    /// resembling that nickname.
    pub fn build_nick_chains(&self) -> (r: NickChains)
        requires
            self.wf(),
        ensures
            r.wf(),
            r.nicks_view() == mentioned_nicks(self.user_keys(), self.messages_view()),
            forall|i: int|
                0 <= i < r.nicks_view().len() ==> #[trigger] r.chains_view()[i] == nick_pairs(
                    self.messages_view(),
                    r.nicks_view()[i],
                ),
            forall|i: int| 0 <= i < r.nicks_view().len() ==> closed_chain(#[trigger] r.chains_view()[i]),
    {
        let mut nicks: Vec<String> = Vec::new();
        let mut chains: Vec<MarkovChain> = Vec::new();
        let ghost mv = self.messages_view();
        let ghost ks = self.user_keys();
        let mut j: usize = 0;
        while j < self.users.len()
            invariant
                self.wf(),
                mv == self.messages_view(),
                ks == self.user_keys(),
                ks == self.users.key_seq(),
                j <= ks.len(),
                nicks@.len() == chains@.len(),
                nicks@.map_values(|s: String| s@) == mentioned_nicks(ks.subrange(0, j as int), mv),
                forall|i: int| 0 <= i < chains@.len() ==> #[trigger] chains@[i]@ == nick_pairs(mv, nicks@[i]@),
                forall|i: int| 0 <= i < chains@.len() ==> closed_chain(#[trigger] chains@[i]@),
            decreases ks.len() - j,
        {
            let ghost sub = ks.subrange(0, j + 1);
            assert(sub.drop_last() =~= ks.subrange(0, j as int));
            let (key, _) = self.users.entry(j);
            let nick = lowercase(key.as_str());
            let ghost nv = nicks@.map_values(|s: String| s@);
            let mut seen = false;
            let mut q: usize = 0;
            while q < nicks.len()
                invariant
                    q <= nicks@.len(),
                    nv == nicks@.map_values(|s: String| s@),
                    seen == exists|x: int| 0 <= x < q && #[trigger] nicks@[x]@ == nick@,
                decreases nicks.len() - q,
            {
                if nicks[q].eq(&nick) {
                    seen = true;
                }
                q = q + 1;
            }
            proof {
                if seen {
                    let x = choose|x: int| 0 <= x < nicks@.len() && #[trigger] nicks@[x]@ == nick@;
                    assert(nv[x] == nick@);
                }
                if nv.contains(nick@) {
                    let x = choose|x: int| 0 <= x < nv.len() && nv[x] == nick@;
                    assert(nicks@[x]@ == nick@);
                }
            }
            if !seen {
                let mut c = MarkovChain::new();
                let mut i: usize = 0;
                while i < self.lines.len()
                    invariant
                        mv == self.messages_view(),
                        i <= mv.len(),
                        c@ == nick_pairs(mv.subrange(0, i as int), nick@),
                        closed_chain(c@),
                    decreases self.lines.len() - i,
                {
                    let ghost sub = mv.subrange(0, i + 1);
                    assert(sub.drop_last() =~= mv.subrange(0, i as int));
                    assert(sub.last() == self.lines@[i as int]@);
                    let ws = words(self.lines[i].as_str());
                    let m = mentions_exec(&ws, &nick);
                    proof {
                        let msg = mv[i as int];
                        assert(strings_view(ws@) == split_runs(msg));
                        if m {
                            let k = choose|k: int| 0 <= k < ws@.len() && similar(lower_of(#[trigger] ws@[k]@), nick@);
                            assert(split_runs(msg)[k] == ws@[k]@);
                        }
                        if mentions(msg, nick@) {
                            let k = choose|k: int|
                                0 <= k < split_runs(msg).len() && similar(lower_of(#[trigger] split_runs(msg)[k]), nick@);
                            assert(split_runs(msg)[k] == ws@[k]@);
                        }
                    }
                    if m {
                        c.train(&ws);
                    } else {
                        assert(c@ + seq![] =~= c@);
                    }
                    i = i + 1;
                }
                assert(mv.subrange(0, mv.len() as int) =~= mv);
                proof {
                    lemma_nick_pairs_nonempty(mv, nick@);
                }
                if !c.is_empty() {
                    nicks.push(nick);
                    chains.push(c);
                    assert(nicks@.map_values(|s: String| s@) =~= nv.push(lower_of(sub.last())));
                }
            }
            j = j + 1;
        }
        assert(ks.subrange(0, ks.len() as int) =~= ks);
        let r = NickChains { nicks, chains };
        assert forall|i: int| 0 <= i < r.nicks_view().len() implies #[trigger] r.chains_view()[i] == nick_pairs(
            self.messages_view(),
            r.nicks_view()[i],
        ) by {
            assert(r.nicks_view()[i] == r.nicks@[i]@);
        }
        r
    }

    /// The novelty tally of one sample per nickname chain: how many samples
    /// repeat a message seen, and how many chains there are.
    pub fn novelty_tally(&self, chains: &NickChains, samples: &Vec<String>) -> (r: (usize, usize))
        requires
            samples@.len() == chains.nicks_view().len(),
        ensures
            r.0 == count_known(samples@.map_values(|s: String| s@), self.messages_view()),
            r.1 == chains.nicks_view().len(),
            r.0 <= r.1,
    {
        let existing = self.count_existing(samples);
        proof {
            lemma_count_known_bounded(samples@.map_values(|s: String| s@), self.messages_view());
        }
        (existing, chains.len())
    }

    /// How many of `samples` are among the messages seen.
    pub fn count_existing(&self, samples: &Vec<String>) -> (r: usize)
        ensures
            r == count_known(samples@.map_values(|s: String| s@), self.messages_view()),
    {
        let ghost sv = samples@.map_values(|s: String| s@);
        let mut n: usize = 0;
        let mut i: usize = 0;
        while i < samples.len()
            invariant
                sv == samples@.map_values(|s: String| s@),
                i <= samples@.len(),
                n == count_known(sv.subrange(0, i as int), self.messages_view()),
                n <= i,
            decreases samples.len() - i,
        {
            let ghost sub = sv.subrange(0, i + 1);
            assert(sub.drop_last() =~= sv.subrange(0, i as int));
            let mut found = false;
            let mut j: usize = 0;
            while j < self.lines.len()
                invariant
                    i < samples@.len(),
                    j <= self.lines@.len(),
                    found == exists|k: int| 0 <= k < j && #[trigger] self.lines@[k]@ == samples@[i as int]@,
                decreases self.lines.len() - j,
            {
                if self.lines[j].eq(&samples[i]) {
                    found = true;
                }
                j = j + 1;
            }
            proof {
                let mv = self.messages_view();
                if found {
                    let k = choose|k: int| 0 <= k < self.lines@.len() && #[trigger] self.lines@[k]@ == samples@[i as int]@;
                    assert(mv[k] == sv[i as int]);
                }
                if mv.contains(sv[i as int]) {
                    let k = choose|k: int| 0 <= k < mv.len() && mv[k] == sv[i as int];
                    assert(self.lines@[k]@ == samples@[i as int]@);
                }
            }
            if found {
                n = n + 1;
            }
            i = i + 1;
        }
        assert(sv.subrange(0, sv.len() as int) =~= sv);
        n
    }

    /// The `n` message lengths seen most often, most frequent first, each
    /// with its count; every length seen where there are fewer. No length
    /// left out was seen more often than one that was taken.
    pub fn top_lengths(&self, n: usize) -> (r: Vec<(usize, u64)>)
        ensures
            r@.len() <= n,
            forall|a: int| 0 <= a < r@.len() ==> #[trigger] r@[a].1 == (self.model().lengths)(r@[a].0 as nat),
            forall|a: int| 0 <= a < r@.len() ==> #[trigger] r@[a].1 > 0,
            forall|a: int, b: int| 0 <= a < b < r@.len() ==> r@[a].0 != r@[b].0,
            forall|a: int, b: int| 0 <= a < b < r@.len() ==> r@[a].1 >= r@[b].1,
            forall|a: int, l: usize|
                0 <= a < r@.len() && !(exists|b: int| 0 <= b < r@.len() && #[trigger] r@[b].0 == l)
                    ==> #[trigger] (self.model().lengths)(l as nat) <= #[trigger] r@[a].1,
            r@.len() == n || forall|l: usize|
                #[trigger] (self.model().lengths)(l as nat) > 0 ==> exists|b: int|
                    0 <= b < r@.len() && #[trigger] r@[b].0 == l,
    {
        let mut ls: Vec<usize> = Vec::new();
        let mut cs: Vec<u64> = Vec::new();
        let mut l: usize = 0;
        while l < self.lengths.len()
            invariant
                l <= self.lengths@.len(),
                ls@.len() == cs@.len(),
                forall|a: int| 0 <= a < ls@.len() ==> #[trigger] ls@[a] < l,
                forall|a: int, b: int| 0 <= a < b < ls@.len() ==> ls@[a] < ls@[b],
                forall|a: int| 0 <= a < ls@.len() ==> #[trigger] cs@[a] == self.length_count(ls@[a] as nat),
                forall|a: int| 0 <= a < ls@.len() ==> #[trigger] cs@[a] > 0,
                forall|m: usize| m < l && self.length_count(m as nat) > 0 ==> #[trigger] ls@.contains(m),
            decreases self.lengths.len() - l,
        {
            let c = self.lengths[l];
            if c > 0 {
                let ghost old_ls = ls@;
                ls.push(l);
                cs.push(c);
                assert forall|m: usize| m < l + 1 && self.length_count(m as nat) > 0 implies #[trigger] ls@.contains(m) by {
                    if m == l {
                        assert(ls@[old_ls.len() as int] == l);
                    } else {
                        assert(old_ls.contains(m));
                        let w = choose|w: int| 0 <= w < old_ls.len() && old_ls[w] == m;
                        assert(ls@[w] == m);
                    }
                }
            } else {
                assert forall|m: usize| m < l + 1 && self.length_count(m as nat) > 0 implies #[trigger] ls@.contains(m) by {}
            }
            l = l + 1;
        }
        let cs_len = cs.len();
        let idx = crate::report::top_indices(&cs, n);
        let mut r: Vec<(usize, u64)> = Vec::new();
        let mut i: usize = 0;
        while i < idx.len()
            invariant
                ls@.len() == cs@.len(),
                forall|a: int| 0 <= a < idx@.len() ==> #[trigger] idx@[a] < cs@.len(),
                i <= idx@.len(),
                r@.len() == i,
                forall|a: int| 0 <= a < i ==> #[trigger] r@[a] == (ls@[idx@[a] as int], cs@[idx@[a] as int]),
            decreases idx.len() - i,
        {
            r.push((ls[idx[i]], cs[idx[i]]));
            i = i + 1;
        }
        proof {
            assert forall|a: int, b: int| 0 <= a < b < r@.len() implies r@[a].0 != r@[b].0 by {
                let x = idx@[a] as int;
                let y = idx@[b] as int;
                if x < y {
                    assert(ls@[x] < ls@[y]);
                } else {
                    assert(ls@[y] < ls@[x]);
                }
            }
            assert forall|a: int, l: usize|
                0 <= a < r@.len() && !(exists|b: int| 0 <= b < r@.len() && #[trigger] r@[b].0 == l)
                    implies #[trigger] (self.model().lengths)(l as nat) <= #[trigger] r@[a].1 by {
                if self.length_count(l as nat) > 0 {
                    assert(l < self.lengths@.len());
                    assert(ls@.contains(l));
                    let j = choose|j: int| 0 <= j < ls@.len() && ls@[j] == l;
                    assert(j < cs_len);
                    assert((j as usize) as int == j);
                    if idx@.contains(j as usize) {
                        let b = choose|b: int| 0 <= b < idx@.len() && idx@[b] == j as usize;
                        assert(idx@[b] as int == j);
                        assert(r@[b] == (ls@[idx@[b] as int], cs@[idx@[b] as int]));
                        assert(r@[b].0 == l);
                    }
                    assert(cs@[j] <= cs@[idx@[a] as int]);
                }
            }
            if r@.len() != n {
                assert forall|l: usize| #[trigger] (self.model().lengths)(l as nat) > 0 implies exists|b: int|
                    0 <= b < r@.len() && #[trigger] r@[b].0 == l by {
                    assert(l < self.lengths@.len());
                    assert(ls@.contains(l));
                    let j = choose|j: int| 0 <= j < ls@.len() && ls@[j] == l;
                    assert(idx@.contains(j as usize));
                    let b = choose|b: int| 0 <= b < idx@.len() && idx@[b] == j as usize;
                    assert(r@[b].0 == l);
                }
            }
        }
        r
    }

    /// For each word length, the most frequent word of that length among the
    /// words counted at least `WORD_FLOOR` times (on a tie, the one met later),
    /// with its count, by increasing length.
    pub fn words_by_length(&self) -> (r: Vec<(usize, String, u64)>)
        requires
            self.wf(),
        ensures
            forall|a: int, b: int| 0 <= a < b < r@.len() ==> r@[a].0 < r@[b].0,
            forall|a: int| 0 <= a < r@.len() ==> (#[trigger] r@[a]).1@.len() == r@[a].0,
            forall|a: int| 0 <= a < r@.len() ==> #[trigger] r@[a].2 == (self.model().words)(r@[a].1@),
            forall|a: int| 0 <= a < r@.len() ==> #[trigger] r@[a].2 >= WORD_FLOOR,
            forall|a: int| 0 <= a < r@.len() ==> self.word_keys().contains(#[trigger] r@[a].1@),
            forall|k: Seq<char>|
                #![trigger self.word_keys().contains(k)]
                self.word_keys().contains(k) && (self.model().words)(k) >= WORD_FLOOR ==> exists|a: int|
                    0 <= a < r@.len() && #[trigger] r@[a].0 == k.len() && (self.model().words)(k) <= r@[a].2,
            forall|a: int, w2: int|
                #![trigger r@[a], self.word_keys()[w2]]
                0 <= a < r@.len() && find_in(self.word_keys(), r@[a].1@, 0) < w2 < self.word_keys().len()
                    && self.word_keys()[w2].len() == r@[a].0 ==> (self.model().words)(self.word_keys()[w2])
                    != r@[a].2,
    {
        let ghost ks = self.words.key_seq();
        let mut best: Vec<Option<(usize, u64)>> = Vec::new();
        let mut j: usize = 0;
        while j < self.words.len()
            invariant
                self.wf(),
                ks == self.words.key_seq(),
                j <= ks.len(),
                forall|l: int|
                    0 <= l < best@.len() ==> match #[trigger] best@[l] {
                        Some((w, c)) => w < j && ks[w as int].len() == l && c == self.words.count(ks[w as int])
                            && c >= WORD_FLOOR && self.no_later_tie(ks, j as int, l, w as int, c),
                        None => true,
                    },
                forall|w: int|
                    0 <= w < j && #[trigger] self.words.count(ks[w]) >= WORD_FLOOR ==> ks[w].len() < best@.len()
                        && match best@[ks[w].len() as int] {
                        Some((_, c)) => self.words.count(ks[w]) <= c,
                        None => false,
                    },
            decreases ks.len() - j,
        {
            let (k, c) = self.words.entry(j);
            if c >= WORD_FLOOR {
                let len = k.as_str().unicode_len();
                while best.len() <= len
                    invariant
                        forall|l: int|
                            0 <= l < best@.len() ==> match #[trigger] best@[l] {
                                Some((w, c)) => w < j && ks[w as int].len() == l && c == self.words.count(
                                    ks[w as int],
                                ) && c >= WORD_FLOOR && self.no_later_tie(ks, j as int, l, w as int, c),
                                None => true,
                            },
                        forall|w: int|
                            0 <= w < j && #[trigger] self.words.count(ks[w]) >= WORD_FLOOR ==> ks[w].len()
                                < best@.len() && match best@[ks[w].len() as int] {
                                Some((_, c)) => self.words.count(ks[w]) <= c,
                                None => false,
                            },
                    decreases len + 1 - best@.len(),
                {
                    best.push(None);
                }
                let replace = match best[len] {
                    Some((_, bc)) => c >= bc,
                    None => true,
                };
                if replace {
                    best.set(len, Some((j, c)));
                }
            }
            j = j + 1;
        }
        let mut r: Vec<(usize, String, u64)> = Vec::new();
        let mut l: usize = 0;
        while l < best.len()
            invariant
                self.wf(),
                ks == self.words.key_seq(),
                forall|x: int|
                    0 <= x < best@.len() ==> match #[trigger] best@[x] {
                        Some((w, c)) => w < ks.len() && ks[w as int].len() == x && c == self.words.count(ks[w as int])
                            && c >= WORD_FLOOR && self.no_later_tie(ks, ks.len() as int, x, w as int, c),
                        None => true,
                    },
                l <= best@.len(),
                forall|a: int, b: int| 0 <= a < b < r@.len() ==> r@[a].0 < r@[b].0,
                forall|a: int| 0 <= a < r@.len() ==> #[trigger] r@[a].0 < l,
                forall|a: int|
                    0 <= a < r@.len() ==> match best@[(#[trigger] r@[a]).0 as int] {
                        Some((w, c)) => r@[a].1@ == ks[w as int] && r@[a].2 == c && find_in(ks, ks[w as int], 0)
                            == w,
                        None => false,
                    },
                forall|x: int|
                    0 <= x < l ==> match #[trigger] best@[x] {
                        Some(_) => exists|a: int| 0 <= a < r@.len() && #[trigger] r@[a].0 == x,
                        None => true,
                    },
            decreases best.len() - l,
        {
            let ghost old_r = r@;
            match best[l] {
                Some((w, c)) => {
                    let (k, _) = self.words.entry(w);
                    r.push((l, k.clone(), c));
                    assert(r@[r@.len() - 1].0 == l);
                },
                None => {},
            }
            proof {
                assert forall|x: int|
                    0 <= x < l + 1 implies match #[trigger] best@[x] {
                        Some(_) => exists|a: int| 0 <= a < r@.len() && #[trigger] r@[a].0 == x,
                        None => true,
                    } by {
                    if x < l && best@[x] is Some {
                        let a = choose|a: int| 0 <= a < old_r.len() && #[trigger] old_r[a].0 == x;
                        assert(r@[a].0 == x);
                    }
                }
            }
            l = l + 1;
        }
        proof {
            assert forall|a: int, w2: int|
                #![trigger r@[a], self.word_keys()[w2]]
                0 <= a < r@.len() && find_in(self.word_keys(), r@[a].1@, 0) < w2 < self.word_keys().len()
                    && self.word_keys()[w2].len() == r@[a].0 implies (self.model().words)(self.word_keys()[w2])
                    != r@[a].2 by {
                match best@[r@[a].0 as int] {
                    Some((w, c)) => {
                        assert(self.no_later_tie(ks, ks.len() as int, r@[a].0 as int, w as int, c));
                        assert(self.words.count(ks[w2]) != c);
                    },
                    None => {},
                }
            }
            assert forall|a: int| 0 <= a < r@.len() implies self.words.key_seq().contains(#[trigger] r@[a].1@) by {
                match best@[r@[a].0 as int] {
                    Some((w, c)) => {
                        assert(ks[w as int] == r@[a].1@);
                    },
                    None => {},
                }
            }
            assert forall|k: Seq<char>|
                #![trigger self.words.key_seq().contains(k)]
                self.words.key_seq().contains(k) && (self.model().words)(k) >= WORD_FLOOR implies exists|a: int|
                    0 <= a < r@.len() && #[trigger] r@[a].0 == k.len() && (self.model().words)(k) <= r@[a].2 by {
                let w = choose|w: int| 0 <= w < ks.len() && ks[w] == k;
                assert(self.words.count(ks[w]) >= WORD_FLOOR);
                let x = k.len() as int;
                assert(best@[x] is Some);
                let a = choose|a: int| 0 <= a < r@.len() && #[trigger] r@[a].0 == x;
                assert(r@[a].0 == k.len());
            }
        }
        r
    }

    /// The nickname and word keys are exactly those with a non-zero count.
    pub proof fn lemma_keys_are_counted(&self)
        requires
            self.wf(),
        ensures
            forall|k: Seq<char>| #[trigger] self.user_keys().contains(k) <==> (self.model().users)(k) > 0,
            forall|k: Seq<char>| #[trigger] self.word_keys().contains(k) <==> (self.model().words)(k) > 0,
    {
        self.users.lemma_keys_are_counted();
        self.words.lemma_keys_are_counted();
    }

    /// No key after position `w` and before `upto` has length `l` and count `c`.
    closed spec fn no_later_tie(&self, ks: Seq<Seq<char>>, upto: int, l: int, w: int, c: u64) -> bool {
        forall|w2: int| w < w2 < upto && ks[w2].len() == l ==> #[trigger] self.words.count(ks[w2]) != c
    }

    proof fn lemma_length_bounded(&self, l: nat)
        ensures
            self.length_count(l) <= u64::MAX,
    {
    }
}

/// Every count fits in a `u64`.
pub open spec fn bounded(m: AggModel) -> bool {
    &&& forall|k: Seq<char>| #[trigger] (m.users)(k) <= u64::MAX
    &&& forall|l: nat| #[trigger] (m.lengths)(l) <= u64::MAX
    &&& forall|w: Seq<char>| #[trigger] (m.words)(w) <= u64::MAX
}

/// The chat events of `lines`, in order; other lines are left out.
pub open spec fn parsed(lines: Seq<Seq<char>>) -> Seq<EventView>
    decreases lines.len(),
{
    if lines.len() == 0 {
        seq![]
    } else {
        match parse_line(lines.last()) {
            Some(e) => parsed(lines.drop_last()).push(e),
            None => parsed(lines.drop_last()),
        }
    }
}

proof fn lemma_parsed_append(l1: Seq<Seq<char>>, l2: Seq<Seq<char>>)
    ensures
        parsed(l1 + l2) == parsed(l1) + parsed(l2),
    decreases l2.len(),
{
    if l2.len() == 0 {
        assert(l1 + l2 =~= l1);
        assert(parsed(l1) + parsed(l2) =~= parsed(l1));
    } else {
        assert((l1 + l2).drop_last() =~= l1 + l2.drop_last());
        assert((l1 + l2).last() == l2.last());
        lemma_parsed_append(l1, l2.drop_last());
        match parse_line(l2.last()) {
            Some(e) => {
                assert(parsed(l1) + parsed(l2) =~= (parsed(l1) + parsed(l2.drop_last())).push(e));
            },
            None => {},
        }
    }
}

proof fn lemma_update_congruent(x: AggModel, y: AggModel, e: EventView)
    requires
        same_model(x, y),
    ensures
        same_model(update_model(x, e), update_model(y, e)),
{
}

/// Aggregating two files one after the other gives the same statistics as
/// aggregating each file apart and merging the results.
pub proof fn lemma_partitioned_files(
    ign: spec_fn(Seq<char>) -> bool,
    f1: Seq<Seq<char>>,
    f2: Seq<Seq<char>>,
)
    ensures
        same_model(
            fold_model(empty_model(ign), parsed(f1 + f2)),
            merge_model(fold_model(empty_model(ign), parsed(f1)), fold_model(empty_model(ign), parsed(f2))),
        ),
{
    lemma_parsed_append(f1, f2);
    lemma_partitioned_aggregation(ign, parsed(f1), parsed(f2));
}

/// An event whose nickname is ignored leaves every statistic as it was.
pub proof fn lemma_ignored_event_changes_nothing(m: AggModel, e: EventView)
    requires
        (m.ignored)(e.1),
    ensures
        update_model(m, e) == m,
{
}

proof fn lemma_fold_keeps_ignored(m: AggModel, evs: Seq<EventView>)
    ensures
        fold_model(m, evs).ignored == m.ignored,
        bounded(m) ==> bounded(fold_model(m, evs)),
    decreases evs.len(),
{
    if evs.len() > 0 {
        lemma_fold_keeps_ignored(m, evs.drop_last());
    }
}

proof fn lemma_fold_append(m: AggModel, e1: Seq<EventView>, e2: Seq<EventView>)
    ensures
        fold_model(m, e1 + e2) == fold_model(fold_model(m, e1), e2),
    decreases e2.len(),
{
    if e2.len() == 0 {
        assert(e1 + e2 =~= e1);
    } else {
        assert((e1 + e2).drop_last() =~= e1 + e2.drop_last());
        assert((e1 + e2).last() == e2.last());
        lemma_fold_append(m, e1, e2.drop_last());
    }
}

proof fn lemma_fold_into(a: AggModel, evs: Seq<EventView>, ign: spec_fn(Seq<char>) -> bool)
    requires
        forall|k: Seq<char>| #[trigger] (a.ignored)(k) == ign(k),
        bounded(a),
    ensures
        same_model(fold_model(a, evs), merge_model(a, fold_model(empty_model(ign), evs))),
    decreases evs.len(),
{
    let em = empty_model(ign);
    if evs.len() == 0 {
        assert(a.chain + em.chain =~= a.chain);
    } else {
        let p = evs.drop_last();
        let e = evs.last();
        lemma_fold_into(a, p, ign);
        lemma_fold_keeps_ignored(a, p);
        lemma_fold_keeps_ignored(em, p);
        let x = fold_model(a, p);
        let f = fold_model(em, p);
        let lhs = update_model(x, e);
        let rhs = merge_model(a, update_model(f, e));
        if !ign(e.1) {
            assert(lhs.chain =~= rhs.chain);
            assert forall|k: Seq<char>| #[trigger] (lhs.users)(k) == (rhs.users)(k) by {
                assert((x.users)(k) == sat_add((a.users)(k), (f.users)(k)));
            }
            assert forall|l: nat| #[trigger] (lhs.lengths)(l) == (rhs.lengths)(l) by {
                assert((x.lengths)(l) == sat_add((a.lengths)(l), (f.lengths)(l)));
            }
            assert forall|w: Seq<char>| #[trigger] (lhs.words)(w) == (rhs.words)(w) by {
                assert((x.words)(w) == sat_add((a.words)(w), (f.words)(w)));
            }
            assert forall|y: Seq<char>| #[trigger] (lhs.lines)(y) == (rhs.lines)(y) by {
                assert((x.lines)(y) == ((a.lines)(y) || (f.lines)(y)));
            }
        }
    }
}

/// Aggregating a corpus in one pass gives the same statistics as aggregating
/// two parts of it apart and merging the results.
pub proof fn lemma_partitioned_aggregation(
    ign: spec_fn(Seq<char>) -> bool,
    e1: Seq<EventView>,
    e2: Seq<EventView>,
)
    ensures
        same_model(
            fold_model(empty_model(ign), e1 + e2),
            merge_model(fold_model(empty_model(ign), e1), fold_model(empty_model(ign), e2)),
        ),
{
    let em = empty_model(ign);
    lemma_fold_append(em, e1, e2);
    lemma_fold_keeps_ignored(em, e1);
    lemma_fold_into(fold_model(em, e1), e2, ign);
}

/// Merging is associative: how partial results are grouped does not matter.
pub proof fn lemma_merge_associative(a: AggModel, b: AggModel, c: AggModel)
    ensures
        same_model(merge_model(merge_model(a, b), c), merge_model(a, merge_model(b, c))),
{
    assert((a.chain + b.chain) + c.chain =~= a.chain + (b.chain + c.chain));
}

/// Merging is commutative: the counts and the message sets agree either way,
/// and the chains record the same transitions, each as often.
pub proof fn lemma_merge_commutative(a: AggModel, b: AggModel)
    requires
        forall|k: Seq<char>| #[trigger] (a.ignored)(k) == (b.ignored)(k),
    ensures
        same_model(
            merge_model(a, b),
            AggModel { chain: merge_model(a, b).chain, ..merge_model(b, a) },
        ),
        merge_model(a, b).chain.to_multiset() == merge_model(b, a).chain.to_multiset(),
{
    vstd::seq_lib::lemma_seq_union_to_multiset_commutative(a.chain, b.chain);
}

} // verus!
