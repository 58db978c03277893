use vstd::prelude::*;
use crate::text::chars_of;

verus! {

/// One chat line taken apart: when it was said, by whom, and what.
pub struct ChatEvent {
    pub timestamp: String,
    pub nickname: String,
    pub message: String,
}

/// The three parts of a chat line, as character sequences.
pub type EventView = (Seq<char>, Seq<char>, Seq<char>);

impl ChatEvent {
    pub open spec fn view(&self) -> EventView {
        (self.timestamp@, self.nickname@, self.message@)
    }
}

/// The blanks that may stand around the delimiters.
pub open spec fn is_blank(c: char) -> bool {
    c == ' ' || c == '\t' || c == '\r' || c == '\n'
}

/// The first index at or after `i` that does not hold a blank.
pub open spec fn skip_blank(s: Seq<char>, i: int) -> int
    decreases s.len() - i,
{
    if 0 <= i < s.len() && is_blank(s[i]) {
        skip_blank(s, i + 1)
    } else {
        i
    }
}

/// The first index at or after `i` that holds `c`, or the length of `s`.
pub open spec fn find_char(s: Seq<char>, c: char, i: int) -> int
    decreases s.len() - i,
{
    if i >= s.len() {
        s.len() as int
    } else if 0 <= i && s[i] == c {
        i
    } else {
        find_char(s, c, i + 1)
    }
}

/// `[time] <nick> message`, with blanks allowed around the bracketed parts.
pub open spec fn parse_bracketed(s: Seq<char>) -> Option<EventView> {
    let a = skip_blank(s, 0);
    if a < s.len() && s[a] == '[' {
        let b = find_char(s, ']', a + 1);
        if b < s.len() && b > a + 1 {
            let c = skip_blank(s, b + 1);
            if c < s.len() && s[c] == '<' {
                let d = find_char(s, '>', c + 1);
                if d < s.len() && d > c + 1 {
                    Some(
                        (
                            s.subrange(a + 1, b),
                            s.subrange(c + 1, d),
                            s.subrange(skip_blank(s, d + 1), s.len() as int),
                        ),
                    )
                } else {
                    None
                }
            } else {
                None
            }
        } else {
            None
        }
    } else {
        None
    }
}

/// `time < nick> message`: the time runs up to the first space.
pub open spec fn parse_bare(s: Seq<char>) -> Option<EventView> {
    let t = find_char(s, ' ', 0);
    if t < s.len() {
        let c = skip_blank(s, t);
        if c + 1 < s.len() && s[c] == '<' && s[c + 1] == ' ' {
            let d = find_char(s, '>', c + 2);
            if d < s.len() {
                Some(
                    (
                        s.subrange(0, t),
                        s.subrange(c + 2, d),
                        s.subrange(skip_blank(s, d + 1), s.len() as int),
                    ),
                )
            } else {
                None
            }
        } else {
            None
        }
    } else {
        None
    }
}

/// A line is read by the bracketed form first, then by the bare form.
pub open spec fn parse_line(s: Seq<char>) -> Option<EventView> {
    match parse_bracketed(s) {
        Some(e) => Some(e),
        None => parse_bare(s),
    }
}

proof fn lemma_find_char(s: Seq<char>, c: char, i: int, j: int)
    requires
        0 <= i <= j <= s.len(),
        forall|k: int| i <= k < j ==> s[k] != c,
        j < s.len() ==> s[j] == c,
    ensures
        find_char(s, c, i) == j,
    decreases j - i,
{
    if i < j {
        lemma_find_char(s, c, i + 1, j);
    }
}

proof fn lemma_skip_blank(s: Seq<char>, i: int, j: int)
    requires
        0 <= i <= j <= s.len(),
        forall|k: int| i <= k < j ==> is_blank(s[k]),
        j < s.len() ==> !is_blank(s[j]),
    ensures
        skip_blank(s, i) == j,
    decreases j - i,
{
    if i < j {
        lemma_skip_blank(s, i + 1, j);
    }
}

/// All characters of `w` are blanks.
pub open spec fn all_blank(w: Seq<char>) -> bool {
    forall|k: int| 0 <= k < w.len() ==> is_blank(#[trigger] w[k])
}

/// `[time] <nick> message`, with the runs of blanks `w0`, `w1`, `w2` before
/// the time, before the nickname and before the message.
pub open spec fn bracketed_line(
    w0: Seq<char>,
    ts: Seq<char>,
    w1: Seq<char>,
    nick: Seq<char>,
    w2: Seq<char>,
    msg: Seq<char>,
) -> Seq<char> {
    w0 + seq!['['] + ts + seq![']'] + w1 + seq!['<'] + nick + seq!['>'] + w2 + msg
}

/// `time < nick> message`, with the runs of blanks `w1` (which opens with a
/// space) before the `<` and `w2` before the message.
pub open spec fn bare_line(
    ts: Seq<char>,
    w1: Seq<char>,
    nick: Seq<char>,
    w2: Seq<char>,
    msg: Seq<char>,
) -> Seq<char> {
    ts + w1 + seq!['<', ' '] + nick + seq!['>'] + w2 + msg
}

/// A bracketed line gives back the time, nickname and message it was built
/// from, when the time holds no `]`, the nickname no `>`, neither is empty, and
/// the message does not begin with a blank.
pub proof fn lemma_parse_bracketed_round_trip(
    w0: Seq<char>,
    ts: Seq<char>,
    w1: Seq<char>,
    nick: Seq<char>,
    w2: Seq<char>,
    msg: Seq<char>,
)
    requires
        all_blank(w0),
        all_blank(w1),
        all_blank(w2),
        ts.len() > 0,
        nick.len() > 0,
        forall|k: int| 0 <= k < ts.len() ==> ts[k] != ']',
        forall|k: int| 0 <= k < nick.len() ==> nick[k] != '>',
        msg.len() > 0 ==> !is_blank(msg[0]),
    ensures
        parse_line(bracketed_line(w0, ts, w1, nick, w2, msg)) == Some((ts, nick, msg)),
{
    let s = bracketed_line(w0, ts, w1, nick, w2, msg);
    let a = w0.len() as int;
    let b = a + 1 + ts.len();
    let c = b + 1 + w1.len();
    let d = c + 1 + nick.len();
    let m = d + 1 + w2.len();
    assert forall|k: int| 0 <= k < a implies is_blank(s[k]) by {
        assert(s[k] == w0[k]);
    }
    assert(s[a] == '[');
    lemma_skip_blank(s, 0, a);
    assert forall|k: int| a + 1 <= k < b implies s[k] != ']' by {
        assert(s[k] == ts[k - a - 1]);
    }
    assert(s[b] == ']');
    lemma_find_char(s, ']', a + 1, b);
    assert forall|k: int| b + 1 <= k < c implies is_blank(s[k]) by {
        assert(s[k] == w1[k - b - 1]);
    }
    assert(s[c] == '<');
    lemma_skip_blank(s, b + 1, c);
    assert forall|k: int| c + 1 <= k < d implies s[k] != '>' by {
        assert(s[k] == nick[k - c - 1]);
    }
    assert(s[d] == '>');
    lemma_find_char(s, '>', c + 1, d);
    assert forall|k: int| d + 1 <= k < m implies is_blank(s[k]) by {
        assert(s[k] == w2[k - d - 1]);
    }
    if msg.len() > 0 {
        assert(s[m] == msg[0]);
    }
    lemma_skip_blank(s, d + 1, m);
    assert(s.subrange(a + 1, b) =~= ts);
    assert(s.subrange(c + 1, d) =~= nick);
    assert(s.subrange(m, s.len() as int) =~= msg);
}

/// A bare line gives back the time, nickname and message it was built from,
/// when the time holds no space, does not open with `[` or a blank, the
/// nickname holds no `>`, and the message does not begin with a blank.
pub proof fn lemma_parse_bare_round_trip(
    ts: Seq<char>,
    w1: Seq<char>,
    nick: Seq<char>,
    w2: Seq<char>,
    msg: Seq<char>,
)
    requires
        ts.len() > 0,
        ts[0] != '[',
        !is_blank(ts[0]),
        forall|k: int| 0 <= k < ts.len() ==> ts[k] != ' ',
        w1.len() > 0,
        w1[0] == ' ',
        all_blank(w1),
        all_blank(w2),
        forall|k: int| 0 <= k < nick.len() ==> nick[k] != '>',
        msg.len() > 0 ==> !is_blank(msg[0]),
    ensures
        parse_line(bare_line(ts, w1, nick, w2, msg)) == Some((ts, nick, msg)),
{
    let s = bare_line(ts, w1, nick, w2, msg);
    let t = ts.len() as int;
    let c = t + w1.len();
    let d = c + 2 + nick.len();
    let m = d + 1 + w2.len();
    assert(s[0] == ts[0]);
    lemma_skip_blank(s, 0, 0);
    assert(parse_bracketed(s) is None);
    assert forall|k: int| 0 <= k < t implies s[k] != ' ' by {
        assert(s[k] == ts[k]);
    }
    assert(s[t] == w1[0]);
    lemma_find_char(s, ' ', 0, t);
    assert forall|k: int| t <= k < c implies is_blank(s[k]) by {
        assert(s[k] == w1[k - t]);
    }
    assert(s[c] == '<');
    lemma_skip_blank(s, t, c);
    assert(s[c + 1] == ' ');
    assert forall|k: int| c + 2 <= k < d implies s[k] != '>' by {
        assert(s[k] == nick[k - c - 2]);
    }
    assert(s[d] == '>');
    lemma_find_char(s, '>', c + 2, d);
    assert forall|k: int| d + 1 <= k < m implies is_blank(s[k]) by {
        assert(s[k] == w2[k - d - 1]);
    }
    if msg.len() > 0 {
        assert(s[m] == msg[0]);
    }
    lemma_skip_blank(s, d + 1, m);
    assert(s.subrange(0, t) =~= ts);
    assert(s.subrange(c + 2, d) =~= nick);
    assert(s.subrange(m, s.len() as int) =~= msg);
}

proof fn lemma_skip_blank_bounds(s: Seq<char>, i: int)
    requires
        0 <= i <= s.len(),
    ensures
        i <= skip_blank(s, i) <= s.len(),
    decreases s.len() - i,
{
    if i < s.len() && is_blank(s[i]) {
        lemma_skip_blank_bounds(s, i + 1);
    }
}

proof fn lemma_find_char_bounds(s: Seq<char>, c: char, i: int)
    requires
        0 <= i,
    ensures
        i <= s.len() ==> i <= find_char(s, c, i) <= s.len(),
        i > s.len() ==> find_char(s, c, i) == s.len(),
    decreases s.len() - i,
{
    if i < s.len() && s[i] != c {
        lemma_find_char_bounds(s, c, i + 1);
    }
}

/// A line without an opening `<` is no chat line.
pub proof fn lemma_unopened_nick_rejected(s: Seq<char>)
    requires
        forall|k: int| 0 <= k < s.len() ==> s[k] != '<',
    ensures
        parse_line(s) is None,
{
    lemma_skip_blank_bounds(s, 0);
    let a = skip_blank(s, 0);
    lemma_find_char_bounds(s, ']', a + 1);
    let b = find_char(s, ']', a + 1);
    if b < s.len() {
        lemma_skip_blank_bounds(s, b + 1);
    }
    lemma_find_char_bounds(s, ' ', 0);
    let t = find_char(s, ' ', 0);
    if t <= s.len() {
        lemma_skip_blank_bounds(s, t);
    }
}

/// A line whose `[` is never closed, and that holds no space, is no chat line.
pub proof fn lemma_unclosed_bracket_rejected(s: Seq<char>)
    requires
        forall|k: int| 0 <= k < s.len() ==> s[k] != ']' && s[k] != ' ',
    ensures
        parse_line(s) is None,
{
    lemma_skip_blank_bounds(s, 0);
    let a = skip_blank(s, 0);
    if a + 1 <= s.len() {
        lemma_find_char(s, ']', a + 1, s.len() as int);
    }
    lemma_find_char(s, ' ', 0, s.len() as int);
}

/// A line without a closing `>` is no chat line.
pub proof fn lemma_unclosed_nick_rejected(s: Seq<char>)
    requires
        forall|k: int| 0 <= k < s.len() ==> s[k] != '>',
    ensures
        parse_line(s) is None,
{
    let a = skip_blank(s, 0);
    lemma_skip_blank_bounds(s, 0);
    let b = find_char(s, ']', a + 1);
    lemma_find_char_bounds(s, ']', a + 1);
    if b < s.len() {
        let c = skip_blank(s, b + 1);
        lemma_skip_blank_bounds(s, b + 1);
        if c < s.len() {
            lemma_find_char(s, '>', c + 1, s.len() as int);
        }
    }
    let t = find_char(s, ' ', 0);
    lemma_find_char_bounds(s, ' ', 0);
    let c2 = skip_blank(s, t);
    lemma_skip_blank_bounds(s, t);
    if c2 + 2 <= s.len() {
        lemma_find_char(s, '>', c2 + 2, s.len() as int);
    }
}

fn skip_blank_at(s: &Vec<char>, i: usize) -> (r: usize)
    requires
        i <= s.len(),
    ensures
        r == skip_blank(s@, i as int),
        i <= r <= s.len(),
{
    let mut j = i;
    while j < s.len() && (s[j] == ' ' || s[j] == '\t' || s[j] == '\r' || s[j] == '\n')
        invariant
            i <= j <= s.len(),
            skip_blank(s@, i as int) == skip_blank(s@, j as int),
        decreases s.len() - j,
    {
        j = j + 1;
    }
    j
}

fn find_char_at(s: &Vec<char>, c: char, i: usize) -> (r: usize)
    requires
        i <= s.len(),
    ensures
        r == find_char(s@, c, i as int),
        i <= r <= s.len(),
{
    let mut j = i;
    while j < s.len() && s[j] != c
        invariant
            i <= j <= s.len(),
            find_char(s@, c, i as int) == find_char(s@, c, j as int),
        decreases s.len() - j,
    {
        j = j + 1;
    }
    j
}

fn event_of(line: &str, t0: usize, t1: usize, n0: usize, n1: usize, m0: usize) -> (r: ChatEvent)
    requires
        t0 <= t1 <= line@.len(),
        n0 <= n1 <= line@.len(),
        m0 <= line@.len(),
    ensures
        r.view() == (
            line@.subrange(t0 as int, t1 as int),
            line@.subrange(n0 as int, n1 as int),
            line@.subrange(m0 as int, line@.len() as int),
        ),
{
    let n = line.unicode_len();
    ChatEvent {
        timestamp: line.substring_char(t0, t1).to_owned(),
        nickname: line.substring_char(n0, n1).to_owned(),
        message: line.substring_char(m0, n).to_owned(),
    }
}

/// Reads one log line as a chat event; lines of any other shape give `None`.
pub fn parse_znc_line(line: &str) -> (r: Option<ChatEvent>)
    ensures
        r matches Some(e) ==> parse_line(line@) == Some(e.view()),
        r is None ==> parse_line(line@) is None,
{
    let s = chars_of(line);
    let len = s.len();
    let a = skip_blank_at(&s, 0);
    if a < len && s[a] == '[' {
        let b = find_char_at(&s, ']', a + 1);
        if b < len && b > a + 1 {
            let c = skip_blank_at(&s, b + 1);
            if c < len && s[c] == '<' {
                let d = find_char_at(&s, '>', c + 1);
                if d < len && d > c + 1 {
                    let m = skip_blank_at(&s, d + 1);
                    return Some(event_of(line, a + 1, b, c + 1, d, m));
                }
            }
        }
    }
    assert(parse_bracketed(s@) is None);
    let t = find_char_at(&s, ' ', 0);
    if t < len {
        let c = skip_blank_at(&s, t);
        if c < len && c + 1 < len && s[c] == '<' && s[c + 1] == ' ' {
            let d = find_char_at(&s, '>', c + 2);
            if d < len {
                let m = skip_blank_at(&s, d + 1);
                return Some(event_of(line, 0, t, c + 2, d, m));
            }
        }
    }
    None
}

} // verus!
