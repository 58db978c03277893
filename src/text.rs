use vstd::prelude::*;

verus! {

/// The Unicode White_Space property, which `char::is_whitespace` tests.
pub open spec fn is_space(c: char) -> bool {
    let u = c as u32;
    (0x9 <= u && u <= 0xd) || u == 0x20 || u == 0x85 || u == 0xa0 || u == 0x1680 || (0x2000 <= u
        && u <= 0x200a) || u == 0x2028 || u == 0x2029 || u == 0x202f || u == 0x205f || u == 0x3000
}

/// Whether std's `char::is_alphanumeric` holds of `c`.
pub uninterp spec fn is_alnum(c: char) -> bool;

/// What std's `str::to_lowercase` makes of a string.
pub uninterp spec fn lower_of(s: Seq<char>) -> Seq<char>;

/// Relies on `str::chars` collected into a `Vec`: the characters of `s`, in order.
#[verifier::external_body]
pub(crate) fn chars_of(s: &str) -> (r: Vec<char>)
    ensures
        r@ == s@,
{
    s.chars().collect()
}

/// Relies on collecting an iterator of `char` into a `String`: the same characters, in order.
#[verifier::external_body]
pub(crate) fn string_of(v: &Vec<char>) -> (r: String)
    ensures
        r@ == v@,
{
    v.iter().collect()
}

/// Whether `c` is whitespace in the Unicode sense.
pub fn char_is_whitespace(c: char) -> (r: bool)
    ensures
        r == is_space(c),
{
    let u = c as u32;
    (0x9 <= u && u <= 0xd) || u == 0x20 || u == 0x85 || u == 0xa0 || u == 0x1680 || (0x2000 <= u
        && u <= 0x200a) || u == 0x2028 || u == 0x2029 || u == 0x202f || u == 0x205f || u == 0x3000
}

/// Relies on `char::is_alphanumeric`.
#[verifier::external_body]
pub(crate) fn char_is_alphanumeric(c: char) -> (r: bool)
    ensures
        r == is_alnum(c),
{
    c.is_alphanumeric()
}

/// Relies on `str::to_lowercase`: the result depends on the characters alone.
#[verifier::external_body]
pub(crate) fn lowercase(s: &str) -> (r: String)
    ensures
        r@ == lower_of(s@),
{
    s.to_lowercase()
}

/// The maximal runs of non-whitespace characters of `s`, in order.
pub open spec fn split_runs(s: Seq<char>) -> Seq<Seq<char>>
    decreases s.len(),
{
    if s.len() == 0 {
        seq![]
    } else {
        let p = split_runs(s.drop_last());
        let c = s.last();
        if is_space(c) {
            p
        } else if s.len() >= 2 && !is_space(s[s.len() - 2]) {
            p.update(p.len() - 1, p.last().push(c))
        } else {
            p.push(seq![c])
        }
    }
}

/// The characters of each vector.
pub open spec fn chars_view(v: Seq<Vec<char>>) -> Seq<Seq<char>> {
    v.map_values(|c: Vec<char>| c@)
}

/// The characters of each string.
pub open spec fn strings_view(v: Seq<String>) -> Seq<Seq<char>> {
    v.map_values(|s: String| s@)
}

/// `p` is a prefix of `s`.
pub open spec fn has_prefix(s: Seq<char>, p: Seq<char>) -> bool {
    p.len() <= s.len() && s.subrange(0, p.len() as int) == p
}

pub open spec fn http_prefix() -> Seq<char> {
    seq!['h', 't', 't', 'p', ':', '/', '/']
}

pub open spec fn https_prefix() -> Seq<char> {
    seq!['h', 't', 't', 'p', 's', ':', '/', '/']
}

/// A token that counts as a word: not empty, not a link, and with at least one
/// alphanumeric character.
pub open spec fn content_word(w: Seq<char>) -> bool {
    content_word_given(w, lower_of(w))
}

/// Splits `s` into its maximal runs of non-whitespace characters.
pub fn token_runs(s: &Vec<char>) -> (r: Vec<Vec<char>>)
    ensures
        chars_view(r@) == split_runs(s@),
{
    let mut res: Vec<Vec<char>> = Vec::new();
    let mut cur: Vec<char> = Vec::new();
    let mut i: usize = 0;
    while i < s.len()
        invariant
            i <= s.len(),
            (i > 0 && !is_space(s@[i - 1])) ==> cur@.len() > 0 && split_runs(s@.subrange(0, i as int))
                == chars_view(res@).push(cur@),
            !(i > 0 && !is_space(s@[i - 1])) ==> cur@.len() == 0 && split_runs(s@.subrange(0, i as int))
                == chars_view(res@),
        decreases s.len() - i,
    {
        let c = s[i];
        let sp = char_is_whitespace(c);
        let ghost pre = s@.subrange(0, i as int);
        let ghost nxt = s@.subrange(0, i + 1);
        assert(nxt.drop_last() == pre);
        assert(nxt.last() == c);
        if sp {
            if cur.len() > 0 {
                let ghost old_res = chars_view(res@);
                let ghost old_cur = cur@;
                res.push(cur);
                assert(chars_view(res@) =~= old_res.push(old_cur));
                cur = Vec::new();
            }
            assert(split_runs(nxt) == split_runs(pre));
        } else {
            let ghost old_cur = cur@;
            let ghost old_res = chars_view(res@);
            cur.push(c);
            proof {
                if i > 0 && !is_space(s@[i - 1]) {
                    assert(nxt[nxt.len() - 2] == s@[i - 1]);
                    assert(split_runs(nxt) == old_res.push(old_cur).update(
                        old_res.len() as int,
                        old_cur.push(c),
                    ));
                    assert(split_runs(nxt) =~= old_res.push(cur@));
                } else {
                    assert(split_runs(nxt) == old_res.push(seq![c]));
                    assert(cur@ =~= seq![c]);
                }
            }
        }
        i = i + 1;
    }
    assert(s@.subrange(0, s@.len() as int) == s@);
    if cur.len() > 0 {
        let ghost old_res = chars_view(res@);
        let ghost old_cur = cur@;
        res.push(cur);
        assert(chars_view(res@) =~= old_res.push(old_cur));
    }
    res
}

/// Splits a message into whitespace-separated tokens; runs of whitespace
/// produce no empty tokens.
pub fn words(message: &str) -> (r: Vec<String>)
    ensures
        strings_view(r@) == split_runs(message@),
{
    let cs = chars_of(message);
    let runs = token_runs(&cs);
    let mut out: Vec<String> = Vec::new();
    let mut i: usize = 0;
    while i < runs.len()
        invariant
            i <= runs.len(),
            strings_view(out@) == chars_view(runs@).subrange(0, i as int),
        decreases runs.len() - i,
    {
        let w = string_of(&runs[i]);
        let ghost old_out = strings_view(out@);
        out.push(w);
        assert(strings_view(out@) =~= old_out.push(w@));
        assert(strings_view(out@) =~= chars_view(runs@).subrange(0, i + 1));
        i = i + 1;
    }
    assert(chars_view(runs@).subrange(0, runs.len() as int) =~= chars_view(runs@));
    out
}

fn starts_with_chars(s: &Vec<char>, p: &Vec<char>) -> (r: bool)
    ensures
        r == has_prefix(s@, p@),
{
    if p.len() > s.len() {
        return false;
    }
    let mut i: usize = 0;
    while i < p.len()
        invariant
            p.len() <= s.len(),
            i <= p.len(),
            s@.subrange(0, i as int) == p@.subrange(0, i as int),
        decreases p.len() - i,
    {
        if s[i] != p[i] {
            assert(s@.subrange(0, p.len() as int)[i as int] != p@[i as int]);
            return false;
        }
        assert(s@.subrange(0, i + 1) =~= s@.subrange(0, i as int).push(s@[i as int]));
        assert(p@.subrange(0, i + 1) =~= p@.subrange(0, i as int).push(p@[i as int]));
        i = i + 1;
    }
    assert(p@.subrange(0, p.len() as int) =~= p@);
    true
}

/// A token counts as a word given its lowercase form `lowered`: it is not
/// empty, `lowered` starts with neither `http://` nor `https://`, and the
/// token holds an alphanumeric character.
pub open spec fn content_word_given(w: Seq<char>, lowered: Seq<char>) -> bool {
    &&& w.len() > 0
    &&& !has_prefix(lowered, http_prefix())
    &&& !has_prefix(lowered, https_prefix())
    &&& exists|i: int| 0 <= i < w.len() && is_alnum(#[trigger] w[i])
}

/// Whether `word`, whose lowercase form is `lowered`, counts as a word.
pub fn is_content_word_lowered(word: &str, lowered: &str) -> (r: bool)
    ensures
        r == content_word_given(word@, lowered@),
{
    let cs = chars_of(word);
    if cs.len() == 0 {
        return false;
    }
    let lc = chars_of(lowered);
    let http = vec!['h', 't', 't', 'p', ':', '/', '/'];
    let https = vec!['h', 't', 't', 'p', 's', ':', '/', '/'];
    assert(http@ == http_prefix());
    assert(https@ == https_prefix());
    if starts_with_chars(&lc, &http) || starts_with_chars(&lc, &https) {
        return false;
    }
    let mut i: usize = 0;
    while i < cs.len()
        invariant
            i <= cs.len(),
            cs@ == word@,
            word@.len() > 0,
            !has_prefix(lowered@, http_prefix()),
            !has_prefix(lowered@, https_prefix()),
            forall|k: int| 0 <= k < i ==> !is_alnum(#[trigger] cs@[k]),
        decreases cs.len() - i,
    {
        if char_is_alphanumeric(cs[i]) {
            assert(is_alnum(word@[i as int]));
            return true;
        }
        i = i + 1;
    }
    false
}

/// Whether a token counts as a word: it is not empty, its lowercase form starts
/// with neither `http://` nor `https://`, and it holds an alphanumeric character.
pub fn is_content_word(word: &str) -> (r: bool)
    ensures
        r == content_word(word@),
{
    let low = lowercase(word);
    is_content_word_lowered(word, low.as_str())
}

} // verus!
