use marky::aggregate::Aggregator;
use marky::chain::{MarkovChain, MAX_STEPS};
use marky::nick::similar_to_nick;
use marky::parse::parse_znc_line;
use marky::report::top_indices;
use marky::text::{is_content_word, is_content_word_lowered, words};

#[test]
fn znc_line_test() {
    let test_str = "[00:47:47] <emilsp> Dawgora: kekekekekekekekekekekekek";
    let result = parse_znc_line(test_str);
    assert!(result.is_some());
}

#[test]
fn irssi_line_test() {
    let test_str = "07:37 < Aleksejs> http://www.sciencealert.com/images/articles/processed/PurityXKCD_web_1024.jpg";
    let result = parse_znc_line(test_str);
    assert!(result.is_some());
}

#[test]
fn test_similarity() {
    assert!(!similar_to_nick("pisies", "sie"));
    assert!(similar_to_nick("alolsejs", "aleksejs"));
    // Three edits apart ("e" and "k" replaced, the last "s" dropped), over
    // the tolerance of two that an eight-letter nickname allows.
    assert!(!similar_to_nick("aloxsej", "aleksejs"));
    assert!(!similar_to_nick("panika", "tatra"));
    assert!(!similar_to_nick("dianshi,", "tatra"));
}

#[test]
fn bracketed_line_fields() {
    let e = parse_znc_line("[00:47:47] <emilsp> Dawgora: kekekekekekekekekekekekek").unwrap();
    assert_eq!(e.timestamp, "00:47:47");
    assert_eq!(e.nickname, "emilsp");
    assert_eq!(e.message, "Dawgora: kekekekekekekekekekekekek");
}

#[test]
fn bare_line_fields() {
    let e = parse_znc_line("07:37 < Aleksejs> http://example.com/x.jpg").unwrap();
    assert_eq!(e.timestamp, "07:37");
    assert_eq!(e.nickname, "Aleksejs");
    assert_eq!(e.message, "http://example.com/x.jpg");
}

#[test]
fn empty_message_and_blank_nick_accepted() {
    let e = parse_znc_line("[1] < >").unwrap();
    assert_eq!(e.timestamp, "1");
    assert_eq!(e.nickname, " ");
    assert_eq!(e.message, "");
}

#[test]
fn unmatched_delimiters_rejected() {
    assert!(parse_znc_line("[10:00 <alice hello").is_none());
    assert!(parse_znc_line("[10:00] <alice hello").is_none());
    assert!(parse_znc_line("-!- alice has joined").is_none());
    assert!(parse_znc_line("").is_none());
    assert!(parse_znc_line("[]").is_none());
}

#[test]
fn content_word_filter() {
    assert!(!is_content_word(""));
    assert!(!is_content_word("http://x"));
    assert!(!is_content_word("HTTPS://Y"));
    assert!(!is_content_word("!!!"));
    assert!(is_content_word("hello"));
    assert!(is_content_word("hello!"));
    assert!(is_content_word("Ünïcode"));
}

#[test]
fn words_split_on_whitespace_runs() {
    assert_eq!(words("  a  bb\tc \n"), vec!["a", "bb", "c"]);
    assert!(words("").is_empty());
    assert!(words("   ").is_empty());
}

#[test]
fn similarity_reflexive_and_short() {
    assert!(similar_to_nick("ab", "ab"));
    assert!(similar_to_nick("", ""));
    assert!(!similar_to_nick("abc", "abd"));
    assert!(!similar_to_nick("abcd", "abc"));
    assert!(similar_to_nick("aleksejs", "aleksejs"));
}

#[test]
fn similarity_tolerance_uses_nick_length() {
    // Distance two from an eight-letter nickname is tolerated, three is not.
    assert!(similar_to_nick("alxxsejs", "aleksejs"));
    assert!(!similar_to_nick("xxxksejs", "aleksejs"));
    // Six letters tolerate two edits: "kitten" to "sitting" takes three.
    assert!(!similar_to_nick("sitting", "kitten"));
    assert!(similar_to_nick("sittes", "kitten"));
}

fn agg_with(ignored: &[&str]) -> Aggregator {
    Aggregator::new(ignored.iter().map(|s| s.to_string()).collect())
}

#[test]
fn ignored_nick_changes_nothing() {
    let mut a = agg_with(&["zn"]);
    a.ingest_line("[10:00:00] <alice> hello world");
    a.ingest_line("[10:00:01] <zn> hello there");
    assert_eq!(a.users().get(&"zn".to_string()), 0);
    assert_eq!(a.users().get(&"alice".to_string()), 1);
    assert_eq!(a.words().get(&"there".to_string()), 0);
    assert_eq!(a.words().get(&"hello".to_string()), 1);
    assert_eq!(a.messages().len(), 1);
    assert_eq!(a.length_count_of(11), 1);
}

#[test]
fn end_to_end_scenario() {
    let mut a = agg_with(&[]);
    a.ingest_line("[10:00:00] <alice> hello world");
    a.ingest_line("[10:00:01] <bob> hello world");
    a.ingest_line("07:01 < alice> hello world");
    assert_eq!(a.users().get(&"alice".to_string()), 2);
    assert_eq!(a.users().get(&"bob".to_string()), 1);
    assert_eq!(a.words().get(&"hello".to_string()), 3);
    assert_eq!(a.words().get(&"world".to_string()), 3);
    assert_eq!(a.messages().clone(), vec!["hello world".to_string()]);
    assert_eq!(a.length_count_of(11), 3);
    assert_eq!(a.build_nick_chains().len(), 0);
    for seed in [0u64, 1, 7, 12345, u64::MAX] {
        let picks: Vec<u64> = (0..10).map(|i| seed.wrapping_mul(31).wrapping_add(i)).collect();
        assert_eq!(a.chain().generate_str(&picks), "hello world");
    }
}

#[test]
fn untrained_chain_generates_nothing() {
    let c = MarkovChain::new();
    assert!(c.generate(&vec![1, 2, 3]).is_empty());
    assert_eq!(c.generate_str(&vec![]), "");
}

#[test]
fn generation_follows_picks() {
    let mut c = MarkovChain::new();
    c.feed_str("a b");
    c.feed_str("a c");
    // Start has successor "a" twice; "a" has successors "b" then "c".
    assert_eq!(c.generate_str(&vec![0, 0, 0]), "a b");
    assert_eq!(c.generate_str(&vec![0, 1, 0]), "a c");
    assert_eq!(c.generate_str(&vec![5, 3, 9]), "a c");
}

#[test]
fn generation_is_bounded() {
    let mut c = MarkovChain::new();
    c.feed_str("x x");
    // Always choose the repeated token, never the end.
    let picks: Vec<u64> = vec![0; MAX_STEPS + 10];
    let out = c.generate(&picks);
    assert!(out.len() <= MAX_STEPS);
    assert!(out.iter().all(|w| w == "x"));
}

#[test]
fn merge_matches_single_pass() {
    let lines = [
        "[10:00:00] <alice> hello world",
        "[10:00:01] <bob> hi alice",
        "07:01 < carol> hello again",
        "[10:00:03] <alice> hello world",
    ];
    let mut whole = agg_with(&[]);
    for l in lines.iter() {
        whole.ingest_line(l);
    }
    let mut left = agg_with(&[]);
    let mut right = agg_with(&[]);
    for l in lines[..2].iter() {
        left.ingest_line(l);
    }
    for l in lines[2..].iter() {
        right.ingest_line(l);
    }
    left.merge(&right);
    for k in ["alice", "bob", "carol", "dave"] {
        let k = k.to_string();
        assert_eq!(left.users().get(&k), whole.users().get(&k));
    }
    for w in ["hello", "world", "hi", "alice", "again"] {
        let w = w.to_string();
        assert_eq!(left.words().get(&w), whole.words().get(&w));
    }
    for l in 0..20 {
        assert_eq!(left.length_count_of(l), whole.length_count_of(l));
    }
    let mut a = left.messages().clone();
    let mut b = whole.messages().clone();
    a.sort();
    b.sort();
    assert_eq!(a, b);
    let picks: Vec<u64> = vec![3, 1, 4, 1, 5, 9, 2, 6];
    assert_eq!(left.chain().generate_str(&picks), whole.chain().generate_str(&picks));
}

#[test]
fn top_counts_descending() {
    let mut a = agg_with(&[]);
    for l in [
        "[1] <a> x", "[1] <b> x", "[1] <b> x", "[1] <c> x", "[1] <c> x", "[1] <c> x",
    ] {
        a.ingest_line(l);
    }
    let top = a.users().top(2);
    assert_eq!(top, vec![("c".to_string(), 3), ("b".to_string(), 2)]);
    let all = a.users().top(10);
    assert_eq!(all.len(), 3);
    assert_eq!(all[2], ("a".to_string(), 1));
}

#[test]
fn top_indices_picks_largest() {
    let v = vec![5u64, 9, 1, 9, 3];
    let r = top_indices(&v, 3);
    assert_eq!(r.len(), 3);
    assert_eq!(v[r[0]], 9);
    assert_eq!(v[r[1]], 9);
    assert_eq!(v[r[2]], 5);
    assert_eq!(top_indices(&v, 10).len(), 5);
    assert!(top_indices(&vec![], 10).is_empty());
}

#[test]
fn nick_chains_and_novelty() {
    let mut a = agg_with(&[]);
    a.ingest_line("[1] <Aleksejs> hi there");
    a.ingest_line("[2] <bob> alolsejs come here");
    a.ingest_line("[3] <bob> nobody");
    let nc = a.build_nick_chains();
    // Nobody mentions bob, so only aleksejs gets a chain.
    assert_eq!(nc.len(), 1);
    assert_eq!(nc.nick(0), "aleksejs");
    let g = nc.chain(0).generate_str(&vec![0; 10]);
    assert_eq!(g, "alolsejs come here");
    assert_eq!(a.novelty_tally(&nc, &vec![g.clone()]), (1, 1));
    let samples = vec![g, "not said".to_string(), "nobody".to_string()];
    assert_eq!(a.count_existing(&samples), 2);
}

#[test]
fn whitespace_matches_std() {
    for u in 0u32..=0x10FFFF {
        if let Some(c) = char::from_u32(u) {
            assert_eq!(marky::text::char_is_whitespace(c), c.is_whitespace(), "U+{:X}", u);
        }
    }
    assert_eq!(words("a\u{a0}b\u{3000}c"), vec!["a", "b", "c"]);
}

#[test]
fn lengths_and_words_by_length() {
    let mut a = agg_with(&[]);
    for _ in 0..10 {
        a.ingest_line("[1] <a> hello hi");
    }
    for _ in 0..12 {
        a.ingest_line("[1] <a> world");
    }
    a.ingest_line("[1] <a> x");
    assert_eq!(a.top_lengths(1), vec![(5, 12)]);
    assert_eq!(a.top_lengths(10), vec![(5, 12), (8, 10), (1, 1)]);
    assert_eq!(
        a.words_by_length(),
        vec![(2, "hi".to_string(), 10), (5, "world".to_string(), 12)]
    );
}

#[test]
fn words_by_length_tie_goes_to_later_word() {
    let mut a = agg_with(&[]);
    for _ in 0..10 {
        a.ingest_line("[1] <a> abc xyz");
    }
    assert_eq!(a.words_by_length(), vec![(3, "xyz".to_string(), 10)]);
}

#[test]
fn round_trip_with_blank_runs() {
    let e = parse_znc_line(" \t[10:00:00]\t <alice>  \thello  world ").unwrap();
    assert_eq!(e.timestamp, "10:00:00");
    assert_eq!(e.nickname, "alice");
    assert_eq!(e.message, "hello  world ");
    let e = parse_znc_line("07:01 \t < alice>\t hi").unwrap();
    assert_eq!(e.timestamp, "07:01");
    assert_eq!(e.nickname, "alice");
    assert_eq!(e.message, "hi");
    let e = parse_znc_line("07:01 < a>b> c").unwrap();
    assert_eq!(e.nickname, "a");
    assert_eq!(e.message, "b> c");
}

#[test]
fn nick_chains_merge_case_variants() {
    let mut a = agg_with(&[]);
    a.ingest_line("[1] <Alice> hi");
    a.ingest_line("[2] <alice> hey ALICE");
    let nc = a.build_nick_chains();
    assert_eq!(nc.len(), 1);
    assert_eq!(nc.nick(0), "alice");
    assert_eq!(nc.chain(0).generate_str(&vec![0; 5]), "hey ALICE");
}

#[test]
fn empty_corpus_report() {
    let mut a = agg_with(&["zn"]);
    a.ingest_line("-!- nobody joined");
    a.ingest_line("");
    assert!(a.users().top(10).is_empty());
    assert!(a.words().top(10).is_empty());
    assert!(a.top_lengths(10).is_empty());
    assert!(a.words_by_length().is_empty());
    let nc = a.build_nick_chains();
    assert_eq!(nc.len(), 0);
    assert_eq!(a.novelty_tally(&nc, &vec![]), (0, 0));
    assert_eq!(a.chain().generate_str(&vec![1, 2, 3]), "");
}

#[test]
fn content_word_given_lowercase() {
    assert!(!is_content_word_lowered("HTTP://x", "http://x"));
    assert!(is_content_word_lowered("HTTP://x", "HTTP://x"));
    assert!(is_content_word_lowered("Ab", "ab"));
    assert!(!is_content_word_lowered("!!", "!!"));
    assert!(!is_content_word_lowered("", ""));
}

#[test]
fn files_aggregate_apart_and_merge() {
    let f1: Vec<String> = vec!["[1] <alice> hello world".into(), "noise".into(), "[2] <bob> hi".into()];
    let f2: Vec<String> = vec!["07:01 < alice> hello again".into(), "[3] <bob> hi".into()];
    let mut whole = agg_with(&[]);
    whole.ingest_lines(&f1);
    whole.ingest_lines(&f2);
    let mut a1 = agg_with(&[]);
    a1.ingest_lines(&f1);
    let mut a2 = agg_with(&[]);
    a2.ingest_lines(&f2);
    a1.merge(&a2);
    for k in ["alice", "bob"] {
        let k = k.to_string();
        assert_eq!(a1.users().get(&k), whole.users().get(&k));
    }
    assert_eq!(whole.users().get(&"alice".to_string()), 2);
    assert_eq!(whole.words().get(&"hi".to_string()), 2);
    assert_eq!(a1.words().get(&"hello".to_string()), 2);
    assert_eq!(a1.messages().len(), 3);
    assert_eq!(whole.messages().len(), 3);
    let picks: Vec<u64> = vec![1, 2, 3, 4, 5];
    assert_eq!(a1.chain().generate_str(&picks), whole.chain().generate_str(&picks));
}

#[test]
fn lines_without_open_angle_or_closing_bracket_rejected() {
    assert!(parse_znc_line("[10:00:00] alice> hello").is_none());
    assert!(parse_znc_line("[10:00:00<alice>hello").is_none());
}
