use query_automaton::dfa::max_typos;
use query_automaton::text::{count_words, join_words, split_words};
use query_automaton::{
    generate_automatons, next_update_id, normalize_str, order_groups, Automaton,
    AutomatonGroup, AutomatonProducer, IndexSnapshot, QueryEnhancerBuilder, UpdateType,
};

fn chars(s: &str) -> Vec<char> {
    s.chars().collect()
}

fn words(ws: &[&str]) -> Vec<String> {
    ws.iter().map(|w| w.to_string()).collect()
}

fn all_queries(groups: &[AutomatonGroup]) -> Vec<String> {
    groups
        .iter()
        .flat_map(|g| g.automatons.iter().map(|a| a.query.clone()))
        .collect()
}

#[test]
fn normalize_lowercases_and_strips_accents() {
    assert_eq!(normalize_str("CAFÉ"), "cafe");
    assert_eq!(normalize_str("ABC"), "abc");
    assert_eq!(normalize_str(""), "");
}

#[test]
fn normalize_is_idempotent_on_examples() {
    for s in ["CAFÉ", "Ærøskøbing", "new York", "中文字", "ÉCOLE 東京"] {
        let once = normalize_str(s);
        assert_eq!(normalize_str(&once), once);
    }
}

#[test]
fn normalize_keeps_cjk_text() {
    assert_eq!(normalize_str("中文字"), "中文字");
    assert_eq!(normalize_str("東京 CAFÉ"), "東京 café");
}

#[test]
fn query_words_pass_with_trailing_space_is_exact() {
    let snapshot = IndexSnapshot::new();
    let (groups, _) = generate_automatons("new york ", &words(&["new", "york"]), &snapshot);
    let first = &groups[0];
    assert!(!first.is_phrase_query);
    assert_eq!(first.automatons.len(), 2);
    assert_eq!(first.automatons[0].query, "new");
    assert_eq!(first.automatons[1].query, "york");
    for (i, a) in first.automatons.iter().enumerate() {
        assert_eq!(a.index, i);
        assert!(a.is_exact);
        assert!(!a.is_prefix);
        assert_eq!(a.ngram, 1);
    }
}

#[test]
fn query_words_pass_last_word_is_prefix() {
    let snapshot = IndexSnapshot::new();
    let (groups, _) = generate_automatons("new yo", &words(&["new", "yo"]), &snapshot);
    let first = &groups[0];
    assert!(first.automatons[0].is_exact);
    assert!(!first.automatons[0].is_prefix);
    assert!(first.automatons[1].is_exact);
    assert!(first.automatons[1].is_prefix);
}

#[test]
fn query_words_pass_lowercases_and_cjk_is_not_prefix() {
    let snapshot = IndexSnapshot::new();
    let (groups, _) = generate_automatons("New 東京", &words(&["New", "東京"]), &snapshot);
    assert_eq!(groups[0].automatons[0].query, "new");
    assert!(!groups[0].automatons[1].is_prefix);
}

#[test]
fn query_words_pass_tab_counts_as_trailing_space() {
    let snapshot = IndexSnapshot::new();
    let (groups, _) = generate_automatons("new\t", &words(&["new"]), &snapshot);
    assert!(!groups[0].automatons[0].is_prefix);
}

#[test]
fn best_split_prefers_highest_minimum() {
    let mut snapshot = IndexSnapshot::new();
    snapshot.add_postings("foo", 5);
    snapshot.add_postings("bar", 3);
    snapshot.add_postings("fooba", 9);
    let split = snapshot.split_best_frequency(&chars("foobar"));
    let (l, r) = split.unwrap();
    assert_eq!(l, chars("foo"));
    assert_eq!(r, chars("bar"));
}

#[test]
fn best_split_none_without_known_halves() {
    let mut snapshot = IndexSnapshot::new();
    snapshot.add_postings("foo", 5);
    assert!(snapshot.split_best_frequency(&chars("foobar")).is_none());
    assert!(snapshot.split_best_frequency(&chars("")).is_none());
    assert!(snapshot.split_best_frequency(&chars("f")).is_none());
}

#[test]
fn best_split_ties_keep_earliest() {
    let mut snapshot = IndexSnapshot::new();
    for w in ["a", "bcd", "ab", "cd"] {
        snapshot.add_postings(w, 2);
    }
    let (l, r) = snapshot.split_best_frequency(&chars("abcd")).unwrap();
    assert_eq!(l, chars("a"));
    assert_eq!(r, chars("bcd"));
}

#[test]
fn frequency_takes_latest_entry() {
    let mut snapshot = IndexSnapshot::new();
    snapshot.add_postings("foo", 5);
    snapshot.add_postings("foo", 7);
    assert_eq!(snapshot.frequency(&chars("foo")), 7);
    assert_eq!(snapshot.frequency(&chars("bar")), 0);
}

#[test]
fn split_becomes_phrase_group() {
    let mut snapshot = IndexSnapshot::new();
    snapshot.add_postings("foo", 5);
    snapshot.add_postings("bar", 3);
    let (groups, enhancer) = generate_automatons("foobar ", &words(&["foobar"]), &snapshot);
    let phrase: Vec<_> = groups.iter().filter(|g| g.is_phrase_query).collect();
    assert_eq!(phrase.len(), 1);
    let g = phrase[0];
    assert_eq!(g.automatons[0].query, "foo");
    assert_eq!(g.automatons[1].query, "bar");
    assert_eq!(g.automatons[0].index, 1);
    assert_eq!(g.automatons[1].index, 2);
    assert_eq!(enhancer.resolve(1), vec![(0, 1)]);
    assert_eq!(enhancer.resolve(2), vec![(0, 1)]);
    assert_eq!(enhancer.declarations[1].expansion, vec!["bar".to_string()]);
}

#[test]
fn synonym_of_one_word_is_expanded() {
    let mut snapshot = IndexSnapshot::new();
    snapshot.add_synonyms("ny", &words(&["new york", "nyc"]));
    let (groups, enhancer) = generate_automatons("ny ", &words(&["ny"]), &snapshot);
    let found: Vec<&Automaton> = groups[1..].iter().flat_map(|g| g.automatons.iter()).collect();
    let ny = found.iter().find(|a| a.query == "new york").unwrap();
    assert!(!ny.is_exact);
    assert_eq!(ny.index, 1);
    assert_eq!(ny.ngram, 1);
    let nyc = found.iter().find(|a| a.query == "nyc").unwrap();
    assert!(nyc.is_exact);
    assert_eq!(nyc.index, 2);
    assert_eq!(enhancer.resolve(1), vec![(0, 1)]);
    assert_eq!(enhancer.resolve(2), vec![(0, 1)]);
    assert_eq!(
        enhancer.declarations[0].expansion,
        vec!["new".to_string(), "york".to_string()]
    );
}

#[test]
fn synonym_key_with_other_word_count_is_skipped() {
    let mut snapshot = IndexSnapshot::new();
    // the prefix automaton of "n" accepts "n y", which has two words
    snapshot.add_synonyms("n y", &words(&["north"]));
    let (groups, _) = generate_automatons("n", &words(&["n"]), &snapshot);
    assert!(!all_queries(&groups).contains(&"north".to_string()));
}

#[test]
fn synonym_key_of_two_words_matches_bigram() {
    let mut snapshot = IndexSnapshot::new();
    snapshot.add_synonyms("new york", &words(&["ny"]));
    let (groups, enhancer) = generate_automatons("new york ", &words(&["new", "york"]), &snapshot);
    let ny: Vec<&Automaton> = groups[1..]
        .iter()
        .flat_map(|g| g.automatons.iter())
        .filter(|a| a.query == "ny")
        .collect();
    assert_eq!(ny.len(), 1);
    assert_eq!(ny[0].ngram, 2);
    assert_eq!(enhancer.resolve(ny[0].index), vec![(0, 2)]);
}

#[test]
fn synonym_within_one_typo() {
    let mut snapshot = IndexSnapshot::new();
    snapshot.add_synonyms("hello", &words(&["hi"]));
    let (groups, _) = generate_automatons("hellow ", &words(&["hellow"]), &snapshot);
    assert!(all_queries(&groups[1..]).contains(&"hi".to_string()));
    let (groups, _) = generate_automatons("helo ", &words(&["helo"]), &snapshot);
    assert!(!all_queries(&groups[1..]).contains(&"hi".to_string()));
}

#[test]
fn concatenation_of_bigram() {
    let snapshot = IndexSnapshot::new();
    let (groups, enhancer) =
        generate_automatons("Sun Flower ", &words(&["Sun", "Flower"]), &snapshot);
    assert_eq!(groups.len(), 2);
    let a = &groups[1].automatons[0];
    assert_eq!(a.query, "sunflower");
    assert!(a.is_exact);
    assert_eq!(a.ngram, 2);
    assert_eq!(a.index, 2);
    assert_eq!(enhancer.resolve(2), vec![(0, 2)]);
}

#[test]
fn trigram_windows_are_concatenated() {
    let snapshot = IndexSnapshot::new();
    let (groups, enhancer) = generate_automatons("a b c ", &words(&["a", "b", "c"]), &snapshot);
    let q = all_queries(&groups[1..]);
    assert_eq!(q, vec!["ab".to_string(), "bc".to_string(), "abc".to_string()]);
    assert_eq!(enhancer.resolve(3), vec![(0, 2)]);
    assert_eq!(enhancer.resolve(4), vec![(1, 3)]);
    assert_eq!(enhancer.resolve(5), vec![(0, 3)]);
}

#[test]
fn query_word_indices_never_resolve() {
    let mut snapshot = IndexSnapshot::new();
    snapshot.add_synonyms("ny", &words(&["new york"]));
    let (groups, enhancer) = generate_automatons("ny city", &words(&["ny", "city"]), &snapshot);
    for a in &groups[0].automatons {
        assert!(enhancer.resolve(a.index).is_empty());
    }
    for g in &groups[1..] {
        for a in &g.automatons {
            let r = enhancer.resolve(a.index);
            assert_eq!(r.len(), 1);
            assert_eq!(r[0].1 - r[0].0, a.ngram);
        }
    }
}

#[test]
fn exact_unigram_sorts_before_fuzzy_bigram() {
    let pinned = AutomatonGroup::normal(vec![Automaton::non_exact(0, 3, &chars("zzz"))]);
    let fuzzy = AutomatonGroup::normal(vec![Automaton::non_exact(1, 2, &chars("new york"))]);
    let exact = AutomatonGroup::normal(vec![Automaton::exact(2, 1, &chars("ny"))]);
    let ordered = order_groups(vec![pinned, fuzzy, exact]);
    assert_eq!(ordered[0].automatons[0].query, "zzz");
    assert_eq!(ordered[1].automatons[0].query, "ny");
    assert_eq!(ordered[2].automatons[0].query, "new york");
}

#[test]
fn ordering_prefers_larger_groups_and_is_stable() {
    let pinned = AutomatonGroup::normal(vec![]);
    let single_a = AutomatonGroup::normal(vec![Automaton::exact(1, 1, &chars("a"))]);
    let pair = AutomatonGroup::phrase_query(vec![
        Automaton::exact(2, 1, &chars("b")),
        Automaton::exact(3, 1, &chars("c")),
    ]);
    let single_d = AutomatonGroup::normal(vec![Automaton::exact(4, 1, &chars("d"))]);
    let ordered = order_groups(vec![pinned, single_a, pair, single_d]);
    assert!(ordered[1].is_phrase_query);
    assert_eq!(ordered[2].automatons[0].query, "a");
    assert_eq!(ordered[3].automatons[0].query, "d");
}

#[test]
fn compiling_twice_gives_the_same_result() {
    let mut snapshot = IndexSnapshot::new();
    snapshot.add_postings("foo", 5);
    snapshot.add_postings("bar", 3);
    snapshot.add_synonyms("foobar", &words(&["fb", "foo bar"]));
    let q = words(&["foobar", "baz"]);
    let (g1, e1) = generate_automatons("foobar baz", &q, &snapshot);
    let (g2, e2) = generate_automatons("foobar baz", &q, &snapshot);
    assert_eq!(format!("{:?}", g1), format!("{:?}", g2));
    assert_eq!(format!("{:?}", e1), format!("{:?}", e2));
    for i in 0..10 {
        assert_eq!(e1.resolve(i), e2.resolve(i));
    }
}

#[test]
fn producer_yields_groups_in_order() {
    let snapshot = IndexSnapshot::new();
    let (producer, _) = AutomatonProducer::new("a b ", &words(&["a", "b"]), &snapshot);
    let groups: Vec<AutomatonGroup> = producer.into_iter().collect();
    assert_eq!(groups.len(), 2);
    assert_eq!(groups[1].automatons[0].query, "ab");
}

#[test]
fn automaton_dfa_follows_typo_budget() {
    let exact = Automaton::exact(0, 1, &chars("hello"));
    let dfa = exact.dfa();
    assert!(dfa.accepts("hello"));
    assert!(dfa.accepts("hallo"));
    assert!(!dfa.accepts("hxllx"));
    assert!(!dfa.accepts("helloworld"));
    let short = Automaton::exact(0, 1, &chars("new"));
    assert!(short.dfa().accepts("new"));
    assert!(!short.dfa().accepts("now"));
    let prefix = Automaton::prefix_exact(0, 1, &chars("new"));
    assert!(prefix.dfa().accepts("newyork"));
    assert!(!prefix.dfa().accepts("yorknew"));
}

#[test]
fn query_len_counts_utf8_bytes() {
    assert_eq!(Automaton::exact(0, 1, &chars("é")).query_len, 2);
    assert_eq!(Automaton::non_exact(0, 1, &chars("ab")).query_len, 2);
    assert_eq!(Automaton::prefix_exact(0, 1, &chars("東京")).query_len, 6);
}

#[test]
fn synonym_groups_for_ny_are_exactly_listed() {
    let mut snapshot = IndexSnapshot::new();
    snapshot.add_synonyms("ny", &words(&["new york"]));
    let (groups, enhancer) = generate_automatons("ny ", &words(&["ny"]), &snapshot);
    assert_eq!(groups.len(), 2);
    assert_eq!(groups[0].automatons[0].query, "ny");
    assert_eq!(groups[1].automatons.len(), 1);
    assert_eq!(groups[1].automatons[0].query, "new york");
    assert_eq!(groups[1].automatons[0].index, 1);
    assert!(!groups[1].automatons[0].is_exact);
    assert_eq!(enhancer.declarations.len(), 1);
}

#[test]
fn empty_query_has_no_declarations() {
    let snapshot = IndexSnapshot::new();
    let (groups, enhancer) = generate_automatons("", &words(&[]), &snapshot);
    assert_eq!(groups.len(), 1);
    assert!(groups[0].automatons.is_empty());
    assert!(enhancer.declarations.is_empty());
}

#[test]
fn typo_budget_by_length() {
    assert_eq!(max_typos(0), 0);
    assert_eq!(max_typos(4), 0);
    assert_eq!(max_typos(5), 1);
    assert_eq!(max_typos(8), 1);
    assert_eq!(max_typos(9), 2);
}

#[test]
fn words_split_join_and_count() {
    let ws = split_words(&chars("  new  york "));
    assert_eq!(ws, vec![chars("new"), chars("york")]);
    assert_eq!(count_words(&chars("a b  c")), 3);
    assert_eq!(count_words(&chars("   ")), 0);
    assert_eq!(join_words(&ws, 0, 2), chars("new york"));
}

#[test]
fn enhancer_builder_collects_declarations() {
    let mut b = QueryEnhancerBuilder::new(3);
    b.declare(0, 2, 3, vec!["x".to_string()]);
    b.declare(1, 3, 4, vec!["y".to_string()]);
    b.declare(2, 3, 3, vec!["z".to_string()]);
    let e = b.build();
    assert_eq!(e.resolve(3), vec![(0, 2), (2, 3)]);
    assert_eq!(e.resolve(4), vec![(1, 3)]);
    assert!(e.resolve(0).is_empty());
}

#[test]
fn next_update_id_follows_the_larger() {
    assert_eq!(next_update_id(None, None), 0);
    assert_eq!(next_update_id(Some(4), None), 5);
    assert_eq!(next_update_id(None, Some(7)), 8);
    assert_eq!(next_update_id(Some(4), Some(2)), 5);
    assert_eq!(next_update_id(Some(1), Some(9)), 10);
    assert_eq!(UpdateType::DocumentsAddition { number: 3 }, UpdateType::DocumentsAddition { number: 3 });
}

#[test]
fn whitespace_matches_std() {
    for u in 0u32..0x3100 {
        if let Some(c) = char::from_u32(u) {
            assert_eq!(query_automaton::text::is_whitespace(c), c.is_whitespace(), "{:x}", u);
        }
    }
}
