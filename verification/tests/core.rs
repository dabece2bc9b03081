use pse_core::acceptor::Acceptor;
use pse_core::acceptor::State;
use pse_core::acceptor::state_eq;
use pse_core::engine::StructuringEngine;
use pse_core::engine::collect_group;
use pse_core::machine::advance_all;
use pse_core::machine::get_transitions;
use pse_core::trie::build_trie;
use pse_core::walker::EdgeKey;
use pse_core::walker::Walker;

fn literal_graph(text: &str) -> Acceptor {
    let graph = vec![(
        State::Int(0),
        vec![(Acceptor::literal(text, false, true), State::Int(1))],
    )];
    Acceptor::new(Some(graph), State::Int(0), Some(vec![State::Int(1)]), false, true)
}

fn ab_vocabulary() -> Vec<(String, u32)> {
    vec![("ab".to_string(), 1), ("a".to_string(), 2)]
}

#[test]
fn longest_valid_partial_substitutes() {
    // Vocabulary {"ab": 1, "a": 2}, a grammar accepting only "a": feeding the
    // raw token "ab" must substitute token id 2 rather than reject.
    let mut engine = StructuringEngine::new(ab_vocabulary(), &literal_graph("a"));
    let accepted = engine.advance_token(1);
    assert_eq!(accepted, Some(2));
}

#[test]
fn exact_match_is_returned_unchanged() {
    let mut engine = StructuringEngine::new(ab_vocabulary(), &literal_graph("a"));
    let accepted = engine.advance_token(2);
    assert_eq!(accepted, Some(2));
    assert!(!engine.walkers.is_empty());
    assert!(engine.walkers[0].has_reached_accept_state());
}

#[test]
fn unknown_token_id_reports_nothing_advanced() {
    let mut engine = StructuringEngine::new(ab_vocabulary(), &literal_graph("a"));
    let walkers_before = engine.walkers.len();
    assert_eq!(engine.advance_token(99), None);
    assert_eq!(engine.walkers.len(), walkers_before);
}

#[test]
fn rejected_token_reports_no_continuation() {
    let vocabulary = vec![("a".to_string(), 2), ("z".to_string(), 7)];
    let mut engine = StructuringEngine::new(vocabulary, &literal_graph("a"));
    assert_eq!(engine.advance_token(7), None);
}

#[test]
fn advance_all_is_deterministic() {
    let engine = StructuringEngine::new(ab_vocabulary(), &literal_graph("a"));
    let trie = build_trie(&vec!["ab".to_string(), "a".to_string()]);
    let r1 = advance_all(&engine.walkers, "ab", Some(&trie));
    let r2 = advance_all(&engine.walkers, "ab", Some(&trie));
    assert_eq!(r1.len(), r2.len());
    for i in 0..r1.len() {
        assert_eq!(r1[i].0, r2[i].0);
        assert!(r1[i].1.equivalent(&r2[i].1));
    }
}

#[test]
fn advance_all_without_vocabulary_drops_partial_matches() {
    let engine = StructuringEngine::new(ab_vocabulary(), &literal_graph("a"));
    let results = advance_all(&engine.walkers, "ab", None);
    assert!(results.is_empty());
}

#[test]
fn grouping_deduplicates_equivalent_walkers() {
    // Two structurally distinct walkers with the same current state, target
    // state, raw value and transition must be treated as one.
    let lit = Acceptor::literal("abc", false, true);
    let w1 = Walker::new(lit.clone(), Some(State::Int(0)));
    let mut w2 = Walker::new(lit, Some(State::Int(0)));
    w2.consumed_character_count = 5;
    w2.explored_edges.push(EdgeKey {
        from: State::Int(7),
        to: None,
        value: Some("x".to_string()),
    });
    assert!(w1.equivalent(&w2));
    let results = vec![("t".to_string(), w1), ("t".to_string(), w2)];
    let group = collect_group(&results, "t");
    assert_eq!(group.len(), 1);
}

#[test]
fn explored_edge_is_never_consumed_twice() {
    let lit = Acceptor::literal("abc", false, true);
    let mut w = Walker::new(lit, Some(State::Int(0)));
    w.accepts_more_input = true;
    let key = EdgeKey { from: State::Int(0), to: None, value: w.raw_value() };
    w.explored_edges.push(key);
    assert!(!w.should_start_transition("a"));
    assert!(!w.accepts_more_input);
}

#[test]
fn fresh_edge_may_start_a_transition() {
    let lit = Acceptor::literal("abc", false, true);
    let mut w = Walker::new(lit, Some(State::Int(0)));
    assert!(w.should_start_transition("a"));
}

#[test]
fn completed_transition_propagates_leftover() {
    // The parent adopts the transition's leftover and the installed child's
    // own leftover is cleared.
    let parent_acceptor = literal_graph("a");
    let mut parent = Walker::new(parent_acceptor, Some(State::Int(0)));
    parent.target_state = Some(State::Int(1));
    let mut transition = Walker::new(Acceptor::literal("a", false, true), Some(State::Int(1)));
    transition.remaining_input = Some("b".to_string());
    transition.consumed_character_count = 1;
    transition.accepts_more_input = true;
    let (completed, reached_end) = parent.complete_transition(transition);
    let c = completed.expect("completion always yields a walker");
    assert_eq!(c.remaining_input.as_deref(), Some("b"));
    let child = c.transition_walker.as_ref().expect("child stays while it accepts more");
    assert!(child.remaining_input.is_none());
    assert!(reached_end);
}

#[test]
fn archived_transition_leftover_is_cleared() {
    // A finished transition is moved into the history with its leftover
    // cleared, while the parent still adopts that leftover.
    let parent_acceptor = literal_graph("a");
    let mut parent = Walker::new(parent_acceptor, Some(State::Int(0)));
    parent.target_state = Some(State::Int(1));
    let mut transition = Walker::new(Acceptor::literal("a", false, true), Some(State::Int(1)));
    transition.remaining_input = Some("b".to_string());
    transition.consumed_character_count = 1;
    let (completed, reached_end) = parent.complete_transition(transition);
    let c = completed.expect("completion always yields a walker");
    assert!(reached_end);
    assert_eq!(c.remaining_input.as_deref(), Some("b"));
    assert!(c.transition_walker.is_none());
    assert_eq!(c.accepted_history.len(), 1);
    assert!(c.accepted_history[0].remaining_input.is_none());
}

#[test]
fn completed_transition_records_the_edge() {
    let parent_acceptor = literal_graph("a");
    let mut parent = Walker::new(parent_acceptor, Some(State::Int(0)));
    parent.target_state = Some(State::Int(1));
    let transition = Walker::new(Acceptor::literal("a", false, true), Some(State::Int(1)));
    let before = parent.explored_edges.len();
    let (completed, _) = parent.complete_transition(transition);
    let c = completed.unwrap();
    assert_eq!(c.explored_edges.len(), before + 1);
}

#[test]
fn optional_edge_exposes_pass_through_transitions() {
    // A -(optional)-> S2 -> S3: transitions from S1 must include S3-bound
    // edges without A being traversed, while the walker accepts more input.
    let a = Acceptor::literal("x", true, true);
    let b = Acceptor::literal("y", false, true);
    let graph = vec![
        (State::Int(1), vec![(a, State::Int(2))]),
        (State::Int(2), vec![(b, State::Int(3))]),
    ];
    let machine = Acceptor::new(Some(graph), State::Int(1), Some(vec![State::Int(3)]), false, true);
    let mut walker = Walker::new(machine.clone(), Some(State::Int(1)));
    walker.accepts_more_input = true;
    let transitions = get_transitions(&machine, &walker, None);
    let mut found_s3 = false;
    for (_, _, target) in &transitions {
        if state_eq(target, &State::Int(3)) {
            found_s3 = true;
        }
    }
    assert!(found_s3);
}

#[test]
fn pass_through_needs_accepting_walker() {
    let a = Acceptor::literal("x", true, true);
    let b = Acceptor::literal("y", false, true);
    let graph = vec![
        (State::Int(1), vec![(a, State::Int(2))]),
        (State::Int(2), vec![(b, State::Int(3))]),
    ];
    let machine = Acceptor::new(Some(graph), State::Int(1), Some(vec![State::Int(3)]), false, true);
    let walker = Walker::new(machine.clone(), Some(State::Int(1)));
    let transitions = get_transitions(&machine, &walker, None);
    for (_, _, target) in &transitions {
        assert!(!state_eq(target, &State::Int(3)));
    }
}

#[test]
fn unrestricted_walker_short_circuits_valid_tokens() {
    // A walker in a free-form region lifts all restrictions.
    let engine = StructuringEngine::new(ab_vocabulary(), &Acceptor::any_token());
    assert!(engine.walkers[0].accepts_any_token());
    let (valid, trie) = engine.get_valid_tokens();
    assert!(valid.is_empty());
    assert!(!pse_core::trie::trie_contains(&trie, "a"));
    assert!(!pse_core::trie::trie_contains(&trie, "ab"));
}

#[test]
fn restricted_walker_reports_vocabulary_prefixes() {
    let engine = StructuringEngine::new(ab_vocabulary(), &literal_graph("ab"));
    let (valid, trie) = engine.get_valid_tokens();
    let texts: Vec<&str> = valid.iter().map(|s| s.as_str()).collect();
    assert!(texts.contains(&"a"));
    assert!(texts.contains(&"ab"));
    // The trie holds the reversed texts for suffix-style matching.
    assert!(pse_core::trie::trie_contains(&trie, "a"));
    assert!(pse_core::trie::trie_contains(&trie, "ba"));
    assert!(!pse_core::trie::trie_contains(&trie, "ab"));
}

#[test]
fn raw_value_joins_history_and_transition() {
    let lit = Acceptor::literal("abcd", false, true);
    let mut w = Walker::new(lit.clone(), Some(State::Int(0)));
    let mut h1 = Walker::new(lit.clone(), Some(State::Int(0)));
    h1.raw_value_override = Some("ab".to_string());
    let mut h2 = Walker::new(lit.clone(), Some(State::Int(0)));
    h2.raw_value_override = Some("c".to_string());
    let mut t = Walker::new(lit, Some(State::Int(0)));
    t.raw_value_override = Some("d".to_string());
    w.accepted_history.push(h1);
    w.accepted_history.push(h2);
    w.transition_walker = Some(Box::new(t));
    assert_eq!(w.raw_value().as_deref(), Some("abcd"));
}

#[test]
fn raw_value_override_wins() {
    let lit = Acceptor::literal("ab", false, true);
    let mut w = Walker::new(lit, Some(State::Int(0)));
    w.raw_value_override = Some("zz".to_string());
    assert_eq!(w.raw_value().as_deref(), Some("zz"));
}

#[test]
fn raw_value_of_fresh_walker_is_absent() {
    let lit = Acceptor::literal("ab", false, true);
    let w = Walker::new(lit, Some(State::Int(0)));
    assert!(w.raw_value().is_none());
}

#[test]
fn literal_walker_consumes_matching_prefix() {
    let lit = Acceptor::literal("abc", false, true);
    let w = Walker::new(lit, Some(State::Int(0)));
    let out = w.consume_literal("ab");
    assert_eq!(out.len(), 1);
    assert!(state_eq(&out[0].current_state, &State::Int(2)));
    assert_eq!(out[0].raw_value().as_deref(), Some("ab"));
    assert!(out[0].remaining_input.is_none());
    assert!(out[0].accepts_more_input);
}

#[test]
fn literal_walker_reports_leftover() {
    let lit = Acceptor::literal("a", false, true);
    let w = Walker::new(lit, Some(State::Int(0)));
    let out = w.consume_literal("ab");
    assert_eq!(out.len(), 1);
    assert!(state_eq(&out[0].current_state, &State::Int(1)));
    assert_eq!(out[0].remaining_input.as_deref(), Some("b"));
    assert!(!out[0].accepts_more_input);
    assert!(out[0].has_reached_accept_state());
}

#[test]
fn literal_walker_rejects_mismatch() {
    let lit = Acceptor::literal("abc", false, true);
    let w = Walker::new(lit, Some(State::Int(0)));
    assert!(w.consume_literal("x").is_empty());
}

#[test]
fn case_insensitive_literal_matches_either_case() {
    let lit = Acceptor::literal("AB", false, false);
    let w = Walker::new(lit, Some(State::Int(0)));
    let out = w.consume_literal("ab");
    assert_eq!(out.len(), 1);
    assert!(state_eq(&out[0].current_state, &State::Int(2)));
}

#[test]
fn case_sensitive_literal_rejects_wrong_case() {
    let lit = Acceptor::literal("AB", false, true);
    let w = Walker::new(lit, Some(State::Int(0)));
    assert!(w.consume_literal("ab").is_empty());
}

#[test]
fn continuations_report_rest_of_literal() {
    let lit = Acceptor::literal("abc", false, true);
    let w = Walker::new(lit, Some(State::Int(1)));
    let conts = w.get_valid_continuations(0);
    assert_eq!(conts.len(), 1);
    assert_eq!(conts[0], "bc");
}

#[test]
fn continuations_truncate_past_depth_bound() {
    let lit = Acceptor::literal("abc", false, true);
    let w = Walker::new(lit, Some(State::Int(0)));
    assert!(w.get_valid_continuations(11).is_empty());
}

#[test]
fn find_valid_prefixes_searches_the_trie() {
    let lit = Acceptor::literal("ab", false, true);
    let w = Walker::new(lit, Some(State::Int(0)));
    let trie = build_trie(&vec!["a".to_string(), "ab".to_string(), "b".to_string()]);
    let found = w.find_valid_prefixes(&trie);
    let texts: Vec<&str> = found.iter().map(|s| s.as_str()).collect();
    assert!(texts.contains(&"a"));
    assert!(texts.contains(&"ab"));
    assert!(!texts.contains(&"b"));
}

#[test]
fn start_transition_refuses_duplicate_target() {
    let machine = literal_graph("a");
    let lit = Acceptor::literal("a", false, true);
    let parent = Walker::new(machine, Some(State::Int(0)));
    let child1 = Walker::new(lit.clone(), Some(State::Int(0)));
    let started = parent
        .start_transition(child1, None, Some(State::Int(0)), Some(State::Int(1)))
        .expect("a fresh transition starts");
    let mut active = started;
    if let Some(t) = active.transition_walker.as_mut() {
        t.accepts_more_input = true;
    }
    let child2 = Walker::new(lit, Some(State::Int(0)));
    let again = active.start_transition(child2, None, Some(State::Int(0)), Some(State::Int(1)));
    assert!(again.is_none());
}

#[test]
fn start_transition_archives_finished_child() {
    let machine = literal_graph("a");
    let lit = Acceptor::literal("a", false, true);
    let mut parent = Walker::new(machine, Some(State::Int(0)));
    let mut done_child = Walker::new(lit.clone(), Some(State::Int(1)));
    done_child.raw_value_override = Some("a".to_string());
    parent.transition_walker = Some(Box::new(done_child));
    let next_child = Walker::new(lit, Some(State::Int(0)));
    let started = parent
        .start_transition(next_child, None, Some(State::Int(1)), Some(State::Int(2)))
        .expect("the transition starts");
    assert_eq!(started.accepted_history.len(), 1);
    assert_eq!(started.accepted_history[0].raw_value().as_deref(), Some("a"));
}

#[test]
fn consume_raw_input_replays_exact_matches() {
    let mut engine = StructuringEngine::new(ab_vocabulary(), &literal_graph("a"));
    engine.consume_raw_input(&vec!["a".to_string()]);
    assert!(!engine.walkers.is_empty());
    assert!(engine.walkers[0].has_reached_accept_state());
}

#[test]
fn consume_raw_input_keeps_walkers_on_mismatch() {
    let mut engine = StructuringEngine::new(ab_vocabulary(), &literal_graph("a"));
    let before = engine.walkers.len();
    engine.consume_raw_input(&vec!["z".to_string(), "".to_string()]);
    assert_eq!(engine.walkers.len(), before);
    assert!(!engine.walkers[0].has_reached_accept_state());
}

#[test]
fn acceptor_defaults_use_terminal_marker() {
    let a = Acceptor::new(None, State::Int(0), None, true, false);
    assert!(a.is_optional());
    assert!(!a.is_case_sensitive());
    assert_eq!(a.end_states.len(), 1);
    assert!(state_eq(&a.end_states[0], &State::Str("$".to_string())));
    assert!(a.state_graph.is_empty());
}

#[test]
fn leaf_acceptor_yields_no_branches() {
    let lit = Acceptor::literal("a", false, true);
    let w = Walker::new(lit.clone(), Some(State::Int(0)));
    assert!(lit.branch_walker(&w, Some("a")).is_empty());
}

#[test]
fn walker_equivalence_ignores_bookkeeping() {
    let lit = Acceptor::literal("ab", false, true);
    let w1 = Walker::new(lit.clone(), Some(State::Int(1)));
    let mut w2 = Walker::new(lit.clone(), Some(State::Int(1)));
    w2.consumed_character_count = 3;
    assert!(w1.equivalent(&w2));
    let w3 = Walker::new(lit, Some(State::Int(0)));
    assert!(!w1.equivalent(&w3));
}

#[test]
fn walker_equivalence_descends_into_transitions() {
    let lit = Acceptor::literal("ab", false, true);
    let mut w1 = Walker::new(lit.clone(), Some(State::Int(0)));
    w1.transition_walker = Some(Box::new(Walker::new(lit.clone(), Some(State::Int(1)))));
    let mut w2 = Walker::new(lit.clone(), Some(State::Int(0)));
    w2.transition_walker = Some(Box::new(Walker::new(lit.clone(), Some(State::Int(1)))));
    assert!(w1.equivalent(&w2));
    let mut w3 = Walker::new(lit.clone(), Some(State::Int(0)));
    w3.transition_walker = Some(Box::new(Walker::new(lit, Some(State::Int(2)))));
    assert!(!w1.equivalent(&w3));
}

#[test]
fn grouping_keeps_distinct_walkers_apart() {
    let lit = Acceptor::literal("ab", false, true);
    let w1 = Walker::new(lit.clone(), Some(State::Int(0)));
    let mut w2 = Walker::new(lit, Some(State::Int(0)));
    w2.raw_value_override = Some("a".to_string());
    assert!(!w1.equivalent(&w2));
    let results = vec![("t".to_string(), w1), ("t".to_string(), w2)];
    let group = collect_group(&results, "t");
    assert_eq!(group.len(), 2);
}

#[test]
fn text_helpers_behave() {
    assert_eq!(pse_core::text::reverse_chars("abc"), "cba");
    assert_eq!(pse_core::text::prefix_of_chars("abcd", 2), "ab");
    assert_eq!(pse_core::text::suffix_of_chars("abcd", 2), "cd");
    assert!(pse_core::text::str_eq("x", "x"));
    assert!(!pse_core::text::str_eq("x", "y"));
}

#[test]
fn one_token_spans_two_grammar_states() {
    // Grammar "a" then "b"; the raw token "ab" crosses the state boundary
    // and must still be accepted whole.
    let graph = vec![
        (State::Int(0), vec![(Acceptor::literal("a", false, true), State::Int(1))]),
        (State::Int(1), vec![(Acceptor::literal("b", false, true), State::Int(2))]),
    ];
    let machine = Acceptor::new(Some(graph), State::Int(0), Some(vec![State::Int(2)]), false, true);
    let vocabulary = vec![("ab".to_string(), 1)];
    let mut engine = StructuringEngine::new(vocabulary, &machine);
    assert_eq!(engine.advance_token(1), Some(1));
    assert!(!engine.walkers.is_empty());
    assert!(engine.walkers[0].has_reached_accept_state());
    assert_eq!(engine.walkers[0].raw_value().as_deref(), Some("ab"));
}

#[test]
fn free_form_region_accepts_tokens_whole() {
    let vocabulary = vec![("ab".to_string(), 1)];
    let mut engine = StructuringEngine::new(vocabulary, &Acceptor::any_token());
    assert_eq!(engine.advance_token(1), Some(1));
    assert_eq!(engine.walkers[0].raw_value().as_deref(), Some("ab"));
}

#[test]
fn advance_consumes_one_walker() {
    let engine = StructuringEngine::new(ab_vocabulary(), &literal_graph("a"));
    let results = pse_core::machine::advance(&engine.walkers[0], "a");
    assert_eq!(results.len(), 1);
    assert!(results[0].has_reached_accept_state());
    assert!(results[0].remaining_input.is_none());
}

#[test]
fn get_edges_reads_the_graph() {
    let machine = literal_graph("a");
    let edges = pse_core::machine::get_edges(&machine, &State::Int(0));
    assert_eq!(edges.len(), 1);
    assert!(state_eq(&edges[0].1, &State::Int(1)));
    assert!(pse_core::machine::get_edges(&machine, &State::Int(1)).is_empty());
}

#[test]
fn empty_token_consumes_nothing() {
    let lit = Acceptor::literal("abc", false, true);
    let w = Walker::new(lit, Some(State::Int(0)));
    assert!(w.consume_literal("").is_empty());
    assert!(w.consume_token("").is_empty());
}

#[test]
fn should_complete_delegates_to_innermost() {
    let lit = Acceptor::literal("ab", false, true);
    let outer = Walker::new(lit.clone(), Some(State::Int(0)));
    assert!(outer.should_complete_transition());
    let mut nested = Walker::new(lit.clone(), Some(State::Int(0)));
    nested.transition_walker = Some(Box::new(Walker::new(lit, Some(State::Int(0)))));
    assert!(nested.should_complete_transition());
}

#[test]
fn trie_wrappers_store_and_search() {
    let trie = build_trie(&vec!["a".to_string(), "app".to_string(), "".to_string()]);
    assert!(pse_core::trie::trie_contains(&trie, "a"));
    assert!(pse_core::trie::trie_contains(&trie, "app"));
    assert!(!pse_core::trie::trie_contains(&trie, "ap"));
    assert!(!pse_core::trie::trie_contains(&trie, ""));
    let found = pse_core::trie::trie_common_prefixes(&trie, "apple");
    let texts: Vec<&str> = found.iter().map(|s| s.as_str()).collect();
    assert!(texts.contains(&"a"));
    assert!(texts.contains(&"app"));
    assert!(!texts.contains(&"apple"));
}
