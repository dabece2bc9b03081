//! The engine's general guarantees, stated and proved once over the models
//! that every executable contract in this crate is written against.

use vstd::prelude::*;

verus! {

use crate::acceptor::AcceptorModel;
use crate::acceptor::StateModel;
use crate::engine::advance_token_spec;
use crate::engine::group_from;
use crate::engine::group_spec;
use crate::engine::contains_eqv;
use crate::engine::has_text;
use crate::engine::token_of_id;
use crate::machine::advance_all_spec;
use crate::machine::get_edges_spec;
use crate::machine::trans_edges_spec;
use crate::machine::transitions_spec;
use crate::walker::EdgeKeyModel;
use crate::walker::WalkerModel;
use crate::walker::after_should_start;
use crate::walker::complete_transition_spec;
use crate::walker::current_edge_key;
use crate::walker::raw_of;
use crate::walker::should_start_spec;
use crate::walker::walker_matches;

/// Batch advance is deterministic: the result of `advance_all` is a function
/// of the walker set, the token, and the vocabulary contents alone, so any
/// two results obtained for the same inputs are the same grouped result set.
pub proof fn lemma_advance_all_deterministic(
    ws: Seq<WalkerModel>,
    token: Seq<char>,
    vocab: Option<Set<Seq<char>>>,
    r1: Seq<(Seq<char>, WalkerModel)>,
    r2: Seq<(Seq<char>, WalkerModel)>,
)
    requires
        r1 == advance_all_spec(ws, token, vocab),
        r2 == advance_all_spec(ws, token, vocab),
    ensures
        r1 == r2,
{
}

/// No two walkers in a group are equivalent from index `i` on, given a
/// distinct accumulator.
pub open spec fn pairwise_distinct(s: Seq<WalkerModel>) -> bool {
    forall|i: int, j: int| 0 <= i < j < s.len() ==> !walker_matches(s[i], s[j])
}

proof fn lemma_group_from_distinct(
    rs: Seq<(Seq<char>, WalkerModel)>,
    t: Seq<char>,
    i: int,
    acc: Seq<WalkerModel>,
)
    requires
        0 <= i <= rs.len(),
        pairwise_distinct(acc),
    ensures
        pairwise_distinct(group_from(rs, t, i, acc)),
    decreases rs.len() - i,
{
    if i < rs.len() {
        if rs[i].0 == t && !contains_eqv(acc, rs[i].1) {
            let acc2 = acc.push(rs[i].1);
            assert forall|x: int, y: int| 0 <= x < y < acc2.len() implies !walker_matches(
                acc2[x],
                acc2[y],
            ) by {
                if y == acc2.len() - 1 {
                    assert(acc2[x] == acc[x]);
                    assert(!walker_matches(acc[x], rs[i].1));
                }
            }
            lemma_group_from_distinct(rs, t, i + 1, acc2);
        } else {
            lemma_group_from_distinct(rs, t, i + 1, acc);
        }
    }
}

/// Deduplication is idempotent over walker equivalence: two structurally
/// distinct walkers whose current state, target state, raw value and active
/// transition agree are treated as one by engine grouping, so no group ever
/// holds two equivalent walkers.
pub proof fn lemma_group_dedup(rs: Seq<(Seq<char>, WalkerModel)>, t: Seq<char>)
    ensures
        pairwise_distinct(group_spec(rs, t)),
{
    lemma_group_from_distinct(rs, t, 0, Seq::empty());
}

/// Whatever walker set one generation step adopts, it holds no two
/// equivalent walkers.
pub proof fn lemma_adopted_set_deduplicated(
    walkers: Seq<WalkerModel>,
    vocab: Seq<(Seq<char>, u32)>,
    vset: Set<Seq<char>>,
    token_id: u32,
)
    ensures
        match advance_token_spec(walkers, vocab, vset, token_id).1 {
            Some(g) => pairwise_distinct(g),
            None => true,
        },
{
    match token_of_id(vocab, token_id, 0) {
        None => {},
        Some(tok) => {
            let rs = advance_all_spec(walkers, tok, Some(vset));
            lemma_group_dedup(rs, tok);
            let best = crate::engine::longest_partial_from(rs, tok, vocab, 0, (Seq::empty(), 0));
            lemma_group_dedup(rs, best.0);
        },
    }
}

/// Two walkers with the same current state, target state, raw value, and no
/// active transition are equivalent, however their histories, explored edges
/// or counters differ.
pub proof fn lemma_walker_matches_by_key(a: WalkerModel, b: WalkerModel)
    requires
        a.current == b.current,
        a.target == b.target,
        raw_of(a) == raw_of(b),
        a.transition is None,
        b.transition is None,
    ensures
        walker_matches(a, b),
{
}

/// An explored edge is never consumed twice: completing a transition records
/// the walker's present edge key, and a walker without an active transition
/// whose present key is already recorded refuses to start a transition and
/// is marked as unable to accept further input.
pub proof fn lemma_explored_edge_blocks(m: WalkerModel, t: WalkerModel)
    ensures
        ({
            let c1 = WalkerModel {
                transition: Some(Box::new(WalkerModel { remaining: None, ..t })),
                remaining: t.remaining,
                consumed: crate::walker::sat_add_spec(m.consumed, t.consumed),
                ..m
            };
            complete_transition_spec(m, t).0.explored.contains(current_edge_key(c1))
        }),
{
}

/// A walker without an active transition whose present edge key is already
/// in its explored set may not start a transition again, and the query marks
/// it as unable to accept further input.
pub proof fn lemma_blocked_never_repeats(w: WalkerModel)
    requires
        w.transition is None,
        w.explored.contains(current_edge_key(w)),
    ensures
        !should_start_spec(w),
        after_should_start(w).accepts_more == false,
{
}

/// Leftover propagation: after completing a transition the walker's
/// remaining input is exactly what the transition reported, and the child's
/// own leftover is always cleared — on the installed transition while it
/// stays active, and equally on the copy archived into the history when the
/// transition is closed.
pub proof fn lemma_leftover_propagation(m: WalkerModel, t: WalkerModel)
    ensures
        ({
            let (c, _done) = complete_transition_spec(m, t);
            &&& c.remaining == t.remaining
            &&& c.transition is Some ==> (match c.transition {
                Some(ch) => ch.remaining is None,
                None => false,
            })
            &&& c.history.len() > m.history.len() ==> c.history.last().remaining is None
        }),
{
}

/// Exact-match precedence: when the raw sampled token is itself among the
/// matched texts, the engine always accepts it unchanged, whatever other
/// partial matches exist.
pub proof fn lemma_exact_match_precedence(
    walkers: Seq<WalkerModel>,
    vocab: Seq<(Seq<char>, u32)>,
    vset: Set<Seq<char>>,
    token_id: u32,
    tok: Seq<char>,
)
    requires
        token_of_id(vocab, token_id, 0) == Some(tok),
        has_text(advance_all_spec(walkers, tok, Some(vset)), tok),
    ensures
        advance_token_spec(walkers, vocab, vset, token_id).0 == Some(token_id),
        advance_token_spec(walkers, vocab, vset, token_id).1 == Some(
            group_spec(advance_all_spec(walkers, tok, Some(vset)), tok),
        ),
{
}

/// Optional pass-through: an optional edge whose target is not an accepting
/// state exposes, for a walker that can still accept input, every transition
/// reachable past its target, without the optional child being traversed.
pub proof fn lemma_optional_pass_through(
    a: AcceptorModel,
    w: WalkerModel,
    state: StateModel,
    i: int,
    fuel: nat,
)
    requires
        fuel >= 1,
        0 <= i < get_edges_spec(a, state).len(),
        get_edges_spec(a, state)[i].0.optional,
        !a.ends.contains(get_edges_spec(a, state)[i].1),
        w.accepts_more,
    ensures
        forall|x: (WalkerModel, StateModel, StateModel)|
            transitions_spec(a, w, get_edges_spec(a, state)[i].1, (fuel - 1) as nat).contains(x)
                ==> #[trigger] transitions_spec(a, w, state, fuel).contains(x),
{
    let edges = get_edges_spec(a, state);
    let tgt = edges[i].1;
    let passed = transitions_spec(a, w, tgt, (fuel - 1) as nat);
    lemma_trans_edges_contains(a, w, state, edges, 0, i, fuel);
}

/// The contribution of edge `i` is contained in the scan from index `j` on.
proof fn lemma_trans_edges_contains(
    a: AcceptorModel,
    w: WalkerModel,
    state: StateModel,
    edges: Seq<(AcceptorModel, StateModel)>,
    j: int,
    i: int,
    fuel: nat,
)
    requires
        fuel >= 1,
        0 <= j <= i < edges.len(),
        edges[i].0.optional,
        !a.ends.contains(edges[i].1),
        w.accepts_more,
        edges == get_edges_spec(a, state),
    ensures
        forall|x: (WalkerModel, StateModel, StateModel)|
            transitions_spec(a, w, edges[i].1, (fuel - 1) as nat).contains(x)
                ==> #[trigger] trans_edges_spec(a, w, state, edges, j, fuel).contains(x),
        j == 0 ==> forall|x: (WalkerModel, StateModel, StateModel)|
            transitions_spec(a, w, edges[i].1, (fuel - 1) as nat).contains(x)
                ==> #[trigger] transitions_spec(a, w, state, fuel).contains(x),
    decreases i - j,
{
    let passed = transitions_spec(a, w, edges[i].1, (fuel - 1) as nat);
    if j == i {
        assert forall|x: (WalkerModel, StateModel, StateModel)| passed.contains(
            x,
        ) implies #[trigger] trans_edges_spec(a, w, state, edges, j, fuel).contains(x) by {
            let k = choose|k: int| 0 <= k < passed.len() && passed[k] == x;
            let (child, tgt) = edges[j];
            let from_child = Seq::new(
                crate::machine::get_walkers_spec(child, None, (fuel - 1) as nat).len(),
                |q: int|
                    (
                        crate::machine::get_walkers_spec(child, None, (fuel - 1) as nat)[q],
                        state,
                        tgt,
                    ),
            );
            assert(trans_edges_spec(a, w, state, edges, j, fuel)[from_child.len() + k] == x);
        }
    } else {
        lemma_trans_edges_contains(a, w, state, edges, j + 1, i, fuel);
        assert forall|x: (WalkerModel, StateModel, StateModel)| passed.contains(
            x,
        ) implies #[trigger] trans_edges_spec(a, w, state, edges, j, fuel).contains(x) by {
            assert(trans_edges_spec(a, w, state, edges, j + 1, fuel).contains(x));
            let k = choose|k: int|
                0 <= k < trans_edges_spec(a, w, state, edges, j + 1, fuel).len()
                    && #[trigger] trans_edges_spec(a, w, state, edges, j + 1, fuel)[k] == x;
            let (child, tgt) = edges[j];
            let from_child = Seq::new(
                crate::machine::get_walkers_spec(child, None, (fuel - 1) as nat).len(),
                |q: int|
                    (
                        crate::machine::get_walkers_spec(child, None, (fuel - 1) as nat)[q],
                        state,
                        tgt,
                    ),
            );
            let passed_j: Seq<(WalkerModel, StateModel, StateModel)> = if child.optional
                && !a.ends.contains(tgt) && w.accepts_more {
                transitions_spec(a, w, tgt, (fuel - 1) as nat)
            } else {
                Seq::empty()
            };
            assert(trans_edges_spec(a, w, state, edges, j, fuel)[from_child.len() + passed_j.len()
                + k] == x);
        }
    }
    if j == 0 {
        assert(transitions_spec(a, w, state, fuel) == trans_edges_spec(a, w, state, edges, 0, fuel));
    }
}

} // verus!
