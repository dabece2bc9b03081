//! The state-machine behaviour layered over an acceptor: enumerating
//! transitions (including pass-through of optional edges), branching walkers
//! into parallel candidates, and driving token consumption to completion,
//! also when one raw token spans several grammar states.
//!
//! Walker exploration over a recursive graph of acceptors is bounded by an
//! explicit fuel, a deliberate bound on worst-case work of the same kind as
//! the depth bound on continuation lookahead.

use vstd::prelude::*;

verus! {

use crate::acceptor::Acceptor;
use crate::acceptor::AcceptorModel;
use crate::acceptor::State;
use crate::acceptor::StateModel;
use crate::acceptor::RuleModel;
use crate::acceptor::Edge;
use crate::acceptor::acc_view;
use crate::acceptor::clone_acceptor;
use crate::acceptor::edges_view;
use crate::acceptor::lemma_edges_view_full;
use crate::acceptor::lemma_graph_rows_view_full;
use crate::acceptor::opt_state_view;
use crate::acceptor::state_eq;
use crate::walker::Walker;
use crate::walker::WalkerModel;
use crate::walker::fresh_walker;
use crate::walker::has_reached_spec;
use crate::walker::opt_str_text;
use crate::walker::start_transition_spec;
use crate::walker::walker_view;
use crate::walker::walkers_view;
use crate::walker::lemma_walkers_view_full;

/// How many levels of graph descent and optional pass-through one walker
/// exploration may take.
pub const TRANSITION_FUEL: usize = 16;

/// The edges leaving `state`: those of the first graph row for that state.
/// A well-formed graph lists each state at most once; a duplicate row is
/// never read.
pub open spec fn get_edges_spec(a: AcceptorModel, state: StateModel) -> Seq<
    (AcceptorModel, StateModel),
> {
    rows_lookup(a.graph, state, 0)
}

/// The edge list of the first row from index `i` on whose state is `s`.
pub open spec fn rows_lookup(
    rows: Seq<(StateModel, Seq<(AcceptorModel, StateModel)>)>,
    s: StateModel,
    i: int,
) -> Seq<(AcceptorModel, StateModel)>
    decreases rows.len() - i,
{
    if i < 0 || i >= rows.len() {
        Seq::empty()
    } else if rows[i].0 == s {
        rows[i].1
    } else {
        rows_lookup(rows, s, i + 1)
    }
}

/// The initial walkers of an acceptor: a fresh walker at the start state (or
/// the given state), branched through the graph when one is present.
pub open spec fn get_walkers_spec(
    a: AcceptorModel,
    state: Option<StateModel>,
    fuel: nat,
) -> Seq<WalkerModel>
    decreases fuel, 3int, 0int,
{
    let cur = match state {
        Some(s) => s,
        None => a.start,
    };
    let init = fresh_walker(a, cur);
    if a.graph.len() != 0 {
        acceptor_branch_spec(a, init, None, fuel)
    } else {
        seq![init]
    }
}

/// The candidates an acceptor yields for a walker: a composite graph branches
/// through its transitions; leaf acceptors yield no branches.
pub open spec fn acceptor_branch_spec(
    a: AcceptorModel,
    w: WalkerModel,
    token: Option<Seq<char>>,
    fuel: nat,
) -> Seq<WalkerModel>
    decreases fuel, 2int, 0int,
{
    match a.rule {
        RuleModel::Graph => machine_branch_spec(a, w, token, fuel),
        _ => Seq::empty(),
    }
}

/// The walkers branched from `w` over machine `a`: each reachable transition
/// is started; a refused start over an optional child whose target is an
/// accepting state yields the original walker as an accepted alternative,
/// seeded with the input token as leftover when it had none.
pub open spec fn machine_branch_spec(
    a: AcceptorModel,
    w: WalkerModel,
    token: Option<Seq<char>>,
    fuel: nat,
) -> Seq<WalkerModel>
    decreases fuel, 1int, 0int,
{
    let input_token = match token {
        Some(t) => Some(t),
        None => w.remaining,
    };
    let cands = transitions_spec(a, w, w.current, fuel);
    branch_cands_spec(a, w, input_token, cands, 0)
}

/// The walkers obtained from the transition candidates from index `i` on.
pub open spec fn branch_cands_spec(
    a: AcceptorModel,
    w: WalkerModel,
    token: Option<Seq<char>>,
    cands: Seq<(WalkerModel, StateModel, StateModel)>,
    i: int,
) -> Seq<WalkerModel>
    decreases cands.len() - i,
{
    if i < 0 || i >= cands.len() {
        Seq::empty()
    } else {
        let (tw, ss, ts) = cands[i];
        let rest = branch_cands_spec(a, w, token, cands, i + 1);
        match start_transition_spec(w, tw, token, Some(ss), Some(ts)) {
            Some(b) => seq![b] + rest,
            None => if tw.acceptor.optional && a.ends.contains(ts) && token is Some {
                let w2 = if w.remaining is None {
                    WalkerModel { remaining: token, ..w }
                } else {
                    w
                };
                seq![w2] + rest
            } else {
                rest
            },
        }
    }
}

/// The transition candidates from `state`: every initial walker of each
/// outgoing edge's child, and, past an optional child whose target is not an
/// accepting state, the candidates reachable beyond that target while the
/// walker can still accept input.
pub open spec fn transitions_spec(
    a: AcceptorModel,
    w: WalkerModel,
    state: StateModel,
    fuel: nat,
) -> Seq<(WalkerModel, StateModel, StateModel)>
    decreases fuel, 0int, get_edges_spec(a, state).len() + 2,
{
    if fuel == 0 {
        Seq::empty()
    } else {
        trans_edges_spec(a, w, state, get_edges_spec(a, state), 0, fuel)
    }
}

/// The transition candidates contributed by the edges from index `i` on.
pub open spec fn trans_edges_spec(
    a: AcceptorModel,
    w: WalkerModel,
    state: StateModel,
    edges: Seq<(AcceptorModel, StateModel)>,
    i: int,
    fuel: nat,
) -> Seq<(WalkerModel, StateModel, StateModel)>
    decreases fuel, 0int, edges.len() - i + 1,
{
    if i < 0 || i >= edges.len() || fuel == 0 {
        Seq::empty()
    } else {
        let (child, tgt) = edges[i];
        let from_child = Seq::new(
            get_walkers_spec(child, None, (fuel - 1) as nat).len(),
            |k: int| (get_walkers_spec(child, None, (fuel - 1) as nat)[k], state, tgt),
        );
        let passed = if child.optional && !a.ends.contains(tgt) && w.accepts_more {
            transitions_spec(a, w, tgt, (fuel - 1) as nat)
        } else {
            Seq::empty()
        };
        from_child + passed + trans_edges_spec(a, w, state, edges, i + 1, fuel)
    }
}

/// The branches of a walker: a walker mid-transition branches through its
/// child and wraps each deeper branch; a child that yields no branches and
/// has not reached an accepting state is a dead end; otherwise the owning
/// acceptor branches the walker.
pub open spec fn walker_branch_spec(w: WalkerModel, token: Option<Seq<char>>) -> Seq<WalkerModel>
    decreases w,
{
    match w.transition {
        Some(c) => {
            let tbs = if c.accepts_more {
                walker_branch_spec(*c, token)
            } else {
                Seq::<WalkerModel>::empty()
            };
            let wrapped = Seq::new(
                tbs.len(),
                |k: int| WalkerModel { transition: Some(Box::new(tbs[k])), ..w },
            );
            if tbs.len() > 0 || !has_reached_spec(*c) {
                wrapped
            } else {
                acceptor_branch_spec(w.acceptor, w, token, TRANSITION_FUEL as nat)
            }
        },
        None => acceptor_branch_spec(w.acceptor, w, token, TRANSITION_FUEL as nat),
    }
}

/// The values of a list of transition candidates, in order.
pub open spec fn triples_view(s: Seq<(Walker, State, State)>) -> Seq<
    (WalkerModel, StateModel, StateModel),
> {
    s.map_values(|t: (Walker, State, State)| (walker_view(t.0), t.1@, t.2@))
}

/// Each element of a triples view is the view of the corresponding triple.
pub proof fn lemma_triples_view_full(s: Seq<(Walker, State, State)>)
    ensures
        triples_view(s).len() == s.len(),
        forall|k: int|
            0 <= k < s.len() ==> #[trigger] triples_view(s)[k] == (
            walker_view(s[k].0),
            s[k].1@,
            s[k].2@,
            ),
{
}

/// The index of the first graph row for `state`, when one exists.
fn find_row(a: &Acceptor, state: &State) -> (r: Option<usize>)
    ensures
        match r {
            Some(i) => {
                &&& 0 <= i < a.state_graph@.len()
                &&& a@.graph[i as int].0 == state@
                &&& forall|j: int| 0 <= j < i ==> a@.graph[j].0 != state@
            },
            None => forall|j: int| 0 <= j < a.state_graph@.len() ==> a@.graph[j].0 != state@,
        },
{
    proof {
        lemma_graph_rows_view_full(a.state_graph@);
    }
    let mut i: usize = 0;
    while i < a.state_graph.len()
        invariant
            0 <= i <= a.state_graph@.len(),
            a@.graph.len() == a.state_graph@.len(),
            forall|k: int|
                0 <= k < a.state_graph@.len() ==> #[trigger] a@.graph[k] == (
                a.state_graph@[k].0@,
                edges_view(a.state_graph@[k].1@, 0),
                ),
            forall|j: int| 0 <= j < i ==> a@.graph[j].0 != state@,
        decreases a.state_graph@.len() - i,
    {
        if state_eq(&a.state_graph[i].0, state) {
            return Some(i);
        }
        i = i + 1;
    }
    None
}

/// The looked-up edges are those of the first matching row.
proof fn lemma_rows_lookup_at(
    rows: Seq<(StateModel, Seq<(AcceptorModel, StateModel)>)>,
    s: StateModel,
    i: int,
)
    requires
        0 <= i <= rows.len(),
        forall|j: int| 0 <= j < i ==> rows[j].0 != s,
    ensures
        rows_lookup(rows, s, 0) == rows_lookup(rows, s, i),
    decreases i,
{
    if i > 0 {
        lemma_rows_lookup_at(rows, s, i - 1);
    }
}

/// The outgoing edges of the given state, as a fresh copy.
pub fn get_edges(a: &Acceptor, state: &State) -> (r: Vec<Edge>)
    ensures
        edges_view(r@, 0) == get_edges_spec(a@, state@),
{
    let row = find_row(a, state);
    proof {
        lemma_graph_rows_view_full(a.state_graph@);
    }
    match row {
        Some(i) => {
            proof {
                lemma_rows_lookup_at(a@.graph, state@, i as int);
            }
            clone_edges(&a.state_graph[i].1)
        },
        None => {
            proof {
                lemma_rows_lookup_at(a@.graph, state@, a@.graph.len() as int);
            }
            let r: Vec<Edge> = Vec::new();
            proof {
                lemma_edges_view_full(r@);
                assert(edges_view(r@, 0) =~= get_edges_spec(a@, state@));
            }
            r
        },
    }
}

/// A copy of an edge list, preserving the values.
pub fn clone_edges(es: &Vec<Edge>) -> (r: Vec<Edge>)
    ensures
        edges_view(r@, 0) == edges_view(es@, 0),
{
    let mut r: Vec<Edge> = Vec::new();
    let mut i: usize = 0;
    while i < es.len()
        invariant
            0 <= i <= es@.len(),
            r@.len() == i,
            forall|k: int|
                0 <= k < i ==> acc_view((#[trigger] r@[k]).0) == acc_view(es@[k].0) && r@[k].1@
                    == es@[k].1@,
        decreases es@.len() - i,
    {
        r.push((clone_acceptor(&es[i].0), es[i].1.clone()));
        i = i + 1;
    }
    proof {
        lemma_edges_view_full(r@);
        lemma_edges_view_full(es@);
        assert(edges_view(r@, 0) =~= edges_view(es@, 0));
    }
    r
}

/// The initial walkers of `a`, as `get_walkers_spec` states it with the
/// standard fuel.
pub fn get_walkers(a: &Acceptor, state: Option<State>) -> (r: Vec<Walker>)
    ensures
        walkers_view(r@) == get_walkers_spec(
            a@,
            opt_state_view(state),
            TRANSITION_FUEL as nat,
        ),
{
    get_walkers_fueled(a, state, TRANSITION_FUEL)
}

/// The initial walkers of `a` with explicit exploration fuel.
pub fn get_walkers_fueled(a: &Acceptor, state: Option<State>, fuel: usize) -> (r: Vec<Walker>)
    ensures
        walkers_view(r@) == get_walkers_spec(a@, opt_state_view(state), fuel as nat),
    decreases fuel, 3int, 0int,
{
    let cur: State = match &state {
        Some(s) => s.clone(),
        None => a.start_state.clone(),
    };
    let init = Walker::new(clone_acceptor(a), Some(cur));
    if a.state_graph.len() != 0 {
        proof {
            lemma_graph_rows_view_full(a.state_graph@);
        }
        acceptor_branch_fueled(a, &init, None, fuel)
    } else {
        proof {
            lemma_graph_rows_view_full(a.state_graph@);
        }
        let mut r: Vec<Walker> = Vec::new();
        r.push(init);
        proof {
            lemma_walkers_view_full(r@);
            assert(walkers_view(r@) =~= get_walkers_spec(a@, opt_state_view(state), fuel as nat));
        }
        r
    }
}

impl Acceptor {
    /// The candidate walkers this acceptor yields to continue from `walker`:
    /// a composite graph branches through the machine; leaf acceptors yield
    /// no branches.
    pub fn branch_walker(&self, walker: &Walker, token: Option<&str>) -> (r: Vec<Walker>)
        ensures
            walkers_view(r@) == acceptor_branch_spec(
                self@,
                walker@,
                opt_str_text(token),
                TRANSITION_FUEL as nat,
            ),
    {
        acceptor_branch_fueled(self, walker, token, TRANSITION_FUEL)
    }
}

/// The candidates an acceptor yields for a walker with explicit fuel.
pub fn acceptor_branch_fueled(
    a: &Acceptor,
    walker: &Walker,
    token: Option<&str>,
    fuel: usize,
) -> (r: Vec<Walker>)
    ensures
        walkers_view(r@) == acceptor_branch_spec(a@, walker@, opt_str_text(token), fuel as nat),
    decreases fuel, 2int, 0int,
{
    match &a.rule {
        crate::acceptor::Rule::Graph => machine_branch_fueled(a, walker, token, fuel),
        _ => {
            let r: Vec<Walker> = Vec::new();
            proof {
                lemma_walkers_view_full(r@);
                assert(walkers_view(r@) =~= acceptor_branch_spec(
                    a@,
                    walker@,
                    opt_str_text(token),
                    fuel as nat,
                ));
            }
            r
        },
    }
}

/// The walkers branched from `walker` over machine `a`, as
/// `machine_branch_spec` states it.
pub fn machine_branch_fueled(
    a: &Acceptor,
    walker: &Walker,
    token: Option<&str>,
    fuel: usize,
) -> (r: Vec<Walker>)
    ensures
        walkers_view(r@) == machine_branch_spec(a@, walker@, opt_str_text(token), fuel as nat),
    decreases fuel, 1int, 0int,
{
    let input_token: Option<String> = match token {
        Some(t) => Some(t.to_owned()),
        None => match &walker.remaining_input {
            Some(s) => Some(s.clone()),
            None => None,
        },
    };
    let ghost tok = match opt_str_text(token) {
        Some(t) => Some(t),
        None => walker@.remaining,
    };
    proof {
        assert(crate::text::opt_text(input_token) == tok);
    }
    let cands = transitions_with_fuel(a, walker, &walker.current_state, fuel);
    let ghost cands_m = transitions_spec(a@, walker@, walker@.current, fuel as nat);
    let mut r: Vec<Walker> = Vec::new();
    let mut i: usize = 0;
    proof {
        lemma_triples_view_full(cands@);
    }
    while i < cands.len()
        invariant
            0 <= i <= cands@.len(),
            cands_m == triples_view(cands@),
            cands_m.len() == cands@.len(),
            forall|k: int|
                0 <= k < cands@.len() ==> #[trigger] triples_view(cands@)[k] == (
                walker_view(cands@[k].0),
                cands@[k].1@,
                cands@[k].2@,
                ),
            crate::text::opt_text(input_token) == tok,
            branch_cands_spec(a@, walker@, tok, cands_m, 0) =~= walkers_view(r@)
                + branch_cands_spec(a@, walker@, tok, cands_m, i as int),
        decreases cands@.len() - i,
    {
        let ghost iprev = i as int;
        let ghost r_prev = r@;
        let tw = cands[i].0.deep_clone();
        let ss = cands[i].1.clone();
        let ts = cands[i].2.clone();
        let tok_ref: Option<&str> = match &input_token {
            Some(t) => Some(t.as_str()),
            None => None,
        };
        let started = walker.start_transition(tw, tok_ref, Some(ss), Some(ts));
        match started {
            Some(b) => {
                r.push(b);
            },
            None => {
                let child_optional = cands[i].0.acceptor.is_optional();
                let target_is_end = crate::acceptor::states_contain(&a.end_states, &cands[i].2);
                if child_optional && target_is_end && input_token.is_some() {
                    let mut alt = walker.deep_clone();
                    if alt.remaining_input.is_none() {
                        alt.remaining_input = match &input_token {
                            Some(t) => Some(t.clone()),
                            None => None,
                        };
                    }
                    r.push(alt);
                }
            },
        }
        i = i + 1;
        proof {
            lemma_walkers_view_full(r@);
            lemma_walkers_view_full(r_prev);
            assert(branch_cands_spec(a@, walker@, tok, cands_m, iprev) == {
                let (twm, ssm, tsm) = cands_m[iprev];
                let rest = branch_cands_spec(a@, walker@, tok, cands_m, iprev + 1);
                match start_transition_spec(walker@, twm, tok, Some(ssm), Some(tsm)) {
                    Some(b) => seq![b] + rest,
                    None => if twm.acceptor.optional && a@.ends.contains(tsm) && tok is Some {
                        let w2 = if walker@.remaining is None {
                            WalkerModel { remaining: tok, ..walker@ }
                        } else {
                            walker@
                        };
                        seq![w2] + rest
                    } else {
                        rest
                    },
                }
            });
            assert(branch_cands_spec(a@, walker@, tok, cands_m, 0) =~= walkers_view(r@)
                + branch_cands_spec(a@, walker@, tok, cands_m, i as int));
        }
    }
    proof {
        assert(branch_cands_spec(a@, walker@, tok, cands_m, cands_m.len() as int)
            =~= Seq::<WalkerModel>::empty());
        assert(walkers_view(r@) =~= machine_branch_spec(
            a@,
            walker@,
            opt_str_text(token),
            fuel as nat,
        ));
    }
    r
}

/// The transition candidates from the given (or the walker's current) state.
pub fn get_transitions(a: &Acceptor, walker: &Walker, state: Option<&State>) -> (r: Vec<
    (Walker, State, State),
>)
    ensures
        triples_view(r@) == transitions_spec(
            a@,
            walker@,
            match state {
                Some(s) => s@,
                None => walker@.current,
            },
            TRANSITION_FUEL as nat,
        ),
{
    match state {
        Some(s) => transitions_with_fuel(a, walker, s, TRANSITION_FUEL),
        None => transitions_with_fuel(a, walker, &walker.current_state, TRANSITION_FUEL),
    }
}

/// The transition candidates from `state` with explicit pass-through fuel.
pub fn transitions_with_fuel(a: &Acceptor, walker: &Walker, state: &State, fuel: usize) -> (r: Vec<
    (Walker, State, State),
>)
    ensures
        triples_view(r@) == transitions_spec(a@, walker@, state@, fuel as nat),
    decreases fuel, 0int, 1int,
{
    let mut r: Vec<(Walker, State, State)> = Vec::new();
    if fuel == 0 {
        proof {
            lemma_triples_view_full(r@);
            assert(triples_view(r@) =~= transitions_spec(a@, walker@, state@, fuel as nat));
        }
        return r;
    }
    let row = find_row(a, state);
    proof {
        lemma_graph_rows_view_full(a.state_graph@);
    }
    let ri: usize = match row {
        Some(i) => {
            proof {
                lemma_rows_lookup_at(a@.graph, state@, i as int);
            }
            i
        },
        None => {
            proof {
                lemma_rows_lookup_at(a@.graph, state@, a@.graph.len() as int);
                lemma_triples_view_full(r@);
                assert(trans_edges_spec(
                    a@,
                    walker@,
                    state@,
                    get_edges_spec(a@, state@),
                    0,
                    fuel as nat,
                ) =~= Seq::<(WalkerModel, StateModel, StateModel)>::empty());
                assert(triples_view(r@) =~= transitions_spec(a@, walker@, state@, fuel as nat));
            }
            return r;
        },
    };
    let ghost edges_m = get_edges_spec(a@, state@);
    proof {
        lemma_edges_view_full(a.state_graph@[ri as int].1@);
    }
    let mut j: usize = 0;
    while j < a.state_graph[ri].1.len()
        invariant
            0 <= j <= a.state_graph@[ri as int].1@.len(),
            0 <= ri < a.state_graph@.len(),
            1 <= fuel,
            edges_m == edges_view(a.state_graph@[ri as int].1@, 0),
            edges_m == get_edges_spec(a@, state@),
            edges_m.len() == a.state_graph@[ri as int].1@.len(),
            forall|k: int|
                0 <= k < edges_m.len() ==> #[trigger] edges_m[k] == (
                acc_view(a.state_graph@[ri as int].1@[k].0),
                a.state_graph@[ri as int].1@[k].1@,
                ),
            trans_edges_spec(a@, walker@, state@, edges_m, 0, fuel as nat) =~= triples_view(r@)
                + trans_edges_spec(a@, walker@, state@, edges_m, j as int, fuel as nat),
        decreases a.state_graph@[ri as int].1@.len() - j,
    {
        let ghost jprev = j as int;
        let ghost r_prev = r@;
        let edge = &a.state_graph[ri].1[j];
        let ghost child_m = acc_view(a.state_graph@[ri as int].1@[jprev].0);
        let ghost tgt_m = a.state_graph@[ri as int].1@[jprev].1@;
        let tgt_state: State = edge.1.clone();
        proof {
            assert(tgt_state@ == tgt_m);
        }
        let child_walkers = get_walkers_fueled(&edge.0, None, fuel - 1);
        let ghost from_child = Seq::new(
            get_walkers_spec(child_m, None, (fuel - 1) as nat).len(),
            |q: int| (get_walkers_spec(child_m, None, (fuel - 1) as nat)[q], state@, tgt_m),
        );
        proof {
            lemma_walkers_view_full(child_walkers@);
        }
        let mut k: usize = 0;
        while k < child_walkers.len()
            invariant
                0 <= k <= child_walkers@.len(),
                walkers_view(child_walkers@) == get_walkers_spec(child_m, None, (fuel - 1) as nat),
                from_child == Seq::new(
                    get_walkers_spec(child_m, None, (fuel - 1) as nat).len(),
                    |q: int|
                        (get_walkers_spec(child_m, None, (fuel - 1) as nat)[q], state@, tgt_m),
                ),
                from_child.len() == child_walkers@.len(),
                0 <= ri < a.state_graph@.len(),
                0 <= jprev < a.state_graph@[ri as int].1@.len(),
                tgt_state@ == tgt_m,
                forall|q: int|
                    0 <= q < child_walkers@.len() ==> #[trigger] walkers_view(child_walkers@)[q]
                        == walker_view(child_walkers@[q]),
                triples_view(r@) =~= triples_view(r_prev) + from_child.subrange(0, k as int),
            decreases child_walkers@.len() - k,
        {
            let ghost r_mid = r@;
            r.push((child_walkers[k].deep_clone(), state.clone(), tgt_state.clone()));
            k = k + 1;
            proof {
                lemma_triples_view_full(r@);
                lemma_triples_view_full(r_mid);
                assert(from_child[k - 1] == (
                    get_walkers_spec(child_m, None, (fuel - 1) as nat)[k - 1],
                    state@,
                    tgt_m,
                ));
                assert(walker_view(r@[r@.len() - 1].0) == get_walkers_spec(
                    child_m,
                    None,
                    (fuel - 1) as nat,
                )[k - 1]);
                assert(r@[r@.len() - 1].1@ == state@);
                assert(r@[r@.len() - 1].2@ == tgt_m);
                assert(triples_view(r@)[r@.len() - 1] == from_child[k - 1]);
                assert forall|x: int| 0 <= x < r@.len() implies triples_view(r@)[x] == (
                triples_view(r_prev) + from_child.subrange(0, k as int))[x] by {
                    if x < r_mid.len() {
                        assert(triples_view(r@)[x] == triples_view(r_mid)[x]);
                        assert(triples_view(r_mid)[x] == (triples_view(r_prev)
                            + from_child.subrange(0, k - 1))[x]);
                        if x >= r_prev.len() {
                            assert((triples_view(r_prev) + from_child.subrange(0, k - 1))[x]
                                == from_child.subrange(0, k - 1)[x - r_prev.len()]);
                            assert(from_child.subrange(0, k - 1)[x - r_prev.len()] == from_child[x
                                - r_prev.len()]);
                        }
                    }
                }
                assert(triples_view(r@) =~= triples_view(r_prev) + from_child.subrange(
                    0,
                    k as int,
                ));
            }
        }
        proof {
            assert(from_child.subrange(0, from_child.len() as int) =~= from_child);
            assert(triples_view(r@) =~= triples_view(r_prev) + from_child);
        }
        let ghost r_mid2 = r@;
        let pass_optional = edge.0.is_optional();
        let target_is_end = crate::acceptor::states_contain(&a.end_states, &edge.1);
        let can_more = walker.can_accept_more_input();
        let ghost passed_m = if child_m.optional && !a@.ends.contains(tgt_m) && walker@.accepts_more {
            transitions_spec(a@, walker@, tgt_m, (fuel - 1) as nat)
        } else {
            Seq::<(WalkerModel, StateModel, StateModel)>::empty()
        };
        if pass_optional && !target_is_end && can_more {
            let passed = transitions_with_fuel(a, walker, &edge.1, fuel - 1);
            proof {
                lemma_triples_view_full(passed@);
            }
            let mut q: usize = 0;
            while q < passed.len()
                invariant
                    0 <= q <= passed@.len(),
                    passed@.len() == passed_m.len(),
                    triples_view(passed@) == passed_m,
                    forall|x: int|
                        0 <= x < passed@.len() ==> #[trigger] triples_view(passed@)[x] == (
                        walker_view(passed@[x].0),
                        passed@[x].1@,
                        passed@[x].2@,
                        ),
                    triples_view(r@) =~= triples_view(r_mid2) + passed_m.subrange(0, q as int),
                decreases passed@.len() - q,
            {
                let ghost r_mid3 = r@;
                let item = (passed[q].0.deep_clone(), passed[q].1.clone(), passed[q].2.clone());
                r.push(item);
                q = q + 1;
                proof {
                    lemma_triples_view_full(r@);
                    lemma_triples_view_full(r_mid3);
                    assert(triples_view(r@)[r@.len() - 1] == passed_m[q - 1]);
                    assert forall|x: int| 0 <= x < r@.len() implies triples_view(r@)[x] == (
                    triples_view(r_mid2) + passed_m.subrange(0, q as int))[x] by {
                        if x < r_mid3.len() {
                            assert(triples_view(r@)[x] == triples_view(r_mid3)[x]);
                            assert(triples_view(r_mid3)[x] == (triples_view(r_mid2)
                                + passed_m.subrange(0, q - 1))[x]);
                            if x >= r_mid2.len() {
                                assert((triples_view(r_mid2) + passed_m.subrange(0, q - 1))[x]
                                    == passed_m.subrange(0, q - 1)[x - r_mid2.len()]);
                                assert(passed_m.subrange(0, q - 1)[x - r_mid2.len()] == passed_m[x
                                    - r_mid2.len()]);
                            }
                        }
                    }
                    assert(triples_view(r@) =~= triples_view(r_mid2) + passed_m.subrange(
                        0,
                        q as int,
                    ));
                }
            }
            proof {
                assert(passed_m.subrange(0, passed_m.len() as int) =~= passed_m);
                assert(triples_view(r@) =~= triples_view(r_mid2) + passed_m);
            }
        } else {
            proof {
                assert(triples_view(r@) =~= triples_view(r_mid2) + passed_m);
            }
        }
        j = j + 1;
        proof {
            assert(trans_edges_spec(a@, walker@, state@, edges_m, jprev, fuel as nat)
                == from_child + passed_m + trans_edges_spec(
                a@,
                walker@,
                state@,
                edges_m,
                jprev + 1,
                fuel as nat,
            ));
            assert(trans_edges_spec(a@, walker@, state@, edges_m, 0, fuel as nat) =~= triples_view(
                r@,
            ) + trans_edges_spec(a@, walker@, state@, edges_m, j as int, fuel as nat));
        }
    }
    proof {
        assert(trans_edges_spec(a@, walker@, state@, edges_m, edges_m.len() as int, fuel as nat)
            =~= Seq::<(WalkerModel, StateModel, StateModel)>::empty());
        assert(triples_view(r@) =~= transitions_spec(a@, walker@, state@, fuel as nat));
    }
    r
}

impl Walker {
    /// The branches of this walker, as `walker_branch_spec` states it.
    pub fn branch(&self, token: Option<&str>) -> (r: Vec<Walker>)
        ensures
            walkers_view(r@) == walker_branch_spec(self@, opt_str_text(token)),
        decreases *self,
    {
        match &self.transition_walker {
            Some(t) => {
                let mut tbs: Vec<Walker> = Vec::new();
                if (&**t).can_accept_more_input() {
                    tbs = (&**t).branch(token);
                }
                let ghost tbs_m = walkers_view(tbs@);
                proof {
                    lemma_walkers_view_full(tbs@);
                    assert(tbs_m == if walker_view(**t).accepts_more {
                        walker_branch_spec(walker_view(**t), opt_str_text(token))
                    } else {
                        Seq::<WalkerModel>::empty()
                    });
                }
                if tbs.len() > 0 || !(&**t).has_reached_accept_state() {
                    let mut r: Vec<Walker> = Vec::new();
                    let mut i: usize = 0;
                    while i < tbs.len()
                        invariant
                            0 <= i <= tbs@.len(),
                            tbs_m.len() == tbs@.len(),
                            forall|k: int|
                                0 <= k < tbs@.len() ==> #[trigger] walkers_view(tbs@)[k]
                                    == walker_view(tbs@[k]),
                            walkers_view(tbs@) == tbs_m,
                            r@.len() == i,
                            forall|k: int|
                                0 <= k < i ==> walker_view(#[trigger] r@[k]) == (WalkerModel {
                                    transition: Some(Box::new(tbs_m[k])),
                                    ..walker_view(*self)
                                }),
                        decreases tbs@.len() - i,
                    {
                        let mut c = self.deep_clone();
                        c.transition_walker = Some(Box::new(tbs[i].deep_clone()));
                        proof {
                            assert(walker_view(c) =~= WalkerModel {
                                transition: Some(Box::new(tbs_m[i as int])),
                                ..walker_view(*self)
                            });
                        }
                        r.push(c);
                        i = i + 1;
                    }
                    proof {
                        lemma_walkers_view_full(r@);
                        assert(walkers_view(r@) =~= walker_branch_spec(self@, opt_str_text(token)));
                    }
                    r
                } else {
                    self.acceptor.branch_walker(self, token)
                }
            },
            None => self.acceptor.branch_walker(self, token),
        }
    }
}

/// How many nesting levels one token consumption may descend through.
pub const CONSUME_FUEL: usize = 16;

/// How many queue items one advance call may process.
pub const ADVANCE_WORK_LIMIT: usize = 64;

/// The walkers a walker yields for a token: leaves consume directly; a
/// composite walker drives the work queue of `advance_queue_spec`.
pub open spec fn consume_spec(m: WalkerModel, token: Seq<char>, fuel: nat) -> Seq<WalkerModel>
    decreases fuel, 1int, 0int,
{
    if fuel == 0 {
        Seq::empty()
    } else {
        match m.acceptor.rule {
            RuleModel::Literal(_) => crate::walker::literal_consume_spec(m, token),
            RuleModel::AnyToken => crate::walker::any_consume_spec(m, token),
            RuleModel::Graph => advance_queue_spec(
                seq![(m, token)],
                ADVANCE_WORK_LIMIT as nat,
                fuel,
            ),
        }
    }
}

/// The pairs requeued for a list of walkers, all with the same token.
pub open spec fn requeue_pairs(ws: Seq<WalkerModel>, tok: Seq<char>) -> Seq<
    (WalkerModel, Seq<char>),
> {
    Seq::new(ws.len(), |i: int| (ws[i], tok))
}

/// The handling of a blocked walker's branches from index `i` on: branches
/// that may start are requeued; the first branch already at an accepting
/// state short-circuits and is returned alone; the rest are dropped.
pub open spec fn blocked_scan_spec(bs: Seq<WalkerModel>, i: int) -> (
    Seq<WalkerModel>,
    Option<WalkerModel>,
)
    decreases bs.len() - i,
{
    if i < 0 || i >= bs.len() {
        (Seq::empty(), None)
    } else {
        let b = bs[i];
        let b2 = crate::walker::after_should_start(b);
        if crate::walker::should_start_spec(b) {
            let (rq, sc) = blocked_scan_spec(bs, i + 1);
            (seq![b2] + rq, sc)
        } else if has_reached_spec(b) {
            (Seq::empty(), Some(b2))
        } else {
            blocked_scan_spec(bs, i + 1)
        }
    }
}

/// The handling of the completed results from index `i` on: a result still
/// holding leftover input is requeued with that leftover; the others are
/// final.
pub open spec fn complete_scan_spec(w2: WalkerModel, rs: Seq<WalkerModel>, i: int) -> (
    Seq<(WalkerModel, Seq<char>)>,
    Seq<WalkerModel>,
)
    decreases rs.len() - i,
{
    if i < 0 || i >= rs.len() {
        (Seq::empty(), Seq::empty())
    } else {
        let res = crate::walker::complete_transition_spec(w2, rs[i]).0;
        let (rq, fin) = complete_scan_spec(w2, rs, i + 1);
        match res.remaining {
            Some(t) => (seq![(res, t)] + rq, fin),
            None => (rq, seq![res] + fin),
        }
    }
}

/// The results of working the advance queue: each item is either blocked
/// (branch, requeue what may start, or yield an accepted branch or a walker
/// with leftover) or consumed one step through its active transition, with
/// leftover-bearing results requeued.  The budget bounds the work.
pub open spec fn advance_queue_spec(
    queue: Seq<(WalkerModel, Seq<char>)>,
    budget: nat,
    fuel: nat,
) -> Seq<WalkerModel>
    decreases fuel, 0int, budget,
{
    if queue.len() == 0 || budget == 0 || fuel == 0 {
        Seq::empty()
    } else {
        let (w, tok) = queue[0];
        let w2 = crate::walker::after_should_start(w);
        let blocked = !crate::walker::should_start_spec(w) || w.transition is None;
        if blocked {
            let bs = walker_branch_spec(w2, Some(tok));
            let (requeues, sc) = blocked_scan_spec(bs, 0);
            match sc {
                Some(x) => seq![x] + advance_queue_spec(
                    queue.drop_first(),
                    (budget - 1) as nat,
                    fuel,
                ),
                None => {
                    let yielded: Seq<WalkerModel> = if requeues.len() == 0 && w2.remaining is Some {
                        seq![w2]
                    } else {
                        Seq::empty()
                    };
                    yielded + advance_queue_spec(
                        queue.drop_first() + requeue_pairs(requeues, tok),
                        (budget - 1) as nat,
                        fuel,
                    )
                },
            }
        } else {
            let child = match w2.transition {
                Some(c) => *c,
                None => w2,
            };
            let rs = consume_spec(child, tok, (fuel - 1) as nat);
            let (requeues, finals) = complete_scan_spec(w2, rs, 0);
            finals + advance_queue_spec(
                queue.drop_first() + requeues,
                (budget - 1) as nat,
                fuel,
            )
        }
    }
}

/// The values of a queue of walker/token pairs, in order.
pub open spec fn queue_views(s: Seq<(Walker, String)>) -> Seq<(WalkerModel, Seq<char>)> {
    s.map_values(|p: (Walker, String)| (walker_view(p.0), p.1@))
}

/// Each element of a queue view is the view of the corresponding pair.
pub proof fn lemma_queue_views_full(s: Seq<(Walker, String)>)
    ensures
        queue_views(s).len() == s.len(),
        forall|k: int|
            0 <= k < s.len() ==> #[trigger] queue_views(s)[k] == (walker_view(s[k].0), s[k].1@),
{
}

impl Walker {
    /// The walkers this walker yields for `token`, as `consume_spec` states
    /// it with the standard fuel.
    pub fn consume_token(&self, token: &str) -> (r: Vec<Walker>)
        ensures
            walkers_view(r@) == consume_spec(self@, token@, CONSUME_FUEL as nat),
    {
        consume_fueled(self, token, CONSUME_FUEL)
    }
}

/// Single-walker token consumption with internal fan-out, as
/// `advance_queue_spec` states it with the standard bounds.
pub fn advance(walker: &Walker, token: &str) -> (r: Vec<Walker>)
    ensures
        walkers_view(r@) == advance_queue_spec(
            seq![(walker@, token@)],
            ADVANCE_WORK_LIMIT as nat,
            CONSUME_FUEL as nat,
        ),
{
    advance_queue_fueled(walker, token, CONSUME_FUEL)
}

/// Token consumption with explicit fuel.
pub fn consume_fueled(w: &Walker, token: &str, fuel: usize) -> (r: Vec<Walker>)
    ensures
        walkers_view(r@) == consume_spec(w@, token@, fuel as nat),
    decreases fuel, 1int, 0int,
{
    if fuel == 0 {
        let r: Vec<Walker> = Vec::new();
        proof {
            lemma_walkers_view_full(r@);
            assert(walkers_view(r@) =~= consume_spec(w@, token@, fuel as nat));
        }
        return r;
    }
    match &w.acceptor.rule {
        crate::acceptor::Rule::Literal(_) => w.consume_literal(token),
        crate::acceptor::Rule::AnyToken => w.consume_any(token),
        crate::acceptor::Rule::Graph => advance_queue_fueled(w, token, fuel),
    }
}

/// A sequence extended by the next element of a subrange being rebuilt.
pub proof fn lemma_extend_subrange<T>(x: Seq<T>, p: Seq<T>, a: Seq<T>, k: int)
    requires
        0 < k <= a.len(),
        x == p + a.subrange(0, k - 1),
    ensures
        x.push(a[k - 1]) =~= p + a.subrange(0, k),
{
}

/// The queue-driven advance with explicit fuel.
pub fn advance_queue_fueled(walker: &Walker, token: &str, fuel: usize) -> (r: Vec<Walker>)
    ensures
        walkers_view(r@) == advance_queue_spec(
            seq![(walker@, token@)],
            ADVANCE_WORK_LIMIT as nat,
            fuel as nat,
        ),
    decreases fuel, 0int, 1int,
{
    let mut results: Vec<Walker> = Vec::new();
    if fuel == 0 {
        proof {
            lemma_walkers_view_full(results@);
            assert(walkers_view(results@) =~= advance_queue_spec(
                seq![(walker@, token@)],
                ADVANCE_WORK_LIMIT as nat,
                fuel as nat,
            ));
        }
        return results;
    }
    let mut queue: Vec<(Walker, String)> = Vec::new();
    queue.push((walker.deep_clone(), token.to_owned()));
    let ghost total = advance_queue_spec(
        queue_views(queue@),
        ADVANCE_WORK_LIMIT as nat,
        fuel as nat,
    );
    proof {
        lemma_queue_views_full(queue@);
        assert(queue_views(queue@) =~= seq![(walker@, token@)]);
    }
    let mut qi: usize = 0;
    let mut budget: usize = ADVANCE_WORK_LIMIT;
    proof {
        lemma_walkers_view_full(results@);
        assert(queue_views(queue@).skip(0) =~= queue_views(queue@));
        assert(walkers_view(results@) + advance_queue_spec(
            queue_views(queue@).skip(0),
            budget as nat,
            fuel as nat,
        ) =~= total);
    }
    while qi < queue.len() && budget > 0
        invariant
            1 <= fuel,
            0 <= qi <= queue@.len(),
            walkers_view(results@) + advance_queue_spec(
                queue_views(queue@).skip(qi as int),
                budget as nat,
                fuel as nat,
            ) =~= total,
        decreases budget,
    {
        let ghost qsuffix = queue_views(queue@).skip(qi as int);
        let ghost results_prev = results@;
        proof {
            lemma_queue_views_full(queue@);
            assert(qsuffix[0] == (walker_view(queue@[qi as int].0), queue@[qi as int].1@));
        }
        let mut cw = queue[qi].0.deep_clone();
        let tok = queue[qi].1.clone();
        let ghost w0 = walker_view(cw);
        let started = cw.should_start_transition(tok.as_str());
        let ghost w2 = walker_view(cw);
        let blocked = !started || cw.transition_walker.is_none();
        let ghost qlen_before = queue@.len();
        let ghost yielded: Seq<WalkerModel>;
        let ghost requeued: Seq<(WalkerModel, Seq<char>)>;
        if blocked {
            let bs = cw.branch(Some(tok.as_str()));
            let ghost bs_m = walkers_view(bs@);
            proof {
                lemma_walkers_view_full(bs@);
            }
            let mut sc: Option<Walker> = None;
            let mut rqs: Vec<Walker> = Vec::new();
            let mut bi: usize = 0;
            while bi < bs.len()
                invariant_except_break
                    0 <= bi <= bs@.len(),
                    sc is None,
                    blocked_scan_spec(bs_m, 0).0 =~= walkers_view(rqs@) + blocked_scan_spec(
                        bs_m,
                        bi as int,
                    ).0,
                    blocked_scan_spec(bs_m, 0).1 == blocked_scan_spec(bs_m, bi as int).1,
                invariant
                    bs_m.len() == bs@.len(),
                    forall|k: int|
                        0 <= k < bs@.len() ==> #[trigger] walkers_view(bs@)[k] == walker_view(
                            bs@[k],
                        ),
                    walkers_view(bs@) == bs_m,
                ensures
                    match sc {
                        None => blocked_scan_spec(bs_m, 0).0 =~= walkers_view(rqs@)
                            && blocked_scan_spec(bs_m, 0).1 is None,
                        Some(x) => blocked_scan_spec(bs_m, 0).1 == Some(walker_view(x)),
                    },
                decreases bs@.len() - bi,
            {
                let ghost biprev = bi as int;
                let ghost rqs_prev = rqs@;
                let mut b = bs[bi].deep_clone();
                let b_starts = b.should_start_transition(tok.as_str());
                if b_starts {
                    rqs.push(b);
                    bi = bi + 1;
                    proof {
                        lemma_walkers_view_full(rqs@);
                        lemma_walkers_view_full(rqs_prev);
                        assert(blocked_scan_spec(bs_m, biprev).0 == seq![
                            crate::walker::after_should_start(bs_m[biprev]),
                        ] + blocked_scan_spec(bs_m, biprev + 1).0);
                        assert(walkers_view(rqs@) =~= walkers_view(rqs_prev).push(
                            crate::walker::after_should_start(bs_m[biprev]),
                        ));
                        assert(blocked_scan_spec(bs_m, 0).0 =~= walkers_view(rqs@)
                            + blocked_scan_spec(bs_m, bi as int).0);
                    }
                } else if b.has_reached_accept_state() {
                    proof {
                        assert(blocked_scan_spec(bs_m, biprev).1 == Some(
                            crate::walker::after_should_start(bs_m[biprev]),
                        ));
                    }
                    sc = Some(b);
                    break ;
                } else {
                    bi = bi + 1;
                }
            }
            match sc {
                Some(x) => {
                    proof {
                        yielded = seq![walker_view(x)];
                        requeued = Seq::empty();
                    }
                    results.push(x);
                    proof {
                        lemma_walkers_view_full(results@);
                        lemma_walkers_view_full(results_prev);
                        assert(walkers_view(results@) =~= walkers_view(results_prev) + yielded);
                        assert(queue_views(queue@) =~= queue_views(queue@) + requeued);
                    }
                },
                None => {
                    if rqs.len() == 0 && cw.remaining_input.is_some() {
                        proof {
                            yielded = seq![w2];
                            requeued = Seq::empty();
                        }
                        results.push(cw);
                        proof {
                            lemma_walkers_view_full(results@);
                            lemma_walkers_view_full(results_prev);
                            assert(walkers_view(results@) =~= walkers_view(results_prev)
                                + yielded);
                            assert(queue_views(queue@) =~= queue_views(queue@) + requeued);
                        }
                    } else {
                        let ghost rqs_m = walkers_view(rqs@);
                        let ghost queue_mid = queue@;
                        proof {
                            yielded = Seq::empty();
                            requeued = requeue_pairs(rqs_m, tok@);
                            lemma_walkers_view_full(rqs@);
                            lemma_walkers_view_full(results@);
                            assert(walkers_view(results@) =~= walkers_view(results_prev)
                                + yielded);
                        }
                        let mut ri: usize = 0;
                        proof {
                            assert(queue_views(queue@) =~= queue_views(queue_mid) + requeued.subrange(0, 0));
                        }
                        while ri < rqs.len()
                            invariant
                                0 <= ri <= rqs@.len(),
                                rqs_m.len() == rqs@.len(),
                                forall|k: int|
                                    0 <= k < rqs@.len() ==> #[trigger] walkers_view(rqs@)[k]
                                        == walker_view(rqs@[k]),
                                walkers_view(rqs@) == rqs_m,
                                requeued == requeue_pairs(rqs_m, tok@),
                                requeued.len() == rqs_m.len(),
                                queue_views(queue@) =~= queue_views(queue_mid)
                                    + requeued.subrange(0, ri as int),
                            decreases rqs@.len() - ri,
                        {
                            let ghost queue_prev2 = queue@;
                            queue.push((rqs[ri].deep_clone(), tok.clone()));
                            ri = ri + 1;
                            proof {
                                lemma_queue_views_full(queue@);
                                lemma_queue_views_full(queue_prev2);
                                assert(requeued[ri - 1] == (rqs_m[ri - 1], tok@));
                                assert(queue_views(queue@) =~= queue_views(queue_prev2).push(
                                    (walker_view(rqs@[ri - 1]), tok@),
                                ));
                                lemma_extend_subrange(
                                    queue_views(queue_prev2),
                                    queue_views(queue_mid),
                                    requeued,
                                    ri as int,
                                );
                                assert(queue_views(queue@) =~= queue_views(queue_mid)
                                    + requeued.subrange(0, ri as int));
                            }
                        }
                        proof {
                            assert(requeued.subrange(0, requeued.len() as int) =~= requeued);
                            assert(queue_views(queue@) =~= queue_views(queue_mid) + requeued);
                        }
                    }
                },
            }
        } else {
            let child: Walker = match &cw.transition_walker {
                Some(t) => (&**t).deep_clone(),
                None => cw.deep_clone(),
            };
            let rs = consume_fueled(&child, tok.as_str(), fuel - 1);
            let ghost rs_m = walkers_view(rs@);
            proof {
                lemma_walkers_view_full(rs@);
            }
            let mut new_rq: Vec<(Walker, String)> = Vec::new();
            let mut new_fin: Vec<Walker> = Vec::new();
            let mut ci: usize = 0;
            while ci < rs.len()
                invariant
                    0 <= ci <= rs@.len(),
                    rs_m.len() == rs@.len(),
                    forall|k: int|
                        0 <= k < rs@.len() ==> #[trigger] walkers_view(rs@)[k] == walker_view(
                            rs@[k],
                        ),
                    walkers_view(rs@) == rs_m,
                    cw@ == w2,
                    complete_scan_spec(w2, rs_m, 0).0 =~= queue_views(new_rq@)
                        + complete_scan_spec(w2, rs_m, ci as int).0,
                    complete_scan_spec(w2, rs_m, 0).1 =~= walkers_view(new_fin@)
                        + complete_scan_spec(w2, rs_m, ci as int).1,
                decreases rs@.len() - ci,
            {
                let ghost ciprev = ci as int;
                let ghost new_rq_prev = new_rq@;
                let ghost new_fin_prev = new_fin@;
                let (completed, _reached_end) = cw.complete_transition(rs[ci].deep_clone());
                let res: Walker = match completed {
                    Some(x) => x,
                    None => cw.deep_clone(),
                };
                proof {
                    lemma_complete_scan_step(w2, rs_m, ciprev);
                    assert(res@ == crate::walker::complete_transition_spec(w2, rs_m[ciprev]).0);
                }
                match &res.remaining_input {
                    Some(t2) => {
                        let t2c = t2.clone();
                        let ghost t2m = t2c@;
                        queue_pair_push(&mut new_rq, res, t2c);
                        proof {
                            lemma_queue_views_full(new_rq@);
                            lemma_queue_views_full(new_rq_prev);
                            assert(queue_views(new_rq@) =~= queue_views(new_rq_prev).push(
                                (crate::walker::complete_transition_spec(w2, rs_m[ciprev]).0, t2m),
                            ));
                        }
                    },
                    None => {
                        new_fin.push(res);
                        proof {
                            lemma_walkers_view_full(new_fin@);
                            lemma_walkers_view_full(new_fin_prev);
                        }
                    },
                }
                ci = ci + 1;
                proof {
                    assert(complete_scan_spec(w2, rs_m, 0).0 =~= queue_views(new_rq@)
                        + complete_scan_spec(w2, rs_m, ci as int).0);
                    assert(complete_scan_spec(w2, rs_m, 0).1 =~= walkers_view(new_fin@)
                        + complete_scan_spec(w2, rs_m, ci as int).1);
                }
            }
            proof {
                yielded = complete_scan_spec(w2, rs_m, 0).1;
                requeued = complete_scan_spec(w2, rs_m, 0).0;
                assert(complete_scan_spec(w2, rs_m, rs_m.len() as int).0
                    =~= Seq::<(WalkerModel, Seq<char>)>::empty());
                assert(complete_scan_spec(w2, rs_m, rs_m.len() as int).1
                    =~= Seq::<WalkerModel>::empty());
                assert(queue_views(new_rq@) =~= requeued);
                assert(walkers_view(new_fin@) =~= yielded);
            }
            let ghost results_mid = results@;
            let mut fi: usize = 0;
            while fi < new_fin.len()
                invariant
                    0 <= fi <= new_fin@.len(),
                    walkers_view(results@) =~= walkers_view(results_mid) + walkers_view(
                        new_fin@,
                    ).subrange(0, fi as int),
                    walkers_view(new_fin@).len() == new_fin@.len(),
                    forall|k: int|
                        0 <= k < new_fin@.len() ==> #[trigger] walkers_view(new_fin@)[k]
                            == walker_view(new_fin@[k]),
                decreases new_fin@.len() - fi,
            {
                let ghost results_prev3 = results@;
                results.push(new_fin[fi].deep_clone());
                fi = fi + 1;
                proof {
                    lemma_walkers_view_full(results@);
                    lemma_walkers_view_full(results_prev3);
                    lemma_extend_subrange(
                        walkers_view(results_prev3),
                        walkers_view(results_mid),
                        walkers_view(new_fin@),
                        fi as int,
                    );
                }
            }
            let ghost queue_mid2 = queue@;
            let mut gi: usize = 0;
            while gi < new_rq.len()
                invariant
                    0 <= gi <= new_rq@.len(),
                    queue_views(queue@) =~= queue_views(queue_mid2) + queue_views(
                        new_rq@,
                    ).subrange(0, gi as int),
                    queue_views(new_rq@).len() == new_rq@.len(),
                    forall|k: int|
                        0 <= k < new_rq@.len() ==> #[trigger] queue_views(new_rq@)[k] == (
                        walker_view(new_rq@[k].0),
                        new_rq@[k].1@,
                        ),
                decreases new_rq@.len() - gi,
            {
                let ghost queue_prev4 = queue@;
                queue_pair_push_clone(&mut queue, &new_rq, gi);
                gi = gi + 1;
                proof {
                    lemma_queue_views_full(queue@);
                    lemma_queue_views_full(queue_prev4);
                    lemma_extend_subrange(
                        queue_views(queue_prev4),
                        queue_views(queue_mid2),
                        queue_views(new_rq@),
                        gi as int,
                    );
                }
            }
            proof {
                assert(walkers_view(new_fin@).subrange(0, new_fin@.len() as int) =~= walkers_view(
                    new_fin@,
                ));
                assert(queue_views(new_rq@).subrange(0, new_rq@.len() as int) =~= queue_views(
                    new_rq@,
                ));
                assert(walkers_view(results@) =~= walkers_view(results_mid) + yielded);
                assert(queue_views(queue@) =~= queue_views(queue_mid2) + requeued);
            }
        }
        qi = qi + 1;
        budget = budget - 1;
        proof {
            lemma_queue_views_full(queue@);
            assert(queue_views(queue@).skip(qi as int) =~= qsuffix.drop_first() + requeued);
            assert(advance_queue_spec(qsuffix, (budget + 1) as nat, fuel as nat) == yielded
                + advance_queue_spec(
                qsuffix.drop_first() + requeued,
                budget as nat,
                fuel as nat,
            ));
            assert(walkers_view(results@) =~= walkers_view(results_prev) + yielded);
            assert(walkers_view(results@) + advance_queue_spec(
                queue_views(queue@).skip(qi as int),
                budget as nat,
                fuel as nat,
            ) =~= total);
        }
    }
    proof {
        assert(advance_queue_spec(
            queue_views(queue@).skip(qi as int),
            budget as nat,
            fuel as nat,
        ) =~= Seq::<WalkerModel>::empty());
        assert(walkers_view(results@) =~= total);
    }
    results
}

/// Pushes one walker/token pair.
fn queue_pair_push(q: &mut Vec<(Walker, String)>, w: Walker, t: String)
    ensures
        final(q)@.len() == old(q)@.len() + 1,
        final(q)@ == old(q)@.push((w, t)),
{
    q.push((w, t));
}

/// Pushes a copy of the pair at `i`.
fn queue_pair_push_clone(q: &mut Vec<(Walker, String)>, src: &Vec<(Walker, String)>, i: usize)
    requires
        i < src@.len(),
    ensures
        final(q)@.len() == old(q)@.len() + 1,
        queue_views(final(q)@) == queue_views(old(q)@).push(
            (walker_view(src@[i as int].0), src@[i as int].1@),
        ),
{
    let item = (src[i].0.deep_clone(), src[i].1.clone());
    q.push(item);
    proof {
        lemma_queue_views_full(q@);
        lemma_queue_views_full(old(q)@);
        assert(queue_views(q@) =~= queue_views(old(q)@).push(
            (walker_view(src@[i as int].0), src@[i as int].1@),
        ));
    }
}

/// The value of a matched-text / walker pair list, in order.
pub open spec fn pairs_view(s: Seq<(String, Walker)>) -> Seq<(Seq<char>, WalkerModel)> {
    s.map_values(|p: (String, Walker)| (p.0@, walker_view(p.1)))
}

/// Each element of a pairs view is the view of the corresponding pair.
pub proof fn lemma_pairs_view_full(s: Seq<(String, Walker)>)
    ensures
        pairs_view(s).len() == s.len(),
        forall|k: int|
            0 <= k < s.len() ==> #[trigger] pairs_view(s)[k] == (s[k].0@, walker_view(s[k].1)),
{
}

/// The batch advance of a set of walkers by one token: full consumptions are
/// reported under the token itself; a result with leftover input is kept only
/// when the consumed prefix is itself a vocabulary token, in which case the
/// walker (branched further when it is mid-transition and still accepting)
/// is reported under that prefix.
pub open spec fn advance_all_spec(
    ws: Seq<WalkerModel>,
    token: Seq<char>,
    vocab: Option<Set<Seq<char>>>,
) -> Seq<(Seq<char>, WalkerModel)>
    decreases ws.len(),
{
    if ws.len() == 0 {
        Seq::empty()
    } else {
        advance_one_spec(ws[0], token, vocab) + advance_all_spec(ws.drop_first(), token, vocab)
    }
}

/// The contributions of one walker to the batch advance.
pub open spec fn advance_one_spec(
    m: WalkerModel,
    token: Seq<char>,
    vocab: Option<Set<Seq<char>>>,
) -> Seq<(Seq<char>, WalkerModel)> {
    process_results_spec(consume_spec(m, token, CONSUME_FUEL as nat), 0, token, vocab)
}

/// The reported pairs for the consumption results from index `i` on.
pub open spec fn process_results_spec(
    rs: Seq<WalkerModel>,
    i: int,
    token: Seq<char>,
    vocab: Option<Set<Seq<char>>>,
) -> Seq<(Seq<char>, WalkerModel)>
    decreases rs.len() - i,
{
    if i < 0 || i >= rs.len() {
        Seq::empty()
    } else {
        let w = rs[i];
        let rest = process_results_spec(rs, i + 1, token, vocab);
        match w.remaining {
            None => seq![(token, w)] + rest,
            Some(leftover) => match vocab {
                None => rest,
                Some(vset) => if leftover.len() < token.len() && vset.contains(
                    token.subrange(0, token.len() - leftover.len()),
                ) {
                    let prefix = token.subrange(0, token.len() - leftover.len());
                    let wc = WalkerModel { remaining: None, ..w };
                    if wc.transition is Some && wc.accepts_more {
                        let bs = walker_branch_spec(wc, None);
                        Seq::new(bs.len(), |k: int| (prefix, bs[k])) + rest
                    } else {
                        seq![(prefix, wc)] + rest
                    }
                } else {
                    rest
                },
            },
        }
    }
}

/// The vocabulary model of an optional trie.
pub open spec fn opt_trie_tokens(vocab: Option<&trie_rs::Trie<u8>>) -> Option<Set<Seq<char>>> {
    match vocab {
        Some(t) => Some(crate::trie::trie_tokens(*t)),
        None => None,
    }
}

/// Advances every walker by `token`, as `advance_all_spec` states it: each
/// pair is a way the raw token can validly be read at the current position.
pub fn advance_all(
    walkers: &Vec<Walker>,
    token: &str,
    vocab: Option<&trie_rs::Trie<u8>>,
) -> (r: Vec<(String, Walker)>)
    ensures
        pairs_view(r@) == advance_all_spec(
            walkers_view(walkers@),
            token@,
            opt_trie_tokens(vocab),
        ),
{
    let ghost ws_m = walkers_view(walkers@);
    let ghost vocab_m = opt_trie_tokens(vocab);
    let mut r: Vec<(String, Walker)> = Vec::new();
    proof {
        lemma_walkers_view_full(walkers@);
    }
    let token_chars = crate::text::chars_of(token);
    let mut i: usize = 0;
    proof {
        lemma_pairs_view_full(r@);
        lemma_advance_all_split(ws_m, 0, token@, vocab_m);
        assert(pairs_view(r@) =~= Seq::<(Seq<char>, WalkerModel)>::empty());
    }
    while i < walkers.len()
        invariant
            0 <= i <= walkers@.len(),
            ws_m.len() == walkers@.len(),
            forall|k: int|
                0 <= k < walkers@.len() ==> #[trigger] walkers_view(walkers@)[k] == walker_view(
                    walkers@[k],
                ),
            walkers_view(walkers@) == ws_m,
            token_chars@ == token@,
            vocab_m == opt_trie_tokens(vocab),
            advance_all_spec(ws_m, token@, vocab_m) =~= pairs_view(r@) + advance_all_spec(
                ws_m.skip(i as int),
                token@,
                vocab_m,
            ),
        decreases walkers@.len() - i,
    {
        let ghost iprev = i as int;
        let ghost r_outer = r@;
        let rs = walkers[i].consume_token(token);
        let ghost rs_m = walkers_view(rs@);
        proof {
            lemma_walkers_view_full(rs@);
        }
        let mut ci: usize = 0;
        while ci < rs.len()
            invariant
                0 <= ci <= rs@.len(),
                rs_m.len() == rs@.len(),
                forall|k: int|
                    0 <= k < rs@.len() ==> #[trigger] walkers_view(rs@)[k] == walker_view(rs@[k]),
                walkers_view(rs@) == rs_m,
                token_chars@ == token@,
                vocab_m == opt_trie_tokens(vocab),
                process_results_spec(rs_m, 0, token@, vocab_m) =~= pairs_view(r@).skip(
                    pairs_view(r_outer).len() as int,
                ) + process_results_spec(rs_m, ci as int, token@, vocab_m),
                pairs_view(r@).subrange(0, pairs_view(r_outer).len() as int) =~= pairs_view(
                    r_outer,
                ),
                pairs_view(r@).len() >= pairs_view(r_outer).len(),
            decreases rs@.len() - ci,
        {
            let ghost ciprev = ci as int;
            let ghost r_mid = r@;
            let w = &rs[ci];
            match &w.remaining_input {
                None => {
                    let pair = (token.to_owned(), w.deep_clone());
                    r.push(pair);
                    proof {
                        lemma_pairs_view_full(r@);
                        lemma_pairs_view_full(r_mid);
                        assert(pairs_view(r@) =~= pairs_view(r_mid).push(
                            (token@, walker_view(rs@[ciprev])),
                        ));
                    }
                },
                Some(leftover) => {
                    match vocab {
                        None => {},
                        Some(t) => {
                            let left_chars = crate::text::chars_of(leftover.as_str());
                            if left_chars.len() < token_chars.len() {
                                let plen = token_chars.len() - left_chars.len();
                                let prefix = crate::text::prefix_of_chars(token, plen);
                                if crate::trie::trie_contains(t, prefix.as_str()) {
                                    let mut wc = w.deep_clone();
                                    wc.remaining_input = None;
                                    let mid_transition = wc.transition_walker.is_some();
                                    let can_more = wc.can_accept_more_input();
                                    if mid_transition && can_more {
                                        let bs = wc.branch(None);
                                        let ghost bs_m = walkers_view(bs@);
                                        proof {
                                            lemma_walkers_view_full(bs@);
                                        }
                                        let mut bi: usize = 0;
                                        while bi < bs.len()
                                            invariant
                                                0 <= bi <= bs@.len(),
                                                bs_m.len() == bs@.len(),
                                                forall|k: int|
                                                    0 <= k < bs@.len()
                                                        ==> #[trigger] walkers_view(bs@)[k]
                                                        == walker_view(bs@[k]),
                                                walkers_view(bs@) == bs_m,
                                                prefix@ == token@.subrange(
                                                    0,
                                                    token@.len() - leftover@.len(),
                                                ),
                                                pairs_view(r@) =~= pairs_view(r_mid) + Seq::new(
                                                    bs_m.len(),
                                                    |k: int| (prefix@, bs_m[k]),
                                                ).subrange(0, bi as int),
                                            decreases bs@.len() - bi,
                                        {
                                            let ghost r_mid4 = r@;
                                            let pair = (prefix.clone(), bs[bi].deep_clone());
                                            r.push(pair);
                                            bi = bi + 1;
                                            proof {
                                                lemma_pairs_view_full(r@);
                                                lemma_pairs_view_full(r_mid4);
                                                lemma_extend_subrange(
                                                    pairs_view(r_mid4),
                                                    pairs_view(r_mid),
                                                    Seq::new(
                                                        bs_m.len(),
                                                        |k: int| (prefix@, bs_m[k]),
                                                    ),
                                                    bi as int,
                                                );
                                            }
                                        }
                                        proof {
                                            let full = Seq::new(
                                                bs_m.len(),
                                                |k: int| (prefix@, bs_m[k]),
                                            );
                                            assert(full.subrange(0, full.len() as int) =~= full);
                                        }
                                    } else {
                                        let pair = (prefix.clone(), wc);
                                        r.push(pair);
                                        proof {
                                            lemma_pairs_view_full(r@);
                                            lemma_pairs_view_full(r_mid);
                                        }
                                    }
                                }
                            }
                        },
                    }
                },
            }
            ci = ci + 1;
            proof {
                lemma_pairs_view_full(r@);
                lemma_pairs_view_full(r_mid);
                assert(process_results_spec(rs_m, 0, token@, vocab_m) =~= pairs_view(r@).skip(
                    pairs_view(r_outer).len() as int,
                ) + process_results_spec(rs_m, ci as int, token@, vocab_m));
                assert(pairs_view(r@).subrange(0, pairs_view(r_outer).len() as int) =~= pairs_view(
                    r_outer,
                ));
            }
        }
        i = i + 1;
        proof {
            assert(process_results_spec(rs_m, rs_m.len() as int, token@, vocab_m)
                =~= Seq::<(Seq<char>, WalkerModel)>::empty());
            lemma_advance_all_split(ws_m, iprev, token@, vocab_m);
            lemma_advance_all_split(ws_m, i as int, token@, vocab_m);
            assert(advance_all_spec(ws_m.skip(iprev), token@, vocab_m) == advance_one_spec(
                ws_m[iprev],
                token@,
                vocab_m,
            ) + advance_all_spec(ws_m.skip(i as int), token@, vocab_m));
            assert(pairs_view(r@).skip(pairs_view(r_outer).len() as int) =~= advance_one_spec(
                ws_m[iprev],
                token@,
                vocab_m,
            ));
            assert(pairs_view(r@) =~= pairs_view(r_outer) + advance_one_spec(
                ws_m[iprev],
                token@,
                vocab_m,
            ));
            assert(advance_all_spec(ws_m, token@, vocab_m) =~= pairs_view(r@) + advance_all_spec(
                ws_m.skip(i as int),
                token@,
                vocab_m,
            ));
        }
    }
    proof {
        assert(ws_m.skip(ws_m.len() as int) =~= Seq::<WalkerModel>::empty());
        assert(advance_all_spec(ws_m, token@, vocab_m) =~= pairs_view(r@));
    }
    r
}

/// Unfolds the batch advance at index `i` of the walker list.
pub proof fn lemma_advance_all_split(
    ws: Seq<WalkerModel>,
    i: int,
    token: Seq<char>,
    vocab: Option<Set<Seq<char>>>,
)
    requires
        0 <= i <= ws.len(),
    ensures
        i < ws.len() ==> advance_all_spec(ws.skip(i), token, vocab) == advance_one_spec(
            ws[i],
            token,
            vocab,
        ) + advance_all_spec(ws.skip(i + 1), token, vocab),
        i == ws.len() ==> advance_all_spec(ws.skip(i), token, vocab) == Seq::<
            (Seq<char>, WalkerModel),
        >::empty(),
{
    if i < ws.len() {
        assert(ws.skip(i)[0] == ws[i]);
        assert(ws.skip(i).drop_first() =~= ws.skip(i + 1));
        assert(ws.skip(i).len() > 0);
    } else {
        assert(ws.skip(i).len() == 0);
    }
}

/// One step of the completion scan, unfolded at index `i`.
pub proof fn lemma_complete_scan_step(w2: WalkerModel, rs: Seq<WalkerModel>, i: int)
    requires
        0 <= i < rs.len(),
    ensures
        ({
            let res = crate::walker::complete_transition_spec(w2, rs[i]).0;
            let (rq, fin) = complete_scan_spec(w2, rs, i + 1);
            complete_scan_spec(w2, rs, i) == match res.remaining {
                Some(t) => (seq![(res, t)] + rq, fin),
                None => (rq, seq![res] + fin),
            }
        }),
{
}

} // verus!
