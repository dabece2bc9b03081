//! The automaton definitions the engine walks over.
//!
//! An `Acceptor` is an immutable, possibly recursive automaton: a graph from
//! states to edges, each edge holding a child acceptor and a target state,
//! plus a start state, accepting states, and the optional / case-sensitivity
//! flags.  A tagged `Rule` selects the acceptor's own consumption behaviour:
//! a composite graph, a literal piece of text, or a free-form region that
//! accepts any token.

use vstd::prelude::*;

verus! {

/// A node identifier in an acceptor's graph: an ordinal index or a symbolic
/// marker (the marker `"$"` is conventionally used for terminal states).
#[derive(Debug)]
pub enum State {
    Int(usize),
    Str(String),
}

/// The mathematical value of a `State`.
pub enum StateModel {
    Int(int),
    Str(Seq<char>),
}

impl View for State {
    type V = StateModel;

    open spec fn view(&self) -> StateModel {
        match self {
            State::Int(n) => StateModel::Int(*n as int),
            State::Str(s) => StateModel::Str(s@),
        }
    }
}

impl Clone for State {
    fn clone(&self) -> (r: Self)
        ensures
            r@ == self@,
    {
        match self {
            State::Int(n) => State::Int(*n),
            State::Str(s) => State::Str(s.clone()),
        }
    }
}

/// The value of an optional state.
pub open spec fn opt_state_view(o: Option<State>) -> Option<StateModel> {
    match o {
        Some(s) => Some(s@),
        None => None,
    }
}

/// The values of a list of states, in order.
pub open spec fn states_view(v: Seq<State>) -> Seq<StateModel> {
    v.map_values(|s: State| s@)
}

/// Equality of two states, decided by their values.
pub fn state_eq(a: &State, b: &State) -> (r: bool)
    ensures
        r == (a@ == b@),
{
    match (a, b) {
        (State::Int(x), State::Int(y)) => *x == *y,
        (State::Str(x), State::Str(y)) => crate::text::str_eq(x.as_str(), y.as_str()),
        _ => false,
    }
}

/// Equality of two optional states, decided by their values.
pub fn opt_state_eq(a: &Option<State>, b: &Option<State>) -> (r: bool)
    ensures
        r == (opt_state_view(*a) == opt_state_view(*b)),
{
    match (a, b) {
        (None, None) => true,
        (Some(x), Some(y)) => state_eq(x, y),
        _ => false,
    }
}

/// True when the list holds a state with value `s`.
pub fn states_contain(v: &Vec<State>, s: &State) -> (r: bool)
    ensures
        r == states_view(v@).contains(s@),
{
    let mut i: usize = 0;
    while i < v.len()
        invariant
            0 <= i <= v@.len(),
            forall|j: int| 0 <= j < i ==> states_view(v@)[j] != s@,
        decreases v@.len() - i,
    {
        if state_eq(&v[i], s) {
            proof {
                assert(states_view(v@)[i as int] == s@);
            }
            return true;
        }
        i = i + 1;
    }
    false
}

/// The consumption behaviour of an acceptor: a composite graph, a literal
/// text, or a free-form region accepting any token.
#[derive(Debug)]
pub enum Rule {
    Graph,
    Literal(String),
    AnyToken,
}

/// The mathematical value of a `Rule`.
pub enum RuleModel {
    Graph,
    Literal(Seq<char>),
    AnyToken,
}

impl View for Rule {
    type V = RuleModel;

    open spec fn view(&self) -> RuleModel {
        match self {
            Rule::Graph => RuleModel::Graph,
            Rule::Literal(s) => RuleModel::Literal(s@),
            Rule::AnyToken => RuleModel::AnyToken,
        }
    }
}

impl Clone for Rule {
    fn clone(&self) -> (r: Self)
        ensures
            r@ == self@,
    {
        match self {
            Rule::Graph => Rule::Graph,
            Rule::Literal(s) => Rule::Literal(s.clone()),
            Rule::AnyToken => Rule::AnyToken,
        }
    }
}

/// An edge: a child acceptor and the state reached once it completes.
pub type Edge = (Acceptor, State);

/// A state graph: each state paired with its ordered outgoing edges.  A
/// state is meant to appear in at most one row; should it appear again, the
/// first row is the one the machine reads.
pub type StateGraph = Vec<(State, Vec<Edge>)>;

/// An immutable automaton definition.
#[derive(Debug)]
pub struct Acceptor {
    pub state_graph: StateGraph,
    pub start_state: State,
    pub end_states: Vec<State>,
    pub optional: bool,
    pub case_sensitive: bool,
    pub rule: Rule,
}

/// The mathematical value of an `Acceptor`.
#[verifier::ext_equal]
pub struct AcceptorModel {
    pub graph: Seq<(StateModel, Seq<(AcceptorModel, StateModel)>)>,
    pub start: StateModel,
    pub ends: Seq<StateModel>,
    pub optional: bool,
    pub case_sensitive: bool,
    pub rule: RuleModel,
}

/// The value of an acceptor.
pub open spec fn acc_view(a: Acceptor) -> AcceptorModel
    decreases a,
{
    AcceptorModel {
        graph: graph_rows_view(a.state_graph@, 0),
        start: a.start_state@,
        ends: states_view(a.end_states@),
        optional: a.optional,
        case_sensitive: a.case_sensitive,
        rule: a.rule@,
    }
}

/// The values of the graph rows from index `i` on.
pub open spec fn graph_rows_view(rows: Seq<(State, Vec<Edge>)>, i: int) -> Seq<
    (StateModel, Seq<(AcceptorModel, StateModel)>),
>
    decreases rows, rows.len() - i,
{
    if i < 0 || i >= rows.len() {
        Seq::empty()
    } else {
        seq![(rows[i].0@, edges_view(rows[i].1@, 0))] + graph_rows_view(rows, i + 1)
    }
}

/// The values of the edges from index `i` on.
pub open spec fn edges_view(es: Seq<Edge>, i: int) -> Seq<(AcceptorModel, StateModel)>
    decreases es, es.len() - i,
{
    if i < 0 || i >= es.len() {
        Seq::empty()
    } else {
        seq![(acc_view(es[i].0), es[i].1@)] + edges_view(es, i + 1)
    }
}

impl View for Acceptor {
    type V = AcceptorModel;

    open spec fn view(&self) -> AcceptorModel {
        acc_view(*self)
    }
}

/// A deep copy of an acceptor, preserving its value.
pub fn clone_acceptor(a: &Acceptor) -> (r: Acceptor)
    ensures
        r@ == a@,
    decreases *a,
{
    let mut graph: StateGraph = Vec::new();
    let mut i: usize = 0;
    while i < a.state_graph.len()
        invariant
            0 <= i <= a.state_graph@.len(),
            graph@.len() == i,
            forall|k: int|
                0 <= k < i ==> (#[trigger] graph@[k]).0@ == a.state_graph@[k].0@ && edges_view(
                    graph@[k].1@,
                    0,
                ) == edges_view(a.state_graph@[k].1@, 0),
        decreases a.state_graph@.len() - i,
    {
        let row = &a.state_graph[i];
        let mut edges: Vec<Edge> = Vec::new();
        let mut j: usize = 0;
        while j < row.1.len()
            invariant
                0 <= j <= row.1@.len(),
                row == &a.state_graph@[i as int],
                0 <= i < a.state_graph@.len(),
                edges@.len() == j,
                forall|k: int|
                    0 <= k < j ==> acc_view((#[trigger] edges@[k]).0) == acc_view(row.1@[k].0)
                        && edges@[k].1@ == row.1@[k].1@,
            decreases row.1@.len() - j,
        {
            proof {
                assert(decreases_to!(*a => a.state_graph@[i as int].1@[j as int].0));
            }
            let child = clone_acceptor(&row.1[j].0);
            let tgt = row.1[j].1.clone();
            edges.push((child, tgt));
            j = j + 1;
        }
        proof {
            lemma_edges_view_full(edges@);
            lemma_edges_view_full(row.1@);
            assert(edges_view(edges@, 0) =~= edges_view(row.1@, 0));
        }
        graph.push((row.0.clone(), edges));
        i = i + 1;
    }
    proof {
        lemma_graph_rows_view_full(graph@);
        lemma_graph_rows_view_full(a.state_graph@);
        assert(graph_rows_view(graph@, 0) =~= graph_rows_view(a.state_graph@, 0));
    }
    let r = Acceptor {
        state_graph: graph,
        start_state: a.start_state.clone(),
        end_states: clone_states(&a.end_states),
        optional: a.optional,
        case_sensitive: a.case_sensitive,
        rule: a.rule.clone(),
    };
    r
}

/// A copy of a list of states, preserving the values.
pub fn clone_states(v: &Vec<State>) -> (r: Vec<State>)
    ensures
        states_view(r@) == states_view(v@),
{
    let mut r: Vec<State> = Vec::new();
    let mut i: usize = 0;
    while i < v.len()
        invariant
            0 <= i <= v@.len(),
            r@.len() == i,
            forall|k: int| 0 <= k < i ==> (#[trigger] r@[k])@ == v@[k]@,
        decreases v@.len() - i,
    {
        r.push(v[i].clone());
        i = i + 1;
    }
    proof {
        assert(states_view(r@) =~= states_view(v@));
    }
    r
}

impl Clone for Acceptor {
    fn clone(&self) -> (r: Self)
        ensures
            r@ == self@,
    {
        clone_acceptor(self)
    }
}

/// The length of a graph-rows view equals the number of rows left, and each
/// element is the view of the corresponding row.
pub proof fn lemma_graph_rows_view_index(rows: Seq<(State, Vec<Edge>)>, i: int)
    requires
        0 <= i <= rows.len(),
    ensures
        graph_rows_view(rows, i).len() == rows.len() - i,
        forall|k: int|
            i <= k < rows.len() ==> #[trigger] graph_rows_view(rows, i)[k - i] == (
            rows[k].0@,
            edges_view(rows[k].1@, 0),
            ),
    decreases rows.len() - i,
{
    if i < rows.len() {
        lemma_graph_rows_view_index(rows, i + 1);
        assert forall|k: int| i <= k < rows.len() implies #[trigger] graph_rows_view(rows, i)[k - i]
            == (rows[k].0@, edges_view(rows[k].1@, 0)) by {
            if k == i {
                assert(graph_rows_view(rows, i)[0] == (rows[i].0@, edges_view(rows[i].1@, 0)));
            } else {
                assert(graph_rows_view(rows, i)[k - i] == graph_rows_view(rows, i + 1)[k - (i + 1)]);
            }
        }
    }
}

/// The length of an edges view equals the number of edges left, and each
/// element is the view of the corresponding edge.
pub proof fn lemma_edges_view_index(es: Seq<Edge>, i: int)
    requires
        0 <= i <= es.len(),
    ensures
        edges_view(es, i).len() == es.len() - i,
        forall|k: int|
            i <= k < es.len() ==> #[trigger] edges_view(es, i)[k - i] == (
            acc_view(es[k].0),
            es[k].1@,
            ),
    decreases es.len() - i,
{
    if i < es.len() {
        lemma_edges_view_index(es, i + 1);
        assert forall|k: int| i <= k < es.len() implies #[trigger] edges_view(es, i)[k - i] == (
        acc_view(es[k].0),
        es[k].1@,
        ) by {
            if k == i {
                assert(edges_view(es, i)[0] == (acc_view(es[i].0), es[i].1@));
            } else {
                assert(edges_view(es, i)[k - i] == edges_view(es, i + 1)[k - (i + 1)]);
            }
        }
    }
}

/// The elementwise form of `lemma_graph_rows_view_index` for a whole row list.
pub proof fn lemma_graph_rows_view_full(rows: Seq<(State, Vec<Edge>)>)
    ensures
        graph_rows_view(rows, 0).len() == rows.len(),
        forall|k: int|
            0 <= k < rows.len() ==> #[trigger] graph_rows_view(rows, 0)[k] == (
            rows[k].0@,
            edges_view(rows[k].1@, 0),
            ),
{
    lemma_graph_rows_view_index(rows, 0);
    assert forall|k: int| 0 <= k < rows.len() implies #[trigger] graph_rows_view(rows, 0)[k] == (
    rows[k].0@,
    edges_view(rows[k].1@, 0),
    ) by {
        assert(graph_rows_view(rows, 0)[k - 0] == (rows[k].0@, edges_view(rows[k].1@, 0)));
    }
}

/// The elementwise form of `lemma_edges_view_index` for a whole edge list.
pub proof fn lemma_edges_view_full(es: Seq<Edge>)
    ensures
        edges_view(es, 0).len() == es.len(),
        forall|k: int|
            0 <= k < es.len() ==> #[trigger] edges_view(es, 0)[k] == (acc_view(es[k].0), es[k].1@),
{
    lemma_edges_view_index(es, 0);
    assert forall|k: int| 0 <= k < es.len() implies #[trigger] edges_view(es, 0)[k] == (
    acc_view(es[k].0),
    es[k].1@,
    ) by {
        assert(edges_view(es, 0)[k - 0] == (acc_view(es[k].0), es[k].1@));
    }
}

impl Acceptor {
    /// A composite acceptor over the given graph.  A missing graph means a
    /// single-state leaf; missing end states default to the terminal marker
    /// `"$"`.
    pub fn new(
        state_graph: Option<StateGraph>,
        start_state: State,
        end_states: Option<Vec<State>>,
        is_optional: bool,
        is_case_sensitive: bool,
    ) -> (r: Self)
        ensures
            r@.graph == match state_graph {
                Some(g) => graph_rows_view(g@, 0),
                None => Seq::<(StateModel, Seq<(AcceptorModel, StateModel)>)>::empty(),
            },
            r@.start == start_state@,
            r@.ends == match end_states {
                Some(es) => states_view(es@),
                None => seq![StateModel::Str("$"@)],
            },
            r@.optional == is_optional,
            r@.case_sensitive == is_case_sensitive,
            r@.rule is Graph,
    {
        let ends: Vec<State> = match end_states {
            Some(es) => es,
            None => {
                let mut v: Vec<State> = Vec::new();
                v.push(State::Str("$".to_owned()));
                proof {
                    assert(states_view(v@) =~= seq![StateModel::Str("$"@)]);
                }
                v
            },
        };
        let graph: StateGraph = match state_graph {
            Some(g) => g,
            None => Vec::new(),
        };
        Acceptor {
            state_graph: graph,
            start_state,
            end_states: ends,
            optional: is_optional,
            case_sensitive: is_case_sensitive,
            rule: Rule::Graph,
        }
    }

    /// A leaf acceptor that matches exactly the given text, character by
    /// character; its states are the number of characters matched so far.
    pub fn literal(text: &str, is_optional: bool, is_case_sensitive: bool) -> (r: Self)
        ensures
            r@.rule == RuleModel::Literal(text@),
            r@.graph.len() == 0,
            r@.start == StateModel::Int(0),
            r@.ends == seq![StateModel::Int(text@.len() as int)],
            r@.optional == is_optional,
            r@.case_sensitive == is_case_sensitive,
    {
        let chars = crate::text::chars_of(text);
        let mut ends: Vec<State> = Vec::new();
        ends.push(State::Int(chars.len()));
        proof {
            assert(states_view(ends@) =~= seq![StateModel::Int(text@.len() as int)]);
        }
        Acceptor {
            state_graph: Vec::new(),
            start_state: State::Int(0),
            end_states: ends,
            optional: is_optional,
            case_sensitive: is_case_sensitive,
            rule: Rule::Literal(text.to_owned()),
        }
    }

    /// A leaf acceptor for a free-form region: it accepts any token whole.
    pub fn any_token() -> (r: Self)
        ensures
            r@.rule is AnyToken,
            r@.graph.len() == 0,
            r@.start == StateModel::Int(0),
            r@.ends == seq![StateModel::Int(0)],
            r@.optional == false,
            r@.case_sensitive == true,
    {
        let mut ends: Vec<State> = Vec::new();
        ends.push(State::Int(0));
        proof {
            assert(states_view(ends@) =~= seq![StateModel::Int(0)]);
        }
        Acceptor {
            state_graph: Vec::new(),
            start_state: State::Int(0),
            end_states: ends,
            optional: false,
            case_sensitive: true,
            rule: Rule::AnyToken,
        }
    }

    /// Whether this acceptor may be skipped entirely.
    pub fn is_optional(&self) -> (r: bool)
        ensures
            r == self@.optional,
    {
        self.optional
    }

    /// Whether this acceptor matches text case-sensitively.
    pub fn is_case_sensitive(&self) -> (r: bool)
        ensures
            r == self@.case_sensitive,
    {
        self.case_sensitive
    }
}

} // verus!
