//! Walkers: mutable exploration cursors over one acceptor.
//!
//! A walker tracks its current and target state, an optional nested walker
//! that is consuming a child transition, the set of already explored edges,
//! and the history of completed child walkers.  Branching always produces new
//! owned values, so parallel interpretations never share mutable state.

use vstd::prelude::*;

verus! {

use crate::acceptor::Acceptor;
use crate::acceptor::AcceptorModel;
use crate::acceptor::State;
use crate::acceptor::StateModel;
use crate::acceptor::RuleModel;
use crate::acceptor::opt_state_view;
use crate::acceptor::opt_state_eq;
use crate::acceptor::states_contain;
use crate::acceptor::states_view;
use crate::acceptor::clone_acceptor;
use crate::text::opt_text;
use crate::text::opt_str_eq;
use crate::text::append_str;

/// The key of an explored edge: source state, optional target state, and the
/// walker's accumulated raw value at exploration time.
#[derive(Debug)]
pub struct EdgeKey {
    pub from: State,
    pub to: Option<State>,
    pub value: Option<String>,
}

/// The mathematical value of an `EdgeKey`.
#[verifier::ext_equal]
pub struct EdgeKeyModel {
    pub from: StateModel,
    pub to: Option<StateModel>,
    pub value: Option<Seq<char>>,
}

impl View for EdgeKey {
    type V = EdgeKeyModel;

    open spec fn view(&self) -> EdgeKeyModel {
        EdgeKeyModel {
            from: self.from@,
            to: opt_state_view(self.to),
            value: opt_text(self.value),
        }
    }
}

impl Clone for EdgeKey {
    fn clone(&self) -> (r: Self)
        ensures
            r@ == self@,
    {
        EdgeKey {
            from: self.from.clone(),
            to: match &self.to {
                Some(s) => Some(s.clone()),
                None => None,
            },
            value: match &self.value {
                Some(v) => Some(v.clone()),
                None => None,
            },
        }
    }
}

/// Equality of edge keys, decided by their values.
pub fn edge_key_eq(a: &EdgeKey, b: &EdgeKey) -> (r: bool)
    ensures
        r == (a@ == b@),
{
    crate::acceptor::state_eq(&a.from, &b.from) && opt_state_eq(&a.to, &b.to) && opt_str_eq(
        &a.value,
        &b.value,
    )
}

/// The set of edge-key values held by a list of keys.
pub open spec fn edge_keys_view(s: Seq<EdgeKey>) -> Set<EdgeKeyModel> {
    Set::new(|m: EdgeKeyModel| exists|i: int| 0 <= i < s.len() && s[i]@ == m)
}

/// A single candidate parse path through one or more composed acceptors.
#[derive(Debug)]
pub struct Walker {
    pub acceptor: Acceptor,
    pub current_state: State,
    pub target_state: Option<State>,
    pub transition_walker: Option<Box<Walker>>,
    pub consumed_character_count: usize,
    pub remaining_input: Option<String>,
    pub explored_edges: Vec<EdgeKey>,
    pub accepted_history: Vec<Walker>,
    pub raw_value_override: Option<String>,
    pub accepts_more_input: bool,
}

/// The mathematical value of a `Walker`.
#[verifier::ext_equal]
pub struct WalkerModel {
    pub acceptor: AcceptorModel,
    pub current: StateModel,
    pub target: Option<StateModel>,
    pub transition: Option<Box<WalkerModel>>,
    pub consumed: int,
    pub remaining: Option<Seq<char>>,
    pub explored: Set<EdgeKeyModel>,
    pub history: Seq<WalkerModel>,
    pub raw_override: Option<Seq<char>>,
    pub accepts_more: bool,
}

/// The value of a walker.
pub open spec fn walker_view(w: Walker) -> WalkerModel
    decreases w,
{
    WalkerModel {
        acceptor: w.acceptor@,
        current: w.current_state@,
        target: opt_state_view(w.target_state),
        transition: match w.transition_walker {
            Some(b) => Some(Box::new(walker_view(*b))),
            None => None,
        },
        consumed: w.consumed_character_count as int,
        remaining: opt_text(w.remaining_input),
        explored: edge_keys_view(w.explored_edges@),
        history: history_views(w.accepted_history@, 0),
        raw_override: opt_text(w.raw_value_override),
        accepts_more: w.accepts_more_input,
    }
}

/// The values of the history entries from index `i` on.
pub open spec fn history_views(s: Seq<Walker>, i: int) -> Seq<WalkerModel>
    decreases s, s.len() - i,
{
    if i < 0 || i >= s.len() {
        Seq::empty()
    } else {
        seq![walker_view(s[i])] + history_views(s, i + 1)
    }
}

impl View for Walker {
    type V = WalkerModel;

    open spec fn view(&self) -> WalkerModel {
        walker_view(*self)
    }
}

/// Each element of a history view is the view of the corresponding entry.
pub proof fn lemma_history_views_index(s: Seq<Walker>, i: int)
    requires
        0 <= i <= s.len(),
    ensures
        history_views(s, i).len() == s.len() - i,
        forall|k: int|
            i <= k < s.len() ==> #[trigger] history_views(s, i)[k - i] == walker_view(s[k]),
    decreases s.len() - i,
{
    if i < s.len() {
        lemma_history_views_index(s, i + 1);
        assert forall|k: int|
            i <= k < s.len() implies #[trigger] history_views(s, i)[k - i] == walker_view(
            s[k],
        ) by {
            if k == i {
                assert(history_views(s, i)[0] == walker_view(s[i]));
            } else {
                assert(history_views(s, i)[k - i] == history_views(s, i + 1)[k - (i + 1)]);
            }
        }
    }
}

/// The elementwise form of `lemma_history_views_index` for a whole history.
pub proof fn lemma_history_views_full(s: Seq<Walker>)
    ensures
        history_views(s, 0).len() == s.len(),
        forall|k: int|
            0 <= k < s.len() ==> #[trigger] history_views(s, 0)[k] == walker_view(s[k]),
{
    lemma_history_views_index(s, 0);
    assert forall|k: int| 0 <= k < s.len() implies #[trigger] history_views(s, 0)[k] == walker_view(
        s[k],
    ) by {
        assert(history_views(s, 0)[k - 0] == walker_view(s[k]));
    }
}

/// The accumulated raw value of a walker: the explicit override if set;
/// otherwise nothing when there is neither history nor an active transition;
/// otherwise the join of the history values followed by the active
/// transition's value.
pub open spec fn raw_of(m: WalkerModel) -> Option<Seq<char>>
    decreases m, 0int,
{
    if m.raw_override is Some {
        m.raw_override
    } else if m.history.len() == 0 && m.transition is None {
        None
    } else {
        Some(
            raw_join(m.history, 0) + match m.transition {
                Some(b) => raw_part(*b),
                None => Seq::<char>::empty(),
            },
        )
    }
}

/// The raw value of a walker, with `None` read as the empty text.
pub open spec fn raw_part(m: WalkerModel) -> Seq<char>
    decreases m, 1int,
{
    match raw_of(m) {
        Some(v) => v,
        None => Seq::<char>::empty(),
    }
}

/// The join of the raw values of the walkers from index `i` on.
pub open spec fn raw_join(s: Seq<WalkerModel>, i: int) -> Seq<char>
    decreases s, s.len() - i,
{
    if i < 0 || i >= s.len() {
        Seq::<char>::empty()
    } else {
        raw_part(s[i]) + raw_join(s, i + 1)
    }
}

/// The value of a fresh walker over an acceptor at a given state.
pub open spec fn fresh_walker(a: AcceptorModel, cur: StateModel) -> WalkerModel {
    WalkerModel {
        acceptor: a,
        current: cur,
        target: None,
        transition: None,
        consumed: 0,
        remaining: None,
        explored: Set::empty(),
        history: Seq::empty(),
        raw_override: None,
        accepts_more: false,
    }
}

impl Walker {
    /// A fresh walker over `acceptor`, at the given state (or ordinal zero).
    pub fn new(acceptor: Acceptor, current_state: Option<State>) -> (r: Self)
        ensures
            r@ == fresh_walker(
                acceptor@,
                match current_state {
                    Some(s) => s@,
                    None => StateModel::Int(0),
                },
            ),
            r@.acceptor == acceptor@,
            r@.current == match current_state {
                Some(s) => s@,
                None => StateModel::Int(0),
            },
            r@.target is None,
            r@.transition is None,
            r@.consumed == 0,
            r@.remaining is None,
            r@.explored =~= Set::<EdgeKeyModel>::empty(),
            r@.history =~= Seq::<WalkerModel>::empty(),
            r@.raw_override is None,
            r@.accepts_more == false,
    {
        let r = Walker {
            acceptor,
            current_state: match current_state {
                Some(s) => s,
                None => State::Int(0),
            },
            target_state: None,
            transition_walker: None,
            consumed_character_count: 0,
            remaining_input: None,
            explored_edges: Vec::new(),
            accepted_history: Vec::new(),
            raw_value_override: None,
            accepts_more_input: false,
        };
        proof {
            assert(r@.explored =~= Set::<EdgeKeyModel>::empty());
            lemma_history_views_full(r.accepted_history@);
            assert(r@.history =~= Seq::<WalkerModel>::empty());
            assert(r@ =~= fresh_walker(
                r@.acceptor,
                match current_state {
                    Some(s) => s@,
                    None => StateModel::Int(0),
                },
            ));
        }
        r
    }

    /// The accumulated raw value, as `raw_of` states it.
    pub fn raw_value(&self) -> (r: Option<String>)
        ensures
            opt_text(r) == raw_of(self@),
        decreases *self,
    {
        if let Some(rv) = &self.raw_value_override {
            return Some(rv.clone());
        }
        proof {
            lemma_history_views_full(self.accepted_history@);
        }
        if self.accepted_history.len() == 0 && self.transition_walker.is_none() {
            return None;
        }
        let mut out = String::new();
        let ghost hist = history_views(self.accepted_history@, 0);
        let mut i: usize = 0;
        while i < self.accepted_history.len()
            invariant
                0 <= i <= self.accepted_history@.len(),
                hist == history_views(self.accepted_history@, 0),
                hist.len() == self.accepted_history@.len(),
                forall|k: int|
                    0 <= k < hist.len() ==> #[trigger] hist[k] == walker_view(
                        self.accepted_history@[k],
                    ),
                raw_join(hist, 0) =~= out@ + raw_join(hist, i as int),
            decreases self.accepted_history@.len() - i,
        {
            proof {
                assert(decreases_to!(*self => self.accepted_history@[i as int]));
            }
            let ghost iprev = i as int;
            let part = self.accepted_history[i].raw_value();
            match part {
                Some(v) => {
                    append_str(&mut out, v.as_str());
                },
                None => {},
            }
            i = i + 1;
            proof {
                assert(raw_join(hist, iprev) == raw_part(hist[iprev]) + raw_join(hist, iprev + 1));
                assert(raw_join(hist, 0) =~= out@ + raw_join(hist, i as int));
            }
        }
        match &self.transition_walker {
            Some(t) => {
                let part = (&**t).raw_value();
                match part {
                    Some(v) => {
                        append_str(&mut out, v.as_str());
                    },
                    None => {},
                }
            },
            None => {},
        }
        proof {
            assert(out@ =~= raw_of(self@)->Some_0);
        }
        Some(out)
    }

    /// Whether this walker may still consume further input.
    pub fn can_accept_more_input(&self) -> (r: bool)
        ensures
            r == self@.accepts_more,
    {
        self.accepts_more_input
    }

    /// Whether the walker's current state is one of its acceptor's accepting
    /// states.
    pub fn has_reached_accept_state(&self) -> (r: bool)
        ensures
            r == self@.acceptor.ends.contains(self@.current),
    {
        states_contain(&self.acceptor.end_states, &self.current_state)
    }
}

/// Whether a walker reports that it accepts any next token: decided by the
/// innermost active transition, or by the acceptor's rule when idle.
pub open spec fn accepts_any_spec(m: WalkerModel) -> bool
    decreases m,
{
    match m.transition {
        Some(c) => accepts_any_spec(*c),
        None => m.acceptor.rule is AnyToken,
    }
}

/// Whether an in-progress transition may be completed: delegated to the
/// innermost active transition; trivially true when none is active.
pub open spec fn should_complete_spec(m: WalkerModel) -> bool
    decreases m,
{
    match m.transition {
        Some(c) => should_complete_spec(*c),
        None => true,
    }
}

/// The edge key a walker would record for its present position.
pub open spec fn current_edge_key(m: WalkerModel) -> EdgeKeyModel {
    EdgeKeyModel { from: m.current, to: m.target, value: raw_of(m) }
}

/// Whether a walker may start a new transition: delegated to the innermost
/// active transition; otherwise the present edge must not have been explored
/// before.
pub open spec fn should_start_spec(m: WalkerModel) -> bool
    decreases m,
{
    match m.transition {
        Some(c) => should_start_spec(*c),
        None => !m.explored.contains(current_edge_key(m)),
    }
}

/// The walker after a `should_start_transition` query: when the innermost
/// walker finds its edge already explored it is marked as unable to accept
/// further input; otherwise nothing changes.
pub open spec fn after_should_start(m: WalkerModel) -> WalkerModel
    decreases m,
{
    match m.transition {
        Some(c) => WalkerModel { transition: Some(Box::new(after_should_start(*c))), ..m },
        None => if m.explored.contains(current_edge_key(m)) {
            WalkerModel { accepts_more: false, ..m }
        } else {
            m
        },
    }
}

impl Walker {
    /// Whether this walker reports that any next token is acceptable.
    pub fn accepts_any_token(&self) -> (r: bool)
        ensures
            r == accepts_any_spec(self@),
        decreases *self,
    {
        match &self.transition_walker {
            Some(t) => (&**t).accepts_any_token(),
            None => match &self.acceptor.rule {
                crate::acceptor::Rule::AnyToken => true,
                _ => false,
            },
        }
    }

    /// Whether the active transition (if any) is ready to be completed.
    pub fn should_complete_transition(&self) -> (r: bool)
        ensures
            r == should_complete_spec(self@),
        decreases *self,
    {
        match &self.transition_walker {
            Some(t) => (&**t).should_complete_transition(),
            None => true,
        }
    }

    /// Whether a transition may start here; a walker whose present edge was
    /// already explored is marked as unable to accept further input.
    pub fn should_start_transition(&mut self, token: &str) -> (r: bool)
        ensures
            r == should_start_spec(old(self)@),
            final(self)@ == after_should_start(old(self)@),
        decreases *old(self),
    {
        match &mut self.transition_walker {
            Some(t) => {
                let r = (&mut **t).should_start_transition(token);
                r
            },
            None => {
                let key = EdgeKey {
                    from: self.current_state.clone(),
                    to: match &self.target_state {
                        Some(s) => Some(s.clone()),
                        None => None,
                    },
                    value: self.raw_value(),
                };
                proof {
                    assert(key@ == current_edge_key(self@));
                }
                if explored_contains(&self.explored_edges, &key) {
                    self.accepts_more_input = false;
                    false
                } else {
                    true
                }
            },
        }
    }
}

/// True when the list of explored edges holds a key with value `k@`.
pub fn explored_contains(v: &Vec<EdgeKey>, k: &EdgeKey) -> (r: bool)
    ensures
        r == edge_keys_view(v@).contains(k@),
{
    let mut i: usize = 0;
    while i < v.len()
        invariant
            0 <= i <= v@.len(),
            forall|j: int| 0 <= j < i ==> (#[trigger] v@[j])@ != k@,
        decreases v@.len() - i,
    {
        if edge_key_eq(&v[i], k) {
            proof {
                assert(edge_keys_view(v@).contains(k@));
            }
            return true;
        }
        i = i + 1;
    }
    proof {
        assert(!edge_keys_view(v@).contains(k@));
    }
    false
}

/// Two walkers are treated as the same candidate when their current state,
/// target state, raw value, and active transitions all agree.
pub open spec fn walker_matches(a: WalkerModel, b: WalkerModel) -> bool
    decreases a,
{
    &&& a.current == b.current
    &&& a.target == b.target
    &&& raw_of(a) == raw_of(b)
    &&& match (a.transition, b.transition) {
        (Option::None, Option::None) => true,
        (Option::Some(x), Option::Some(y)) => walker_matches(*x, *y),
        _ => false,
    }
}

impl Walker {
    /// Whether this walker and `other` are the same candidate, as
    /// `walker_matches` states it.
    pub fn equivalent(&self, other: &Walker) -> (r: bool)
        ensures
            r == walker_matches(self@, other@),
        decreases *self,
    {
        if !crate::acceptor::state_eq(&self.current_state, &other.current_state) {
            return false;
        }
        if !opt_state_eq(&self.target_state, &other.target_state) {
            return false;
        }
        let ra = self.raw_value();
        let rb = other.raw_value();
        if !opt_str_eq(&ra, &rb) {
            return false;
        }
        match (&self.transition_walker, &other.transition_walker) {
            (None, None) => true,
            (Some(x), Some(y)) => (&**x).equivalent(&**y),
            _ => false,
        }
    }

    /// A deep copy of this walker, preserving its value.
    pub fn deep_clone(&self) -> (r: Self)
        ensures
            r@ == self@,
        decreases *self,
    {
        let transition: Option<Box<Walker>> = match &self.transition_walker {
            Some(t) => Some(Box::new((&**t).deep_clone())),
            None => None,
        };
        let mut history: Vec<Walker> = Vec::new();
        let mut i: usize = 0;
        while i < self.accepted_history.len()
            invariant
                0 <= i <= self.accepted_history@.len(),
                history@.len() == i,
                forall|k: int|
                    0 <= k < i ==> walker_view(#[trigger] history@[k]) == walker_view(
                        self.accepted_history@[k],
                    ),
            decreases self.accepted_history@.len() - i,
        {
            proof {
                assert(decreases_to!(*self => self.accepted_history@[i as int]));
            }
            history.push(self.accepted_history[i].deep_clone());
            i = i + 1;
        }
        let mut explored: Vec<EdgeKey> = Vec::new();
        let mut j: usize = 0;
        while j < self.explored_edges.len()
            invariant
                0 <= j <= self.explored_edges@.len(),
                explored@.len() == j,
                forall|k: int|
                    0 <= k < j ==> (#[trigger] explored@[k])@ == self.explored_edges@[k]@,
            decreases self.explored_edges@.len() - j,
        {
            explored.push(self.explored_edges[j].clone());
            j = j + 1;
        }
        let r = Walker {
            acceptor: clone_acceptor(&self.acceptor),
            current_state: self.current_state.clone(),
            target_state: match &self.target_state {
                Some(s) => Some(s.clone()),
                None => None,
            },
            transition_walker: transition,
            consumed_character_count: self.consumed_character_count,
            remaining_input: match &self.remaining_input {
                Some(s) => Some(s.clone()),
                None => None,
            },
            explored_edges: explored,
            accepted_history: history,
            raw_value_override: match &self.raw_value_override {
                Some(s) => Some(s.clone()),
                None => None,
            },
            accepts_more_input: self.accepts_more_input,
        };
        proof {
            lemma_history_views_full(r.accepted_history@);
            lemma_history_views_full(self.accepted_history@);
            assert(r@.history =~= self@.history);
            assert forall|m: EdgeKeyModel| r@.explored.contains(m) implies self@.explored.contains(
                m,
            ) by {
                let i = choose|i: int| 0 <= i < r.explored_edges@.len() && r.explored_edges@[i]@
                    == m;
                assert(self.explored_edges@[i]@ == m);
            }
            assert forall|m: EdgeKeyModel| self@.explored.contains(m) implies r@.explored.contains(
                m,
            ) by {
                let i = choose|i: int|
                    0 <= i < self.explored_edges@.len() && self.explored_edges@[i]@ == m;
                assert(r.explored_edges@[i]@ == m);
            }
            assert(r@.explored =~= self@.explored);
            assert(r@ == self@);
        }
        r
    }
}

impl Clone for Walker {
    /// A deep copy of this walker, preserving its value.
    fn clone(&self) -> (r: Self)
        ensures
            r@ == self@,
    {
        self.deep_clone()
    }
}

/// The value of an optional walker.
pub open spec fn opt_walker_view(o: Option<Walker>) -> Option<WalkerModel> {
    match o {
        Some(w) => Some(walker_view(w)),
        None => None,
    }
}

/// The text of an optional borrowed string.
pub open spec fn opt_str_text(o: Option<&str>) -> Option<Seq<char>> {
    match o {
        Some(s) => Some(s@),
        None => None,
    }
}

/// The texts of a list of strings, in order.
pub open spec fn strings_view(s: Seq<String>) -> Seq<Seq<char>> {
    s.map_values(|x: String| x@)
}

/// Addition on counters that sticks at the largest representable value.
pub open spec fn sat_add_spec(a: int, b: int) -> int {
    if a + b > usize::MAX as int {
        usize::MAX as int
    } else {
        a + b
    }
}

/// Saturating addition of two counters.
pub fn sat_add(a: usize, b: usize) -> (r: usize)
    ensures
        r as int == sat_add_spec(a as int, b as int),
{
    if a > usize::MAX - b {
        usize::MAX
    } else {
        a + b
    }
}

/// Pushing a walker onto a history appends its view.
pub proof fn lemma_history_views_push(s: Seq<Walker>, x: Walker)
    ensures
        history_views(s.push(x), 0) == history_views(s, 0).push(walker_view(x)),
{
    lemma_history_views_full(s.push(x));
    lemma_history_views_full(s);
    assert(history_views(s.push(x), 0) =~= history_views(s, 0).push(walker_view(x)));
}

/// Pushing an edge key onto a list inserts its value into the set view.
pub proof fn lemma_edge_keys_view_push(s: Seq<EdgeKey>, k: EdgeKey)
    ensures
        edge_keys_view(s.push(k)) == edge_keys_view(s).insert(k@),
{
    assert forall|m: EdgeKeyModel| edge_keys_view(s.push(k)).contains(m) implies edge_keys_view(
        s,
    ).insert(k@).contains(m) by {
        let i = choose|i: int| 0 <= i < s.push(k).len() && s.push(k)[i]@ == m;
        if i < s.len() {
            assert(s[i]@ == m);
        }
    }
    assert forall|m: EdgeKeyModel| edge_keys_view(s).insert(k@).contains(m) implies edge_keys_view(
        s.push(k),
    ).contains(m) by {
        if m == k@ {
            assert(s.push(k)[s.len() as int]@ == m);
        } else {
            let i = choose|i: int| 0 <= i < s.len() && s[i]@ == m;
            assert(s.push(k)[i]@ == m);
        }
    }
    assert(edge_keys_view(s.push(k)) =~= edge_keys_view(s).insert(k@));
}

/// The lower-case form of an ASCII capital letter; other characters are kept.
pub open spec fn lower_char(c: char) -> char {
    if 'A' <= c && c <= 'Z' {
        (((c as u8) + 32) as char)
    } else {
        c
    }
}

/// Whether two characters match under the given case sensitivity.
pub open spec fn char_match_spec(a: char, b: char, case_sensitive: bool) -> bool {
    if case_sensitive {
        a == b
    } else {
        lower_char(a) == lower_char(b)
    }
}

/// Whether two equal-length character sequences match elementwise.
pub open spec fn seq_match_spec(a: Seq<char>, b: Seq<char>, case_sensitive: bool) -> bool {
    a.len() == b.len() && forall|i: int|
        0 <= i < a.len() ==> char_match_spec(a[i], b[i], case_sensitive)
}

/// Whether two characters match under the given case sensitivity.
pub fn char_matches(a: char, b: char, case_sensitive: bool) -> (r: bool)
    ensures
        r == char_match_spec(a, b, case_sensitive),
{
    if case_sensitive {
        a == b
    } else {
        let la: char = if 'A' <= a && a <= 'Z' {
            (((a as u8) + 32) as char)
        } else {
            a
        };
        let lb: char = if 'A' <= b && b <= 'Z' {
            (((b as u8) + 32) as char)
        } else {
            b
        };
        la == lb
    }
}

/// The walkers a literal acceptor's walker yields for a token: the token must
/// match the literal's text from the walker's position on; a token that runs
/// past the text leaves the excess as remaining input.
pub open spec fn literal_consume_spec(m: WalkerModel, token: Seq<char>) -> Seq<WalkerModel> {
    match (m.acceptor.rule, m.current) {
        (RuleModel::Literal(text), StateModel::Int(pos)) => {
            if 0 <= pos && pos < text.len() && token.len() > 0 {
                let k = if token.len() <= text.len() - pos {
                    token.len() as int
                } else {
                    text.len() - pos
                };
                if seq_match_spec(
                    token.subrange(0, k),
                    text.subrange(pos, pos + k),
                    m.acceptor.case_sensitive,
                ) {
                    seq![
                        WalkerModel {
                            current: StateModel::Int(pos + k),
                            consumed: sat_add_spec(m.consumed, k),
                            raw_override: Some(raw_part(m) + token.subrange(0, k)),
                            remaining: if k < token.len() {
                                Some(token.subrange(k, token.len() as int))
                            } else {
                                None
                            },
                            accepts_more: pos + k < text.len(),
                            ..m
                        },
                    ]
                } else {
                    Seq::empty()
                }
            } else {
                Seq::empty()
            }
        },
        _ => Seq::empty(),
    }
}

/// The walker a free-form acceptor's walker yields: the whole token is
/// absorbed into the raw value and nothing is left over.
pub open spec fn any_consume_spec(m: WalkerModel, token: Seq<char>) -> Seq<WalkerModel> {
    if token.len() > 0 {
        seq![
            WalkerModel {
                consumed: sat_add_spec(m.consumed, token.len() as int),
                raw_override: Some(raw_part(m) + token),
                remaining: None,
                accepts_more: true,
                ..m
            },
        ]
    } else {
        Seq::empty()
    }
}

/// Continuations a walker literally expects next: delegated to the active
/// transition up to a depth bound of 10; a literal acceptor expects the rest
/// of its text.
pub open spec fn continuations_spec(m: WalkerModel, depth: int) -> Seq<Seq<char>>
    decreases m,
{
    if depth > 10 {
        Seq::empty()
    } else {
        match m.transition {
            Some(c) => continuations_spec(*c, depth + 1),
            None => match (m.acceptor.rule, m.current) {
                (RuleModel::Literal(text), StateModel::Int(pos)) => if 0 <= pos && pos < text.len() {
                    seq![text.subrange(pos, text.len() as int)]
                } else {
                    Seq::empty()
                },
                _ => Seq::empty(),
            },
        }
    }
}

/// The result of starting a transition: refused when a token is given that
/// the child walker may not start with, or when an equally targeted
/// transition is already active and still consuming; otherwise a copy of the
/// walker with the child installed and a completed predecessor archived.
pub open spec fn start_transition_spec(
    m: WalkerModel,
    tw: WalkerModel,
    token: Option<Seq<char>>,
    ss: Option<StateModel>,
    ts: Option<StateModel>,
) -> Option<WalkerModel> {
    let tw2 = if token is Some {
        after_should_start(tw)
    } else {
        tw
    };
    if token is Some && !should_start_spec(tw) {
        None
    } else if m.target == ts && m.transition is Some && match m.transition {
        Some(c) => c.accepts_more,
        None => false,
    } {
        None
    } else {
        Some(
            WalkerModel {
                current: match ss {
                    Some(s) => s,
                    None => m.current,
                },
                target: ts,
                history: match m.transition {
                    Some(c) => if has_reached_spec(*c) {
                        m.history.push(*c)
                    } else {
                        m.history
                    },
                    None => m.history,
                },
                transition: Some(Box::new(tw2)),
                ..m
            },
        )
    }
}

/// Whether a walker's current state is one of its acceptor's accepting
/// states.
pub open spec fn has_reached_spec(m: WalkerModel) -> bool {
    m.acceptor.ends.contains(m.current)
}

/// The result of completing a transition, and whether the walker has thereby
/// reached an accepting state.  The walker adopts the transition's leftover
/// input as its own (clearing it on the installed child), accumulates the
/// consumed count, records the explored edge, and, when the transition has
/// reached an accepting state, advances to the target state, archiving a
/// transition that can consume no more with its leftover cleared.
pub open spec fn complete_transition_spec(m: WalkerModel, t: WalkerModel) -> (WalkerModel, bool) {
    let c1 = WalkerModel {
        transition: Some(Box::new(WalkerModel { remaining: None, ..t })),
        remaining: t.remaining,
        consumed: sat_add_spec(m.consumed, t.consumed),
        ..m
    };
    let c2 = WalkerModel { explored: c1.explored.insert(current_edge_key(c1)), ..c1 };
    if !should_complete_spec(c2) {
        (c2, false)
    } else if c2.target is Some && has_reached_spec(t) {
        let c3 = WalkerModel {
            current: match c2.target {
                Some(s) => s,
                None => c2.current,
            },
            ..c2
        };
        let c4 = if !t.accepts_more {
            WalkerModel {
                history: c3.history.push(WalkerModel { remaining: None, ..t }),
                transition: None,
                target: None,
                ..c3
            }
        } else {
            c3
        };
        (c4, c4.acceptor.ends.contains(c4.current))
    } else {
        (c2, false)
    }
}

impl Walker {
    /// The literal continuations this walker expects next, searched through
    /// nested transitions down to a fixed depth bound.
    pub fn get_valid_continuations(&self, depth: i32) -> (r: Vec<String>)
        ensures
            strings_view(r@) == continuations_spec(self@, depth as int),
        decreases *self,
    {
        if depth > 10 {
            let r: Vec<String> = Vec::new();
            proof {
                assert(strings_view(r@) =~= continuations_spec(self@, depth as int));
            }
            return r;
        }
        match &self.transition_walker {
            Some(t) => (&**t).get_valid_continuations(depth + 1),
            None => {
                let mut r: Vec<String> = Vec::new();
                match (&self.acceptor.rule, &self.current_state) {
                    (crate::acceptor::Rule::Literal(text), State::Int(pos)) => {
                        let chars = crate::text::chars_of(text.as_str());
                        if *pos < chars.len() {
                            r.push(crate::text::suffix_of_chars(text.as_str(), *pos));
                        }
                    },
                    _ => {},
                }
                proof {
                    assert(strings_view(r@) =~= continuations_spec(self@, depth as int));
                }
                r
            },
        }
    }

    /// The walkers this literal-rule walker yields for `token`, as
    /// `literal_consume_spec` states it.
    pub fn consume_literal(&self, token: &str) -> (r: Vec<Walker>)
        ensures
            walkers_view(r@) == literal_consume_spec(self@, token@),
    {
        let mut r: Vec<Walker> = Vec::new();
        let text: String = match &self.acceptor.rule {
            crate::acceptor::Rule::Literal(t) => t.clone(),
            _ => {
                proof {
                    lemma_walkers_view_full(r@);
                    assert(walkers_view(r@) =~= literal_consume_spec(self@, token@));
                }
                return r;
            },
        };
        let pos: usize = match &self.current_state {
            State::Int(p) => *p,
            _ => {
                proof {
                    lemma_walkers_view_full(r@);
                    assert(walkers_view(r@) =~= literal_consume_spec(self@, token@));
                }
                return r;
            },
        };
        let text_chars = crate::text::chars_of(text.as_str());
        let token_chars = crate::text::chars_of(token);
        if pos >= text_chars.len() || token_chars.len() == 0 {
            proof {
                lemma_walkers_view_full(r@);
                assert(walkers_view(r@) =~= literal_consume_spec(self@, token@));
            }
            return r;
        }
        let k: usize = if token_chars.len() <= text_chars.len() - pos {
            token_chars.len()
        } else {
            text_chars.len() - pos
        };
        let mut i: usize = 0;
        let mut ok: bool = true;
        while i < k
            invariant
                0 <= i <= k,
                k <= token_chars@.len(),
                pos + k <= text_chars@.len(),
                text_chars@.len() <= usize::MAX,
                ok ==> (forall|j: int|
                    0 <= j < i ==> char_match_spec(
                        token_chars@[j],
                        text_chars@[pos + j],
                        self.acceptor.case_sensitive,
                    )),
                !ok ==> (exists|j: int|
                    0 <= j < k && !char_match_spec(
                        token_chars@[j],
                        text_chars@[pos + j],
                        self.acceptor.case_sensitive,
                    )),
            decreases k - i,
        {
            if !char_matches(token_chars[i], text_chars[pos + i], self.acceptor.case_sensitive) {
                proof {
                    assert(!char_match_spec(
                        token_chars@[i as int],
                        text_chars@[pos + i],
                        self.acceptor.case_sensitive,
                    ));
                }
                ok = false;
                i = k;
            } else {
                i = i + 1;
            }
        }
        proof {
            if ok {
                assert forall|j: int| 0 <= j < k implies char_match_spec(
                    token@.subrange(0, k as int)[j],
                    text@.subrange(pos as int, pos + k)[j],
                    self@.acceptor.case_sensitive,
                ) by {
                    assert(token@.subrange(0, k as int)[j] == token_chars@[j]);
                    assert(text@.subrange(pos as int, pos + k)[j] == text_chars@[pos + j]);
                }
                assert(seq_match_spec(
                    token@.subrange(0, k as int),
                    text@.subrange(pos as int, pos + k),
                    self@.acceptor.case_sensitive,
                ));
            } else {
                let j = choose|j: int|
                    0 <= j < k && !char_match_spec(
                        token_chars@[j],
                        text_chars@[pos + j],
                        self.acceptor.case_sensitive,
                    );
                assert(token@.subrange(0, k as int)[j] == token_chars@[j]);
                assert(text@.subrange(pos as int, pos + k)[j] == text_chars@[pos + j]);
                assert(!seq_match_spec(
                    token@.subrange(0, k as int),
                    text@.subrange(pos as int, pos + k),
                    self@.acceptor.case_sensitive,
                ));
            }
        }
        if !ok {
            proof {
                lemma_walkers_view_full(r@);
                assert(walkers_view(r@) =~= literal_consume_spec(self@, token@));
            }
            return r;
        }
        let prev_raw: String = match self.raw_value() {
            Some(v) => v,
            None => String::new(),
        };
        let mut new_raw = prev_raw;
        let chunk = crate::text::prefix_of_chars(token, k);
        append_str(&mut new_raw, chunk.as_str());
        let remaining: Option<String> = if k < token_chars.len() {
            Some(crate::text::suffix_of_chars(token, k))
        } else {
            None
        };
        let mut w = self.deep_clone();
        w.current_state = State::Int(pos + k);
        w.consumed_character_count = sat_add(w.consumed_character_count, k);
        w.raw_value_override = Some(new_raw);
        w.remaining_input = remaining;
        w.accepts_more_input = pos + k < text_chars.len();
        r.push(w);
        proof {
            lemma_walkers_view_full(r@);
            assert(seq_match_spec(
                token@.subrange(0, k as int),
                text@.subrange(pos as int, pos + k),
                self@.acceptor.case_sensitive,
            ));
            assert(walkers_view(r@) =~= literal_consume_spec(self@, token@));
        }
        r
    }

    /// The walker this free-form walker yields for `token`, as
    /// `any_consume_spec` states it.
    pub fn consume_any(&self, token: &str) -> (r: Vec<Walker>)
        ensures
            walkers_view(r@) == any_consume_spec(self@, token@),
    {
        let mut r: Vec<Walker> = Vec::new();
        let token_chars = crate::text::chars_of(token);
        if token_chars.len() == 0 {
            proof {
                lemma_walkers_view_full(r@);
                assert(walkers_view(r@) =~= any_consume_spec(self@, token@));
            }
            return r;
        }
        let prev_raw: String = match self.raw_value() {
            Some(v) => v,
            None => String::new(),
        };
        let mut new_raw = prev_raw;
        append_str(&mut new_raw, token);
        let mut w = self.deep_clone();
        w.consumed_character_count = sat_add(w.consumed_character_count, token_chars.len());
        w.raw_value_override = Some(new_raw);
        w.remaining_input = None;
        w.accepts_more_input = true;
        r.push(w);
        proof {
            lemma_walkers_view_full(r@);
            assert(walkers_view(r@) =~= any_consume_spec(self@, token@));
        }
        r
    }

    /// Starts a transition through `transition_walker`, as
    /// `start_transition_spec` states it.
    pub fn start_transition(
        &self,
        transition_walker: Walker,
        token: Option<&str>,
        start_state: Option<State>,
        target_state: Option<State>,
    ) -> (r: Option<Walker>)
        ensures
            opt_walker_view(r) == start_transition_spec(
                self@,
                transition_walker@,
                opt_str_text(token),
                opt_state_view(start_state),
                opt_state_view(target_state),
            ),
    {
        let mut tw = transition_walker;
        let ghost tw0 = tw@;
        if let Some(t) = token {
            if !tw.should_start_transition(t) {
                return None;
            }
        }
        let same_target = opt_state_eq(&self.target_state, &target_state);
        if same_target && self.transition_walker.is_some() {
            let child_accepts = match &self.transition_walker {
                Some(c) => (&**c).can_accept_more_input(),
                None => false,
            };
            if child_accepts {
                return None;
            }
        }
        let mut c = self.deep_clone();
        if let Some(ss) = start_state {
            c.current_state = ss;
        }
        c.target_state = target_state;
        let ghost hist_before = c.accepted_history@;
        match &c.transition_walker {
            Some(prev) => {
                if (&**prev).has_reached_accept_state() {
                    let archived = (&**prev).deep_clone();
                    c.accepted_history.push(archived);
                    proof {
                        lemma_history_views_push(hist_before, c.accepted_history@.last());
                    }
                }
            },
            None => {},
        }
        c.transition_walker = Some(Box::new(tw));
        Some(c)
    }

    /// Completes a transition, as `complete_transition_spec` states it; the
    /// boolean reports whether the walker has reached an accepting state.
    pub fn complete_transition(&self, transition: Walker) -> (r: (Option<Walker>, bool))
        ensures
            r.0 is Some,
            opt_walker_view(r.0) == Some(complete_transition_spec(self@, transition@).0),
            r.1 == complete_transition_spec(self@, transition@).1,
    {
        let ghost c1v = (WalkerModel {
            transition: Some(Box::new(WalkerModel { remaining: None, ..transition@ })),
            remaining: transition@.remaining,
            consumed: sat_add_spec(self@.consumed, transition@.consumed),
            ..self@
        });
        let mut c = self.deep_clone();
        let mut tcopy = transition.deep_clone();
        tcopy.remaining_input = None;
        proof {
            assert(tcopy@ =~= WalkerModel { remaining: None, ..transition@ });
        }
        c.transition_walker = Some(Box::new(tcopy));
        c.remaining_input = match &transition.remaining_input {
            Some(s) => Some(s.clone()),
            None => None,
        };
        c.consumed_character_count = sat_add(
            c.consumed_character_count,
            transition.consumed_character_count,
        );
        proof {
            assert(c@ =~= c1v);
        }
        let key = EdgeKey {
            from: c.current_state.clone(),
            to: match &c.target_state {
                Some(s) => Some(s.clone()),
                None => None,
            },
            value: c.raw_value(),
        };
        proof {
            assert(key@ =~= current_edge_key(c1v));
        }
        let ghost explored_before = c.explored_edges@;
        c.explored_edges.push(key);
        proof {
            lemma_edge_keys_view_push(explored_before, c.explored_edges@.last());
            assert(c@ =~= WalkerModel { explored: c1v.explored.insert(current_edge_key(c1v)), ..c1v });
        }
        if !c.should_complete_transition() {
            proof {
                assert(c@ =~= complete_transition_spec(self@, transition@).0);
            }
            return (Some(c), false);
        }
        if c.target_state.is_some() && transition.has_reached_accept_state() {
            let tgt: State = match &c.target_state {
                Some(s) => s.clone(),
                None => State::Int(0),
            };
            c.current_state = tgt;
            if !transition.can_accept_more_input() {
                let mut archived = transition;
                archived.remaining_input = None;
                proof {
                    assert(archived@ =~= WalkerModel { remaining: None, ..transition@ });
                }
                let ghost hist_before = c.accepted_history@;
                c.accepted_history.push(archived);
                proof {
                    lemma_history_views_push(hist_before, c.accepted_history@.last());
                }
                c.transition_walker = None;
                c.target_state = None;
            }
            proof {
                assert(c@ =~= complete_transition_spec(self@, transition@).0);
            }
            if c.has_reached_accept_state() {
                return (Some(c), true);
            }
            return (Some(c), false);
        }
        proof {
            assert(c@ =~= complete_transition_spec(self@, transition@).0);
        }
        (Some(c), false)
    }
}

/// The vocabulary tokens consistent with some continuation the walker
/// expects: non-empty stored tokens that are prefixes of a continuation.
pub open spec fn valid_prefixes_spec(m: WalkerModel, vset: Set<Seq<char>>) -> Set<Seq<char>> {
    Set::new(
        |tok: Seq<char>|
            tok.len() > 0 && vset.contains(tok) && exists|i: int|
                0 <= i < continuations_spec(m, 0).len() && crate::text::is_prefix_of(
                    tok,
                    continuations_spec(m, 0)[i],
                ),
    )
}

impl Walker {
    /// Every vocabulary token consistent with a continuation this walker
    /// expects, found by common-prefix search against the vocabulary trie.
    /// The list may repeat a token; its set of texts is exactly
    /// `valid_prefixes_spec`.
    pub fn find_valid_prefixes(&self, trie: &trie_rs::Trie<u8>) -> (r: Vec<String>)
        ensures
            forall|k: int|
                0 <= k < r@.len() ==> valid_prefixes_spec(
                    self@,
                    crate::trie::trie_tokens(*trie),
                ).contains((#[trigger] r@[k])@),
            forall|tok: Seq<char>|
                #[trigger] valid_prefixes_spec(self@, crate::trie::trie_tokens(*trie)).contains(
                    tok,
                ) ==> exists|k: int| 0 <= k < r@.len() && r@[k]@ == tok,
    {
        let conts = self.get_valid_continuations(0);
        let ghost conts_m = strings_view(conts@);
        let mut r: Vec<String> = Vec::new();
        let mut i: usize = 0;
        while i < conts.len()
            invariant
                0 <= i <= conts@.len(),
                conts_m == strings_view(conts@),
                conts_m == continuations_spec(self@, 0),
                conts_m.len() == conts@.len(),
                forall|k: int| 0 <= k < conts@.len() ==> (#[trigger] conts@[k])@ == conts_m[k],
                forall|k: int|
                    0 <= k < r@.len() ==> valid_prefixes_spec(
                        self@,
                        crate::trie::trie_tokens(*trie),
                    ).contains((#[trigger] r@[k])@),
                forall|tok: Seq<char>, j: int|
                    0 <= j < i && crate::trie::trie_tokens(*trie).contains(tok) && tok.len() > 0
                        && crate::text::is_prefix_of(tok, conts_m[j]) ==> exists|k: int|
                        0 <= k < r@.len() && (#[trigger] r@[k])@ == tok,
            decreases conts@.len() - i,
        {
            let ghost r_prev = r@;
            let found = crate::trie::trie_common_prefixes(trie, conts[i].as_str());
            let mut k: usize = 0;
            while k < found.len()
                invariant
                    0 <= k <= found@.len(),
                    0 <= i < conts_m.len(),
                    conts@[i as int]@ == conts_m[i as int],
                    conts_m == continuations_spec(self@, 0),
                    forall|x: int|
                        0 <= x < found@.len() ==> crate::trie::trie_tokens(*trie).contains(
                            (#[trigger] found@[x])@,
                        ) && crate::text::is_prefix_of(found@[x]@, conts_m[i as int])
                            && found@[x]@.len() > 0,
                    forall|x: int|
                        0 <= x < r_prev.len() ==> r@.len() > x && (#[trigger] r@[x])@
                            == r_prev[x]@,
                    r@.len() == r_prev.len() + k,
                    forall|x: int|
                        0 <= x < k ==> r@.len() > r_prev.len() + x && (#[trigger] r@[r_prev.len()
                            + x])@ == found@[x]@,
                    forall|x: int|
                        0 <= x < r@.len() ==> valid_prefixes_spec(
                            self@,
                            crate::trie::trie_tokens(*trie),
                        ).contains((#[trigger] r@[x])@),
                decreases found@.len() - k,
            {
                let item = found[k].clone();
                proof {
                    assert(valid_prefixes_spec(self@, crate::trie::trie_tokens(*trie)).contains(
                        found@[k as int]@,
                    ));
                }
                r.push(item);
                k = k + 1;
            }
            i = i + 1;
            proof {
                assert forall|tok: Seq<char>, j: int|
                    0 <= j < i && crate::trie::trie_tokens(*trie).contains(tok) && tok.len() > 0
                        && crate::text::is_prefix_of(tok, conts_m[j]) implies exists|x: int|
                    0 <= x < r@.len() && (#[trigger] r@[x])@ == tok by {
                    if j == i - 1 {
                        let x = choose|x: int| 0 <= x < found@.len() && found@[x]@ == tok;
                        assert(r@[r_prev.len() + x]@ == tok);
                    } else {
                        let x = choose|x: int| 0 <= x < r_prev.len() && r_prev[x]@ == tok;
                        assert(r@[x]@ == tok);
                    }
                }
            }
        }
        proof {
            assert forall|tok: Seq<char>|
                #[trigger] valid_prefixes_spec(self@, crate::trie::trie_tokens(*trie)).contains(
                    tok,
                ) implies exists|k: int| 0 <= k < r@.len() && r@[k]@ == tok by {
                let j = choose|j: int|
                    0 <= j < continuations_spec(self@, 0).len() && crate::text::is_prefix_of(
                        tok,
                        continuations_spec(self@, 0)[j],
                    );
            }
        }
        r
    }
}

/// The values of a list of walkers, in order.
pub open spec fn walkers_view(s: Seq<Walker>) -> Seq<WalkerModel> {
    s.map_values(|w: Walker| walker_view(w))
}

/// Each element of a walkers view is the view of the corresponding walker.
pub proof fn lemma_walkers_view_full(s: Seq<Walker>)
    ensures
        walkers_view(s).len() == s.len(),
        forall|k: int| 0 <= k < s.len() ==> #[trigger] walkers_view(s)[k] == walker_view(s[k]),
{
}

} // verus!
