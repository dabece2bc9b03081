//! The top-level orchestrator: it owns the live walker set, the vocabulary
//! (token string to id and back) and a trie built over the vocabulary, and
//! decides per sampled token whether to accept it verbatim, substitute the
//! longest valid partial match, or reject.

use vstd::prelude::*;

verus! {

use crate::acceptor::Acceptor;
use crate::machine::advance_all_spec;
use crate::machine::get_walkers_spec;
use crate::machine::pairs_view;
use crate::machine::lemma_pairs_view_full;
use crate::machine::TRANSITION_FUEL;
use crate::trie::trie_tokens;
use crate::trie::nonempty_texts;
use crate::walker::Walker;
use crate::walker::WalkerModel;
use crate::walker::accepts_any_spec;
use crate::walker::valid_prefixes_spec;
use crate::walker::walker_matches;
use crate::walker::walker_view;
use crate::walker::walkers_view;
use crate::walker::lemma_walkers_view_full;

/// The values of a vocabulary list, in order.
pub open spec fn vocab_view(v: Seq<(String, u32)>) -> Seq<(Seq<char>, u32)> {
    v.map_values(|p: (String, u32)| (p.0@, p.1))
}

/// Each element of a vocabulary view is the view of the corresponding pair.
pub proof fn lemma_vocab_view_full(v: Seq<(String, u32)>)
    ensures
        vocab_view(v).len() == v.len(),
        forall|k: int| 0 <= k < v.len() ==> #[trigger] vocab_view(v)[k] == (v[k].0@, v[k].1),
{
}

/// The token texts of a vocabulary, in order.
pub open spec fn vocab_texts(v: Seq<(Seq<char>, u32)>) -> Seq<Seq<char>> {
    v.map_values(|p: (Seq<char>, u32)| p.0)
}

/// The text of the first vocabulary entry with the given id.
pub open spec fn token_of_id(v: Seq<(Seq<char>, u32)>, id: u32, i: int) -> Option<Seq<char>>
    decreases v.len() - i,
{
    if i < 0 || i >= v.len() {
        None
    } else if v[i].1 == id {
        Some(v[i].0)
    } else {
        token_of_id(v, id, i + 1)
    }
}

/// The id of the first vocabulary entry with the given text.
pub open spec fn id_of_token(v: Seq<(Seq<char>, u32)>, tok: Seq<char>, i: int) -> Option<u32>
    decreases v.len() - i,
{
    if i < 0 || i >= v.len() {
        None
    } else if v[i].0 == tok {
        Some(v[i].1)
    } else {
        id_of_token(v, tok, i + 1)
    }
}

/// Whether some reported pair carries the given matched text.
pub open spec fn has_text(rs: Seq<(Seq<char>, WalkerModel)>, t: Seq<char>) -> bool {
    exists|i: int| 0 <= i < rs.len() && rs[i].0 == t
}

/// Whether the accumulator already holds an equivalent walker.
pub open spec fn contains_eqv(acc: Seq<WalkerModel>, w: WalkerModel) -> bool {
    exists|j: int| 0 <= j < acc.len() && walker_matches(acc[j], w)
}

/// The walkers reported under text `t`, in order, each kept only when no
/// equivalent walker was kept before it.
pub open spec fn group_from(
    rs: Seq<(Seq<char>, WalkerModel)>,
    t: Seq<char>,
    i: int,
    acc: Seq<WalkerModel>,
) -> Seq<WalkerModel>
    decreases rs.len() - i,
{
    if i < 0 || i >= rs.len() {
        acc
    } else if rs[i].0 == t && !contains_eqv(acc, rs[i].1) {
        group_from(rs, t, i + 1, acc.push(rs[i].1))
    } else {
        group_from(rs, t, i + 1, acc)
    }
}

/// The deduplicated group of walkers reported under text `t`.
pub open spec fn group_spec(rs: Seq<(Seq<char>, WalkerModel)>, t: Seq<char>) -> Seq<WalkerModel> {
    group_from(rs, t, 0, Seq::empty())
}

/// The longest reported text other than the requested token that is itself a
/// vocabulary token, with its id; the running best starts empty with the
/// sentinel id 0.
pub open spec fn longest_partial_from(
    rs: Seq<(Seq<char>, WalkerModel)>,
    token: Seq<char>,
    vocab: Seq<(Seq<char>, u32)>,
    i: int,
    best: (Seq<char>, u32),
) -> (Seq<char>, u32)
    decreases rs.len() - i,
{
    if i < 0 || i >= rs.len() {
        best
    } else {
        let t = rs[i].0;
        if t != token && t.len() > best.0.len() {
            match id_of_token(vocab, t, 0) {
                Some(id) => longest_partial_from(rs, token, vocab, i + 1, (t, id)),
                None => longest_partial_from(rs, token, vocab, i + 1, best),
            }
        } else {
            longest_partial_from(rs, token, vocab, i + 1, best)
        }
    }
}

/// The decision of one generation step: the accepted (or substituted) token
/// id, and the new walker set, when one is adopted.
pub open spec fn advance_token_spec(
    walkers: Seq<WalkerModel>,
    vocab: Seq<(Seq<char>, u32)>,
    vset: Set<Seq<char>>,
    token_id: u32,
) -> (Option<u32>, Option<Seq<WalkerModel>>) {
    match token_of_id(vocab, token_id, 0) {
        None => (None, None),
        Some(tok) => {
            let rs = advance_all_spec(walkers, tok, Some(vset));
            if has_text(rs, tok) {
                (Some(token_id), Some(group_spec(rs, tok)))
            } else {
                let best = longest_partial_from(rs, tok, vocab, 0, (Seq::empty(), 0));
                if best.1 != 0 && has_text(rs, best.0) {
                    (Some(best.1), Some(group_spec(rs, best.0)))
                } else {
                    (None, None)
                }
            }
        },
    }
}

/// The walker sets left after replaying a sequence of decoded tokens, each
/// requiring an exact match; a token with no exact match leaves the walker
/// set unchanged, and empty tokens are skipped.
pub open spec fn consume_raw_spec(
    walkers: Seq<WalkerModel>,
    vset: Set<Seq<char>>,
    tokens: Seq<Seq<char>>,
    i: int,
) -> Seq<WalkerModel>
    decreases tokens.len() - i,
{
    if i < 0 || i >= tokens.len() {
        walkers
    } else {
        let tok = tokens[i];
        if tok.len() == 0 {
            consume_raw_spec(walkers, vset, tokens, i + 1)
        } else {
            let nw = exact_matches(advance_all_spec(walkers, tok, Some(vset)), tok);
            if nw.len() > 0 {
                consume_raw_spec(nw, vset, tokens, i + 1)
            } else {
                consume_raw_spec(walkers, vset, tokens, i + 1)
            }
        }
    }
}

/// The walkers of the pairs reported under text `t`, in order, kept as they
/// come.
pub open spec fn exact_matches(rs: Seq<(Seq<char>, WalkerModel)>, t: Seq<char>) -> Seq<WalkerModel>
    decreases rs.len(),
{
    if rs.len() == 0 {
        Seq::empty()
    } else if rs[0].0 == t {
        seq![rs[0].1] + exact_matches(rs.drop_first(), t)
    } else {
        exact_matches(rs.drop_first(), t)
    }
}

/// The union of the valid-prefix sets of the walkers from index `i` on.
pub open spec fn prefixes_union(ws: Seq<WalkerModel>, vset: Set<Seq<char>>, i: int) -> Set<
    Seq<char>,
>
    decreases ws.len() - i,
{
    if i < 0 || i >= ws.len() {
        Set::empty()
    } else {
        valid_prefixes_spec(ws[i], vset).union(prefixes_union(ws, vset, i + 1))
    }
}

/// The set of texts held by a list of strings.
pub open spec fn texts_set(s: Seq<String>) -> Set<Seq<char>> {
    Set::new(|t: Seq<char>| exists|i: int| 0 <= i < s.len() && s[i]@ == t)
}

/// The set of reversed members of a set of texts.
pub open spec fn rev_set(s: Set<Seq<char>>) -> Set<Seq<char>> {
    Set::new(|t: Seq<char>| s.contains(t.reverse()))
}

/// A deep copy of a walker list, preserving the values.
pub fn clone_walkers(v: &Vec<Walker>) -> (r: Vec<Walker>)
    ensures
        walkers_view(r@) == walkers_view(v@),
{
    let mut r: Vec<Walker> = Vec::new();
    let mut i: usize = 0;
    while i < v.len()
        invariant
            0 <= i <= v@.len(),
            r@.len() == i,
            forall|k: int| 0 <= k < i ==> walker_view(#[trigger] r@[k]) == walker_view(v@[k]),
        decreases v@.len() - i,
    {
        r.push(v[i].deep_clone());
        i = i + 1;
    }
    proof {
        lemma_walkers_view_full(r@);
        lemma_walkers_view_full(v@);
        assert(walkers_view(r@) =~= walkers_view(v@));
    }
    r
}

/// The process-wide state of one generation session.
pub struct StructuringEngine {
    pub vocabulary: Vec<(String, u32)>,
    pub trie: trie_rs::Trie<u8>,
    pub walkers: Vec<Walker>,
}

impl StructuringEngine {
    /// An engine over the given vocabulary, with the initial walkers of the
    /// root acceptor and a trie over the non-empty vocabulary tokens.
    pub fn new(vocabulary: Vec<(String, u32)>, acceptor: &Acceptor) -> (r: Self)
        ensures
            vocab_view(r.vocabulary@) == vocab_view(vocabulary@),
            trie_tokens(r.trie) == nonempty_texts(vocab_strings(vocabulary@)),
            walkers_view(r.walkers@) == get_walkers_spec(a_view(acceptor), None, TRANSITION_FUEL as nat),
    {
        let mut tokens: Vec<String> = Vec::new();
        let mut i: usize = 0;
        while i < vocabulary.len()
            invariant
                0 <= i <= vocabulary@.len(),
                tokens@.len() == i,
                forall|k: int| 0 <= k < i ==> (#[trigger] tokens@[k])@ == vocabulary@[k].0@,
            decreases vocabulary@.len() - i,
        {
            tokens.push(vocabulary[i].0.clone());
            i = i + 1;
        }
        proof {
            lemma_nonempty_texts_congruent(tokens@, vocab_strings(vocabulary@));
        }
        let trie = crate::trie::build_trie(&tokens);
        let walkers = crate::machine::get_walkers(acceptor, None);
        StructuringEngine { vocabulary, trie, walkers }
    }

    /// Resolves `token_id`, advances every walker by its text, and adopts
    /// the grouped result for the exact token when it exists, else for the
    /// longest valid partial match; the returned id is the one the caller
    /// should emit, and `None` reports that nothing advanced.
    pub fn advance_token(&mut self, token_id: u32) -> (r: Option<u32>)
        ensures
            ({
                let decision = advance_token_spec(
                    walkers_view(old(self).walkers@),
                    vocab_view(old(self).vocabulary@),
                    trie_tokens(old(self).trie),
                    token_id,
                );
                &&& r == decision.0
                &&& walkers_view(final(self).walkers@) == match decision.1 {
                    Some(g) => g,
                    None => walkers_view(old(self).walkers@),
                }
            }),
            vocab_view(final(self).vocabulary@) == vocab_view(old(self).vocabulary@),
            final(self).trie == old(self).trie,
    {
        let token: Option<String> = lookup_token_of_id(&self.vocabulary, token_id);
        let token: String = match token {
            Some(t) => t,
            None => {
                return None;
            },
        };
        let results = crate::machine::advance_all(
            &self.walkers,
            token.as_str(),
            Some(&self.trie),
        );
        let ghost rs_m = pairs_view(results@);
        let exact = collect_group(&results, token.as_str());
        if exact.len() > 0 {
            proof {
                lemma_group_nonempty_has_text(rs_m, token@);
            }
            self.walkers = exact;
            return Some(token_id);
        }
        proof {
            lemma_group_empty_no_text(rs_m, token@);
        }
        let best = find_longest_partial(&results, token.as_str(), &self.vocabulary);
        if best.1 != 0 {
            let group = collect_group(&results, best.0.as_str());
            if group.len() > 0 {
                proof {
                    lemma_group_nonempty_has_text(rs_m, best.0@);
                }
                self.walkers = group;
                return Some(best.1);
            }
            proof {
                lemma_group_empty_no_text(rs_m, best.0@);
            }
            return None;
        }
        None
    }

    /// The valid next tokens of the active walkers: an empty restriction and
    /// an empty trie as soon as any walker accepts any token; otherwise the
    /// union of each walker's valid prefixes, and a trie over those texts
    /// reversed.
    pub fn get_valid_tokens(&self) -> (r: (Vec<String>, trie_rs::Trie<u8>))
        ensures
            (exists|k: int|
                0 <= k < walkers_view(self.walkers@).len() && accepts_any_spec(
                    #[trigger] walkers_view(self.walkers@)[k],
                )) ==> r.0@.len() == 0 && trie_tokens(r.1) =~= Set::<Seq<char>>::empty(),
            (forall|k: int|
                0 <= k < walkers_view(self.walkers@).len() ==> !accepts_any_spec(
                    #[trigger] walkers_view(self.walkers@)[k],
                )) ==> texts_set(r.0@) =~= prefixes_union(
                walkers_view(self.walkers@),
                trie_tokens(self.trie),
                0,
            ) && trie_tokens(r.1) =~= rev_set(texts_set(r.0@)),
    {
        let ghost ws_m = walkers_view(self.walkers@);
        let mut all: Vec<String> = Vec::new();
        proof {
            lemma_walkers_view_full(self.walkers@);
        }
        let mut i: usize = 0;
        while i < self.walkers.len()
            invariant
                0 <= i <= self.walkers@.len(),
                ws_m == walkers_view(self.walkers@),
                ws_m.len() == self.walkers@.len(),
                forall|k: int|
                    0 <= k < self.walkers@.len() ==> #[trigger] walkers_view(self.walkers@)[k]
                        == walker_view(self.walkers@[k]),
                forall|k: int| 0 <= k < i ==> !accepts_any_spec(#[trigger] ws_m[k]),
                forall|x: int|
                    0 <= x < all@.len() ==> prefixes_union(
                        ws_m,
                        trie_tokens(self.trie),
                        0,
                    ).contains((#[trigger] all@[x])@) && all@[x]@.len() > 0,
                forall|tok: Seq<char>, j: int|
                    0 <= j < i && #[trigger] valid_prefixes_spec(
                        ws_m[j],
                        trie_tokens(self.trie),
                    ).contains(tok) ==> exists|x: int| 0 <= x < all@.len() && (#[trigger] all@[x])@
                        == tok,
            decreases self.walkers@.len() - i,
        {
            if self.walkers[i].accepts_any_token() {
                let empty_tokens: Vec<String> = Vec::new();
                let t = crate::trie::build_trie(&empty_tokens);
                let r: Vec<String> = Vec::new();
                proof {
                    assert(nonempty_texts(empty_tokens@) =~= Set::<Seq<char>>::empty());
                    assert(accepts_any_spec(walkers_view(self.walkers@)[i as int]));
                }
                return (r, t);
            }
            let ghost all_prev = all@;
            let found = self.walkers[i].find_valid_prefixes(&self.trie);
            let mut k: usize = 0;
            while k < found.len()
                invariant
                    0 <= k <= found@.len(),
                    0 <= i < ws_m.len(),
                    ws_m == walkers_view(self.walkers@),
                    walker_view(self.walkers@[i as int]) == ws_m[i as int],
                    forall|x: int|
                        0 <= x < found@.len() ==> valid_prefixes_spec(
                            ws_m[i as int],
                            trie_tokens(self.trie),
                        ).contains((#[trigger] found@[x])@),
                    all@.len() == all_prev.len() + k,
                    forall|x: int|
                        0 <= x < all_prev.len() ==> all@.len() > x && (#[trigger] all@[x])@
                            == all_prev[x]@,
                    forall|x: int|
                        0 <= x < k ==> all@.len() > all_prev.len() + x && (#[trigger] all@[
                        all_prev.len() + x])@ == found@[x]@,
                    forall|x: int|
                        0 <= x < all@.len() ==> prefixes_union(
                            ws_m,
                            trie_tokens(self.trie),
                            0,
                        ).contains((#[trigger] all@[x])@) && all@[x]@.len() > 0,
                decreases found@.len() - k,
            {
                proof {
                    lemma_prefixes_union_member(ws_m, trie_tokens(self.trie), i as int, found@[k as int]@);
                }
                all.push(found[k].clone());
                k = k + 1;
            }
            i = i + 1;
            proof {
                assert forall|tok: Seq<char>, j: int|
                    0 <= j < i && #[trigger] valid_prefixes_spec(
                        ws_m[j],
                        trie_tokens(self.trie),
                    ).contains(tok) implies exists|x: int|
                    0 <= x < all@.len() && (#[trigger] all@[x])@ == tok by {
                    if j == i - 1 {
                        let x = choose|x: int| 0 <= x < found@.len() && found@[x]@ == tok;
                        assert(all@[all_prev.len() + x]@ == tok);
                    } else {
                        let x = choose|x: int| 0 <= x < all_prev.len() && all_prev[x]@ == tok;
                        assert(all@[x]@ == tok);
                    }
                }
            }
        }
        let mut reversed: Vec<String> = Vec::new();
        let mut x: usize = 0;
        while x < all.len()
            invariant
                0 <= x <= all@.len(),
                reversed@.len() == x,
                forall|y: int| 0 <= y < all@.len() ==> (#[trigger] all@[y])@.len() > 0,
                forall|y: int| 0 <= y < x ==> (#[trigger] reversed@[y])@ == all@[y]@.reverse(),
            decreases all@.len() - x,
        {
            reversed.push(crate::text::reverse_chars(all[x].as_str()));
            x = x + 1;
        }
        let t = crate::trie::build_trie(&reversed);
        proof {
            let vset = trie_tokens(self.trie);
            lemma_prefixes_union_complete(ws_m, vset);
            assert forall|tok: Seq<char>| prefixes_union(ws_m, vset, 0).contains(
                tok,
            ) implies texts_set(all@).contains(tok) by {
                let j = choose|j: int|
                    0 <= j < ws_m.len() && valid_prefixes_spec(ws_m[j], vset).contains(tok);
                assert(valid_prefixes_spec(ws_m[j], vset).contains(tok));
                assert(exists|x: int| 0 <= x < all@.len() && (#[trigger] all@[x])@ == tok);
                let x = choose|x: int| 0 <= x < all@.len() && (#[trigger] all@[x])@ == tok;
                assert(all@[x]@ == tok);
            }
            assert forall|tok: Seq<char>| texts_set(all@).contains(tok) implies prefixes_union(
                ws_m,
                vset,
                0,
            ).contains(tok) by {
                let x = choose|x: int| 0 <= x < all@.len() && all@[x]@ == tok;
            }
            assert(texts_set(all@) =~= prefixes_union(ws_m, vset, 0));
            lemma_rev_trie(reversed@, all@);
            assert(trie_tokens(t) =~= rev_set(texts_set(all@)));
        }
        (all, t)
    }

    /// Replays already decoded token texts, requiring an exact match at each
    /// step; a token that matches nothing leaves the walker set unchanged,
    /// and empty tokens are skipped.
    pub fn consume_raw_input(&mut self, decoded_tokens: &Vec<String>)
        ensures
            walkers_view(final(self).walkers@) == consume_raw_spec(
                walkers_view(old(self).walkers@),
                trie_tokens(old(self).trie),
                crate::walker::strings_view(decoded_tokens@),
                0,
            ),
            vocab_view(final(self).vocabulary@) == vocab_view(old(self).vocabulary@),
            final(self).trie == old(self).trie,
    {
        let ghost toks_m = crate::walker::strings_view(decoded_tokens@);
        let mut i: usize = 0;
        while i < decoded_tokens.len()
            invariant
                0 <= i <= decoded_tokens@.len(),
                toks_m == crate::walker::strings_view(decoded_tokens@),
                toks_m.len() == decoded_tokens@.len(),
                forall|k: int|
                    0 <= k < decoded_tokens@.len() ==> (#[trigger] decoded_tokens@[k])@
                        == toks_m[k],
                consume_raw_spec(
                    walkers_view(old(self).walkers@),
                    trie_tokens(old(self).trie),
                    toks_m,
                    0,
                ) == consume_raw_spec(
                    walkers_view(self.walkers@),
                    trie_tokens(self.trie),
                    toks_m,
                    i as int,
                ),
                self.trie == old(self).trie,
                vocab_view(self.vocabulary@) == vocab_view(old(self).vocabulary@),
            decreases decoded_tokens@.len() - i,
        {
            let ghost ws_before = walkers_view(self.walkers@);
            let tok = &decoded_tokens[i];
            if !tok.as_str().is_empty() {
                let results = crate::machine::advance_all(
                    &self.walkers,
                    tok.as_str(),
                    Some(&self.trie),
                );
                let ghost rs_m = pairs_view(results@);
                let matched = collect_exact(&results, tok.as_str());
                if matched.len() > 0 {
                    self.walkers = matched;
                }
            }
            i = i + 1;
        }
        proof {
            assert(consume_raw_spec(
                walkers_view(self.walkers@),
                trie_tokens(self.trie),
                toks_m,
                i as int,
            ) == walkers_view(self.walkers@));
        }
    }
}

/// The strings of a vocabulary list, in order.
pub open spec fn vocab_strings(v: Seq<(String, u32)>) -> Seq<String> {
    v.map_values(|p: (String, u32)| p.0)
}

/// The view of an acceptor reference.
pub open spec fn a_view(a: &Acceptor) -> crate::acceptor::AcceptorModel {
    crate::acceptor::acc_view(*a)
}

/// Two string lists with equal texts give equal non-empty text sets.
pub proof fn lemma_nonempty_texts_congruent(a: Seq<String>, b: Seq<String>)
    requires
        a.len() == b.len(),
        forall|k: int| 0 <= k < a.len() ==> (#[trigger] a[k])@ == b[k]@,
    ensures
        nonempty_texts(a) == nonempty_texts(b),
    decreases a.len(),
{
    if a.len() > 0 {
        lemma_nonempty_texts_congruent(a.drop_last(), b.drop_last());
        assert(nonempty_texts(a) =~= nonempty_texts(b));
    } else {
        assert(nonempty_texts(a) =~= nonempty_texts(b));
    }
}

/// A member of one walker's valid-prefix set is in the union.
pub proof fn lemma_prefixes_union_member(
    ws: Seq<WalkerModel>,
    vset: Set<Seq<char>>,
    i: int,
    tok: Seq<char>,
)
    requires
        0 <= i < ws.len(),
        valid_prefixes_spec(ws[i], vset).contains(tok),
    ensures
        prefixes_union(ws, vset, 0).contains(tok),
{
    lemma_prefixes_union_member_from(ws, vset, 0, i, tok);
}

/// A member of one walker's valid-prefix set is in the union from `j` on.
pub proof fn lemma_prefixes_union_member_from(
    ws: Seq<WalkerModel>,
    vset: Set<Seq<char>>,
    j: int,
    i: int,
    tok: Seq<char>,
)
    requires
        0 <= j <= i < ws.len(),
        valid_prefixes_spec(ws[i], vset).contains(tok),
    ensures
        prefixes_union(ws, vset, j).contains(tok),
    decreases i - j,
{
    if j < i {
        lemma_prefixes_union_member_from(ws, vset, j + 1, i, tok);
    }
}

/// Every member of the union belongs to some walker's valid-prefix set.
pub proof fn lemma_prefixes_union_complete(ws: Seq<WalkerModel>, vset: Set<Seq<char>>)
    ensures
        forall|tok: Seq<char>|
            #[trigger] prefixes_union(ws, vset, 0).contains(tok) ==> exists|j: int|
                0 <= j < ws.len() && valid_prefixes_spec(ws[j], vset).contains(tok),
{
    lemma_prefixes_union_complete_from(ws, vset, 0);
}

/// Every member of the union from `i` on belongs to some walker's set.
pub proof fn lemma_prefixes_union_complete_from(
    ws: Seq<WalkerModel>,
    vset: Set<Seq<char>>,
    i: int,
)
    ensures
        forall|tok: Seq<char>|
            #[trigger] prefixes_union(ws, vset, i).contains(tok) ==> exists|j: int|
                i <= j < ws.len() && valid_prefixes_spec(ws[j], vset).contains(tok),
    decreases ws.len() - i,
{
    if 0 <= i < ws.len() {
        lemma_prefixes_union_complete_from(ws, vset, i + 1);
        assert forall|tok: Seq<char>|
            #[trigger] prefixes_union(ws, vset, i).contains(tok) implies exists|j: int|
            i <= j < ws.len() && valid_prefixes_spec(ws[j], vset).contains(tok) by {
            if valid_prefixes_spec(ws[i], vset).contains(tok) {
                assert(valid_prefixes_spec(ws[i], vset).contains(tok));
            } else {
                assert(prefixes_union(ws, vset, i + 1).contains(tok));
            }
        }
    }
}

/// A trie built over the reversed forms of `texts` holds the reversed set.
pub proof fn lemma_rev_trie(reversed: Seq<String>, texts: Seq<String>)
    requires
        reversed.len() == texts.len(),
        forall|y: int| 0 <= y < texts.len() ==> (#[trigger] texts[y])@.len() > 0,
        forall|y: int| 0 <= y < reversed.len() ==> (#[trigger] reversed[y])@ == texts[y]@.reverse(),
    ensures
        nonempty_texts(reversed) =~= rev_set(texts_set(texts)),
{
    assert forall|t: Seq<char>| nonempty_texts(reversed).contains(t) implies rev_set(
        texts_set(texts),
    ).contains(t) by {
        lemma_nonempty_texts_members(reversed);
        let y = choose|y: int| 0 <= y < reversed.len() && reversed[y]@ == t;
        assert(texts[y]@ == t.reverse()) by {
            assert(t == texts[y]@.reverse());
            assert(texts[y]@.reverse().reverse() =~= texts[y]@);
        }
    }
    assert forall|t: Seq<char>| rev_set(texts_set(texts)).contains(t) implies nonempty_texts(
        reversed,
    ).contains(t) by {
        let y = choose|y: int| 0 <= y < texts.len() && texts[y]@ == t.reverse();
        assert(reversed[y]@ == t) by {
            assert(reversed[y]@ == texts[y]@.reverse());
            assert(t.reverse().reverse() =~= t);
        }
        assert(reversed[y]@.len() > 0);
        lemma_nonempty_texts_members(reversed);
    }
}

/// The members of the non-empty text set are exactly the non-empty texts.
pub proof fn lemma_nonempty_texts_members(s: Seq<String>)
    ensures
        forall|t: Seq<char>|
            #[trigger] nonempty_texts(s).contains(t) <==> (t.len() > 0 && exists|y: int|
                0 <= y < s.len() && s[y]@ == t),
    decreases s.len(),
{
    if s.len() > 0 {
        lemma_nonempty_texts_members(s.drop_last());
        assert forall|t: Seq<char>|
            #[trigger] nonempty_texts(s).contains(t) implies (t.len() > 0 && exists|y: int|
            0 <= y < s.len() && s[y]@ == t) by {
            if t == s.last()@ && s.last()@.len() > 0 {
                assert(s[s.len() - 1]@ == t);
            } else {
                assert(nonempty_texts(s.drop_last()).contains(t));
                let y = choose|y: int| 0 <= y < s.drop_last().len() && s.drop_last()[y]@ == t;
                assert(s[y]@ == t);
            }
        }
        assert forall|t: Seq<char>|
            (t.len() > 0 && exists|y: int| 0 <= y < s.len() && s[y]@ == t) implies #[trigger]
        nonempty_texts(s).contains(t) by {
            let y = choose|y: int| 0 <= y < s.len() && s[y]@ == t;
            if y == s.len() - 1 {
                assert(t == s.last()@);
                assert(s.last()@.len() > 0);
                assert(nonempty_texts(s) == nonempty_texts(s.drop_last()).insert(s.last()@));
            } else {
                assert(s.drop_last()[y]@ == t);
                assert(nonempty_texts(s.drop_last()).contains(t));
            }
        }
    }
}

/// The text of the first vocabulary entry with the given id.
pub fn lookup_token_of_id(v: &Vec<(String, u32)>, id: u32) -> (r: Option<String>)
    ensures
        crate::text::opt_text(r) == token_of_id(vocab_view(v@), id, 0),
{
    proof {
        lemma_vocab_view_full(v@);
    }
    let mut i: usize = 0;
    while i < v.len()
        invariant
            0 <= i <= v@.len(),
            vocab_view(v@).len() == v@.len(),
            forall|k: int|
                0 <= k < v@.len() ==> #[trigger] vocab_view(v@)[k] == (v@[k].0@, v@[k].1),
            token_of_id(vocab_view(v@), id, 0) == token_of_id(vocab_view(v@), id, i as int),
        decreases v@.len() - i,
    {
        if v[i].1 == id {
            return Some(v[i].0.clone());
        }
        i = i + 1;
    }
    None
}

/// The id of the first vocabulary entry with the given text.
pub fn lookup_id_of_token(v: &Vec<(String, u32)>, tok: &str) -> (r: Option<u32>)
    ensures
        r == id_of_token(vocab_view(v@), tok@, 0),
{
    proof {
        lemma_vocab_view_full(v@);
    }
    let mut i: usize = 0;
    while i < v.len()
        invariant
            0 <= i <= v@.len(),
            vocab_view(v@).len() == v@.len(),
            forall|k: int|
                0 <= k < v@.len() ==> #[trigger] vocab_view(v@)[k] == (v@[k].0@, v@[k].1),
            id_of_token(vocab_view(v@), tok@, 0) == id_of_token(vocab_view(v@), tok@, i as int),
        decreases v@.len() - i,
    {
        if crate::text::str_eq(v[i].0.as_str(), tok) {
            return Some(v[i].1);
        }
        i = i + 1;
    }
    None
}

/// The deduplicated group of result walkers reported under `text`.
pub fn collect_group(results: &Vec<(String, Walker)>, text: &str) -> (r: Vec<Walker>)
    ensures
        walkers_view(r@) == group_spec(pairs_view(results@), text@),
{
    proof {
        lemma_pairs_view_full(results@);
    }
    let ghost rs_m = pairs_view(results@);
    let mut r: Vec<Walker> = Vec::new();
    let mut i: usize = 0;
    proof {
        lemma_walkers_view_full(r@);
        assert(walkers_view(r@) =~= Seq::<WalkerModel>::empty());
    }
    while i < results.len()
        invariant
            0 <= i <= results@.len(),
            rs_m.len() == results@.len(),
            forall|k: int|
                0 <= k < results@.len() ==> #[trigger] pairs_view(results@)[k] == (
                results@[k].0@,
                walker_view(results@[k].1),
                ),
            pairs_view(results@) == rs_m,
            group_spec(rs_m, text@) == group_from(rs_m, text@, i as int, walkers_view(r@)),
        decreases results@.len() - i,
    {
        let ghost r_prev = r@;
        if crate::text::str_eq(results[i].0.as_str(), text) {
            let mut dup = false;
            let mut j: usize = 0;
            while j < r.len()
                invariant
                    0 <= j <= r@.len(),
                    0 <= i < results@.len(),
                    r@ == r_prev,
                    dup ==> contains_eqv(walkers_view(r@), walker_view(results@[i as int].1)),
                    !dup ==> forall|k: int|
                        0 <= k < j ==> !walker_matches(
                            walkers_view(r@)[k],
                            walker_view(results@[i as int].1),
                        ),
                decreases r@.len() - j,
            {
                if r[j].equivalent(&results[i].1) {
                    proof {
                        lemma_walkers_view_full(r@);
                        assert(walker_matches(
                            walkers_view(r@)[j as int],
                            walker_view(results@[i as int].1),
                        ));
                        assert(contains_eqv(walkers_view(r@), walker_view(results@[i as int].1)));
                    }
                    dup = true;
                    j = r.len();
                } else {
                    proof {
                        lemma_walkers_view_full(r@);
                    }
                    j = j + 1;
                }
            }
            if !dup {
                proof {
                    lemma_walkers_view_full(r@);
                    assert(!contains_eqv(walkers_view(r@), walker_view(results@[i as int].1)));
                }
                r.push(results[i].1.deep_clone());
                proof {
                    lemma_walkers_view_full(r@);
                    lemma_walkers_view_full(r_prev);
                    assert(walkers_view(r@) =~= walkers_view(r_prev).push(
                        walker_view(results@[i as int].1),
                    ));
                }
            }
        }
        i = i + 1;
    }
    proof {
        assert(group_from(rs_m, text@, rs_m.len() as int, walkers_view(r@)) == walkers_view(r@));
    }
    r
}

/// A non-empty group means some pair carries the text, and back.
pub proof fn lemma_group_nonempty_has_text(rs: Seq<(Seq<char>, WalkerModel)>, t: Seq<char>)
    ensures
        group_spec(rs, t).len() > 0 ==> has_text(rs, t),
{
    lemma_group_from_nonempty(rs, t, 0, Seq::empty());
}

/// An empty group means no pair carries the text.
pub proof fn lemma_group_empty_no_text(rs: Seq<(Seq<char>, WalkerModel)>, t: Seq<char>)
    ensures
        group_spec(rs, t).len() == 0 ==> !has_text(rs, t),
{
    lemma_group_from_all(rs, t, 0, Seq::empty());
}

/// The group accumulator only grows, and grows past any matching pair.
pub proof fn lemma_group_from_nonempty(
    rs: Seq<(Seq<char>, WalkerModel)>,
    t: Seq<char>,
    i: int,
    acc: Seq<WalkerModel>,
)
    requires
        0 <= i <= rs.len(),
    ensures
        group_from(rs, t, i, acc).len() >= acc.len(),
        group_from(rs, t, i, acc).len() > 0 ==> acc.len() > 0 || exists|k: int|
            i <= k < rs.len() && rs[k].0 == t,
    decreases rs.len() - i,
{
    if i < rs.len() {
        if rs[i].0 == t && !contains_eqv(acc, rs[i].1) {
            lemma_group_from_nonempty(rs, t, i + 1, acc.push(rs[i].1));
        } else {
            lemma_group_from_nonempty(rs, t, i + 1, acc);
        }
    }
}

/// A matching pair forces a non-empty group.
pub proof fn lemma_group_from_all(
    rs: Seq<(Seq<char>, WalkerModel)>,
    t: Seq<char>,
    i: int,
    acc: Seq<WalkerModel>,
)
    requires
        0 <= i <= rs.len(),
    ensures
        (exists|k: int| i <= k < rs.len() && rs[k].0 == t) || acc.len() > 0 ==> group_from(
            rs,
            t,
            i,
            acc,
        ).len() > 0,
    decreases rs.len() - i,
{
    if i < rs.len() {
        if rs[i].0 == t && !contains_eqv(acc, rs[i].1) {
            lemma_group_from_all(rs, t, i + 1, acc.push(rs[i].1));
        } else {
            lemma_group_from_all(rs, t, i + 1, acc);
            if rs[i].0 == t {
                assert(contains_eqv(acc, rs[i].1));
                assert(acc.len() > 0);
            }
        }
    }
}

/// The longest valid partial match among the results, as
/// `longest_partial_from` states it.
pub fn find_longest_partial(
    results: &Vec<(String, Walker)>,
    token: &str,
    vocab: &Vec<(String, u32)>,
) -> (r: (String, u32))
    ensures
        (r.0@, r.1) == longest_partial_from(
            pairs_view(results@),
            token@,
            vocab_view(vocab@),
            0,
            (Seq::<char>::empty(), 0),
        ),
{
    proof {
        lemma_pairs_view_full(results@);
    }
    let ghost rs_m = pairs_view(results@);
    let mut best: (String, u32) = (String::new(), 0);
    let mut i: usize = 0;
    while i < results.len()
        invariant
            0 <= i <= results@.len(),
            rs_m.len() == results@.len(),
            forall|k: int|
                0 <= k < results@.len() ==> #[trigger] pairs_view(results@)[k] == (
                results@[k].0@,
                walker_view(results@[k].1),
                ),
            pairs_view(results@) == rs_m,
            longest_partial_from(rs_m, token@, vocab_view(vocab@), 0, (Seq::<char>::empty(), 0))
                == longest_partial_from(
                rs_m,
                token@,
                vocab_view(vocab@),
                i as int,
                (best.0@, best.1),
            ),
        decreases results@.len() - i,
    {
        let t = &results[i].0;
        let t_chars = crate::text::chars_of(t.as_str());
        let best_chars = crate::text::chars_of(best.0.as_str());
        if !crate::text::str_eq(t.as_str(), token) && t_chars.len() > best_chars.len() {
            let id = lookup_id_of_token(vocab, t.as_str());
            match id {
                Some(vid) => {
                    best = (t.clone(), vid);
                },
                None => {},
            }
        }
        i = i + 1;
    }
    best
}

/// The walkers of the pairs whose text is exactly `text`, in order.
pub fn collect_exact(results: &Vec<(String, Walker)>, text: &str) -> (r: Vec<Walker>)
    ensures
        walkers_view(r@) == exact_matches(pairs_view(results@), text@),
{
    proof {
        lemma_pairs_view_full(results@);
    }
    let ghost rs_m = pairs_view(results@);
    let mut r: Vec<Walker> = Vec::new();
    let mut i: usize = 0;
    proof {
        lemma_walkers_view_full(r@);
        lemma_exact_matches_split(rs_m, 0, text@);
        assert(walkers_view(r@) =~= Seq::<WalkerModel>::empty());
    }
    while i < results.len()
        invariant
            0 <= i <= results@.len(),
            rs_m.len() == results@.len(),
            forall|k: int|
                0 <= k < results@.len() ==> #[trigger] pairs_view(results@)[k] == (
                results@[k].0@,
                walker_view(results@[k].1),
                ),
            pairs_view(results@) == rs_m,
            exact_matches(rs_m, text@) =~= walkers_view(r@) + exact_matches(
                rs_m.skip(i as int),
                text@,
            ),
        decreases results@.len() - i,
    {
        let ghost iprev = i as int;
        let ghost r_prev = r@;
        if crate::text::str_eq(results[i].0.as_str(), text) {
            r.push(results[i].1.deep_clone());
        }
        i = i + 1;
        proof {
            lemma_walkers_view_full(r@);
            lemma_walkers_view_full(r_prev);
            lemma_exact_matches_split(rs_m, iprev, text@);
            assert(exact_matches(rs_m, text@) =~= walkers_view(r@) + exact_matches(
                rs_m.skip(i as int),
                text@,
            ));
        }
    }
    proof {
        assert(rs_m.skip(rs_m.len() as int) =~= Seq::<(Seq<char>, WalkerModel)>::empty());
        assert(walkers_view(r@) =~= exact_matches(rs_m, text@));
    }
    r
}

/// Unfolds the exact-match filter at index `i`.
pub proof fn lemma_exact_matches_split(rs: Seq<(Seq<char>, WalkerModel)>, i: int, t: Seq<char>)
    requires
        0 <= i <= rs.len(),
    ensures
        i < rs.len() && rs[i].0 == t ==> exact_matches(rs.skip(i), t) == seq![rs[i].1]
            + exact_matches(rs.skip(i + 1), t),
        i < rs.len() && rs[i].0 != t ==> exact_matches(rs.skip(i), t) == exact_matches(
            rs.skip(i + 1),
            t,
        ),
        i == rs.len() ==> exact_matches(rs.skip(i), t) == Seq::<WalkerModel>::empty(),
{
    if i < rs.len() {
        assert(rs.skip(i)[0] == rs[i]);
        assert(rs.skip(i).drop_first() =~= rs.skip(i + 1));
    } else {
        assert(rs.skip(i).len() == 0);
    }
}

} // verus!
