//! The laws the library states about its traversal operations, proved
//! from the specification predicates that the operations' contracts use.

use vstd::prelude::*;
use vstd::seq_lib::lemma_multiset_commutative;
use crate::model::{State, Transition, Automaton, initial_of};
use crate::lang::{
    init_caps, accepts_from, accepts_via_edge, dec_at, path_ok, has_word, distinct_words, in_lang,
    is_generation, is_union_generation, lemma_accepts_from_edges,
};

verus! {

/// The words of a word list, as character sequences.
pub open spec fn word_views(ws: Seq<String>) -> Seq<Seq<char>> {
    ws.map_values(|s: String| s@)
}

/// Soundness of generation: every word of a generation is accepted from
/// its start state, and stays within the bound.
pub proof fn lemma_generate_sound(
    states: Seq<State>,
    m: Seq<Vec<Transition>>,
    s: int,
    bound: nat,
    ws: Seq<String>,
    w: Seq<char>,
)
    requires
        is_generation(states, m, s, bound, ws),
        has_word(ws, w),
    ensures
        accepts_from(states, m, init_caps(m), s, w),
        w.len() <= bound,
{
    assert(in_lang(states, m, s, w, bound));
}

/// Completeness up to the bound: every accepted word no longer than the
/// bound is in the generation.
pub proof fn lemma_generate_complete(
    states: Seq<State>,
    m: Seq<Vec<Transition>>,
    s: int,
    bound: nat,
    ws: Seq<String>,
    w: Seq<char>,
)
    requires
        is_generation(states, m, s, bound, ws),
        accepts_from(states, m, init_caps(m), s, w),
        w.len() <= bound,
    ensures
        has_word(ws, w),
{
    assert(in_lang(states, m, s, w, bound));
}

/// Soundness of matching: a path that spells a word to a terminal state
/// within the capacities witnesses that the word is accepted from the
/// path's first state.
pub proof fn lemma_path_ok_accepts(
    states: Seq<State>,
    m: Seq<Vec<Transition>>,
    caps: Seq<Seq<usize>>,
    p: Seq<usize>,
    w: Seq<char>,
)
    requires
        path_ok(states, m, caps, p, w),
    ensures
        accepts_from(states, m, caps, p[0] as int, w),
    decreases w.len(),
{
    if w.len() == 0 {
    } else {
        lemma_path_ok_accepts(
            states,
            m,
            dec_at(caps, p[0] as int, p[1] as int),
            p.drop_first(),
            w.drop_first(),
        );
        assert(p.drop_first()[0] == p[1]);
        assert(accepts_via_edge(states, m, caps, p[0] as int, p[1] as int, w));
        lemma_accepts_from_edges(states, m, caps, p[0] as int, w);
    }
}

/// The empty word is accepted exactly when the initial state is terminal.
pub proof fn lemma_empty_word(a: Automaton)
    requires
        a.wf(),
    ensures
        accepts_from(
            a.states@,
            a.matrix@,
            init_caps(a.matrix@),
            initial_of(a.states@),
            Seq::<char>::empty(),
        ) <==> a.states@[initial_of(a.states@)].is_terminal,
{
}

/// Intersection subset law: every word of an intersection is in both
/// generations.
pub proof fn lemma_intersect_subset(
    states_a: Seq<State>,
    m_a: Seq<Vec<Transition>>,
    s_a: int,
    states_b: Seq<State>,
    m_b: Seq<Vec<Transition>>,
    s_b: int,
    bound: nat,
    wi: Seq<String>,
    wa: Seq<String>,
    wb: Seq<String>,
)
    requires
        forall|w: Seq<char>|
            #![trigger has_word(wi, w)]
            has_word(wi, w) <==> (in_lang(states_a, m_a, s_a, w, bound) && in_lang(
                states_b,
                m_b,
                s_b,
                w,
                bound,
            )),
        is_generation(states_a, m_a, s_a, bound, wa),
        is_generation(states_b, m_b, s_b, bound, wb),
    ensures
        forall|w: Seq<char>| #[trigger] has_word(wi, w) ==> has_word(wa, w) && has_word(wb, w),
{
    assert forall|w: Seq<char>| #[trigger]
        has_word(wi, w) implies has_word(wa, w) && has_word(wb, w) by {
        assert(in_lang(states_a, m_a, s_a, w, bound));
        assert(in_lang(states_b, m_b, s_b, w, bound));
    }
}

/// Two duplicate-free lists of the same words hold one multiset of words.
pub proof fn lemma_distinct_same_words_multiset(ws1: Seq<String>, ws2: Seq<String>)
    requires
        distinct_words(ws1),
        distinct_words(ws2),
        forall|w: Seq<char>|
            #![trigger has_word(ws1, w)]
            #![trigger has_word(ws2, w)]
            has_word(ws1, w) <==> has_word(ws2, w),
    ensures
        word_views(ws1).to_multiset() == word_views(ws2).to_multiset(),
{
    broadcast use vstd::seq_lib::group_to_multiset_ensures;

    let v1 = word_views(ws1);
    let v2 = word_views(ws2);
    assert(v1.no_duplicates()) by {
        assert(forall|i: int, j: int|
            0 <= i < v1.len() && 0 <= j < v1.len() && i != j ==> #[trigger] v1[i] != #[trigger] v1[j]);
    }
    assert(v2.no_duplicates()) by {
        assert(forall|i: int, j: int|
            0 <= i < v2.len() && 0 <= j < v2.len() && i != j ==> #[trigger] v2[i] != #[trigger] v2[j]);
    }
    v1.lemma_multiset_has_no_duplicates();
    v2.lemma_multiset_has_no_duplicates();
    assert forall|x: Seq<char>| v1.to_multiset().count(x) == v2.to_multiset().count(x) by {
        assert(v1.contains(x) <==> has_word(ws1, x)) by {
            if v1.contains(x) {
                let i = choose|i: int| 0 <= i < v1.len() && v1[i] == x;
                assert(ws1[i]@ == x);
            }
            if has_word(ws1, x) {
                let i = choose|i: int| 0 <= i < ws1.len() && (#[trigger] ws1[i])@ == x;
                assert(v1[i] == x);
            }
        }
        assert(v2.contains(x) <==> has_word(ws2, x)) by {
            if v2.contains(x) {
                let i = choose|i: int| 0 <= i < v2.len() && v2[i] == x;
                assert(ws2[i]@ == x);
            }
            if has_word(ws2, x) {
                let i = choose|i: int| 0 <= i < ws2.len() && (#[trigger] ws2[i])@ == x;
                assert(v2[i] == x);
            }
        }
        if v1.contains(x) {
            assert(v1.to_multiset().count(x) == 1);
            assert(v2.to_multiset().count(x) == 1);
        } else {
            assert(v1.to_multiset().count(x) == 0);
            assert(v2.to_multiset().count(x) == 0);
        }
    }
    assert(v1.to_multiset() =~= v2.to_multiset()) by {
        broadcast use vstd::multiset::group_multiset_axioms;

    }
}

/// Union multiset law: a union of two automata holds, as a multiset,
/// exactly the words of a generation of the first and a generation of the
/// second together.
pub proof fn lemma_union_multiset(
    states_a: Seq<State>,
    m_a: Seq<Vec<Transition>>,
    s_a: int,
    states_b: Seq<State>,
    m_b: Seq<Vec<Transition>>,
    s_b: int,
    bound: nat,
    wu: Seq<String>,
    wa: Seq<String>,
    wb: Seq<String>,
)
    requires
        is_union_generation(states_a, m_a, s_a, states_b, m_b, s_b, bound, wu),
        is_generation(states_a, m_a, s_a, bound, wa),
        is_generation(states_b, m_b, s_b, bound, wb),
    ensures
        word_views(wu).to_multiset() == word_views(wa).to_multiset().add(
            word_views(wb).to_multiset(),
        ),
{
    let k = choose|k: int|
        0 <= k <= wu.len() && is_generation(states_a, m_a, s_a, bound, #[trigger] wu.take(k))
            && is_generation(states_b, m_b, s_b, bound, wu.skip(k));
    let u1 = wu.take(k);
    let u2 = wu.skip(k);
    assert forall|w: Seq<char>| #[trigger] has_word(u1, w) <==> has_word(wa, w) by {
        assert(has_word(u1, w) <==> in_lang(states_a, m_a, s_a, w, bound));
        assert(has_word(wa, w) <==> in_lang(states_a, m_a, s_a, w, bound));
    }
    assert forall|w: Seq<char>| #[trigger] has_word(u2, w) <==> has_word(wb, w) by {
        assert(has_word(u2, w) <==> in_lang(states_b, m_b, s_b, w, bound));
        assert(has_word(wb, w) <==> in_lang(states_b, m_b, s_b, w, bound));
    }
    lemma_distinct_same_words_multiset(u1, wa);
    lemma_distinct_same_words_multiset(u2, wb);
    assert(wu =~= u1 + u2);
    assert(word_views(wu) =~= word_views(u1) + word_views(u2));
    lemma_multiset_commutative(word_views(u1), word_views(u2));
}

} // verus!
