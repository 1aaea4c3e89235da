//! The public operations on whole automata: bounded word generation,
//! word matching with path reconstruction, and the union and intersection
//! of two automata's bounded languages.

use vstd::prelude::*;
use crate::model::{Automaton, ConfigError, initial_of};
use crate::lang::{
    init_caps, accepts_from, path_ok, has_word, distinct_words, in_lang, is_generation,
    is_union_generation, lemma_init_caps_wf,
};
use crate::generator::{Generator, build_remaining, intersect_words};

verus! {

/// Every distinct word of length at most `bound` that the automaton
/// accepts from `start_index` (under its edge capacities), each exactly
/// once. A zero bound and an out-of-range start are rejected before any
/// traversal.
pub fn generate(automaton: &Automaton, start_index: usize, bound: usize) -> (r: Result<
    Vec<String>,
    ConfigError,
>)
    requires
        automaton.wf(),
    ensures
        match r {
            Ok(ws) => bound > 0 && (start_index as int) < automaton.states@.len()
                && is_generation(
                automaton.states@,
                automaton.matrix@,
                start_index as int,
                bound as nat,
                ws@,
            ),
            Err(e) => {
                &&& (e == ConfigError::InvalidBound <==> bound == 0)
                &&& (e == ConfigError::StartOutOfRange <==> (bound > 0 && (start_index as int)
                    >= automaton.states@.len()))
                &&& (bound == 0 || (start_index as int) >= automaton.states@.len())
            },
        },
{
    if bound == 0 {
        return Err(ConfigError::InvalidBound);
    }
    if start_index >= automaton.states.len() {
        return Err(ConfigError::StartOutOfRange);
    }
    let g = Generator::new(&automaton.states);
    Ok(g.generate_words(&automaton.matrix, start_index, bound))
}

/// Whether the automaton accepts `word` from its initial state, together
/// with one accepting traversal's state sequence. When no traversal
/// matches, the returned path holds the initial state alone.
pub fn match_word(automaton: &Automaton, word: &str) -> (r: (bool, Vec<usize>))
    requires
        automaton.wf(),
    ensures
        r.0 == accepts_from(
            automaton.states@,
            automaton.matrix@,
            init_caps(automaton.matrix@),
            initial_of(automaton.states@),
            word@,
        ),
        r.1@.len() > 0 && r.1@[0] == initial_of(automaton.states@),
        r.0 ==> r.1@.len() == word@.len() + 1 && path_ok(
            automaton.states@,
            automaton.matrix@,
            init_caps(automaton.matrix@),
            r.1@,
            word@,
        ),
        !r.0 ==> r.1@.len() == 1,
{
    proof {
        lemma_init_caps_wf(automaton.states@, automaton.matrix@);
    }
    let init = automaton.initial_index();
    let remaining = build_remaining(&automaton.matrix);
    let mut path: Vec<usize> = Vec::new();
    path.push(init);
    let g = Generator::new(&automaton.states);
    let found = g.match_word_path(word, 0, init, &automaton.matrix, &remaining, &mut path);
    proof {
        assert(word@.skip(0) =~= word@);
        if found {
            assert(path@.skip(0) =~= path@);
        }
    }
    (found, path)
}

/// The words of both automata's bounded languages: first every word of
/// `automaton_a`, then every word of `automaton_b`, without
/// cross-deduplication — a word both accept appears twice.
pub fn union(automaton_a: &Automaton, automaton_b: &Automaton, bound: usize) -> (r: Result<
    Vec<String>,
    ConfigError,
>)
    requires
        automaton_a.wf(),
        automaton_b.wf(),
    ensures
        r is Ok <==> bound > 0,
        r is Err ==> r->Err_0 == ConfigError::InvalidBound,
        r is Ok ==> is_union_generation(
            automaton_a.states@,
            automaton_a.matrix@,
            initial_of(automaton_a.states@),
            automaton_b.states@,
            automaton_b.matrix@,
            initial_of(automaton_b.states@),
            bound as nat,
            (r->Ok_0)@,
        ),
{
    if bound == 0 {
        return Err(ConfigError::InvalidBound);
    }
    let init_a = automaton_a.initial_index();
    let init_b = automaton_b.initial_index();
    let g_a = Generator::new(&automaton_a.states);
    let mut ws = g_a.generate_words(&automaton_a.matrix, init_a, bound);
    let g_b = Generator::new(&automaton_b.states);
    let mut words_b = g_b.generate_words(&automaton_b.matrix, init_b, bound);
    let ghost g1 = ws@;
    let ghost g2 = words_b@;
    ws.append(&mut words_b);
    proof {
        let k = g1.len() as int;
        assert(ws@.take(k) =~= g1);
        assert(ws@.skip(k) =~= g2);
        assert(is_union_generation(
            automaton_a.states@,
            automaton_a.matrix@,
            initial_of(automaton_a.states@),
            automaton_b.states@,
            automaton_b.matrix@,
            initial_of(automaton_b.states@),
            bound as nat,
            ws@,
        )) by {
            assert(is_generation(
                automaton_a.states@,
                automaton_a.matrix@,
                initial_of(automaton_a.states@),
                bound as nat,
                ws@.take(k),
            ));
            assert(is_generation(
                automaton_b.states@,
                automaton_b.matrix@,
                initial_of(automaton_b.states@),
                bound as nat,
                ws@.skip(k),
            ));
        }
    }
    Ok(ws)
}

/// The distinct words of length at most `bound` that both automata
/// accept.
pub fn intersect(automaton_a: &Automaton, automaton_b: &Automaton, bound: usize) -> (r: Result<
    Vec<String>,
    ConfigError,
>)
    requires
        automaton_a.wf(),
        automaton_b.wf(),
    ensures
        match r {
            Ok(ws) => bound > 0 && distinct_words(ws@) && forall|w: Seq<char>|
                #![trigger has_word(ws@, w)]
                has_word(ws@, w) <==> (in_lang(
                    automaton_a.states@,
                    automaton_a.matrix@,
                    initial_of(automaton_a.states@),
                    w,
                    bound as nat,
                ) && in_lang(
                    automaton_b.states@,
                    automaton_b.matrix@,
                    initial_of(automaton_b.states@),
                    w,
                    bound as nat,
                )),
            Err(e) => e == ConfigError::InvalidBound && bound == 0,
        },
{
    if bound == 0 {
        return Err(ConfigError::InvalidBound);
    }
    let init_a = automaton_a.initial_index();
    let init_b = automaton_b.initial_index();
    let g_a = Generator::new(&automaton_a.states);
    let words_a = g_a.generate_words(&automaton_a.matrix, init_a, bound);
    let g_b = Generator::new(&automaton_b.states);
    let words_b = g_b.generate_words(&automaton_b.matrix, init_b, bound);
    Ok(intersect_words(&words_a, &words_b))
}

} // verus!
