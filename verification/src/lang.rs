//! The language of an automaton, as specification predicates.
//!
//! A word is accepted from a state when some traversal spells it along
//! labelled edges and ends at a terminal state, using each edge at most as
//! often as its remaining capacity allows. The capacities are threaded
//! through the predicates as a square table of remaining counts, so sibling
//! branches of a traversal never observe each other's consumption.

use vstd::prelude::*;
use crate::model::{State, Transition, table_wf};

verus! {

/// The label of the edge from state `i` to state `j`, or `None`.
pub open spec fn lbl(m: Seq<Vec<Transition>>, i: int, j: int) -> Option<char> {
    m[i]@[j].label
}

/// The remaining-capacity tables: one count per matrix entry.
pub open spec fn caps_wf(caps: Seq<Seq<usize>>, n: nat) -> bool {
    caps.len() == n && forall|i: int| 0 <= i < n ==> (#[trigger] caps[i]).len() == n
}

/// The fresh capacity table of a matrix: each edge may still be used
/// `max_transit` times.
pub open spec fn init_caps(m: Seq<Vec<Transition>>) -> Seq<Seq<usize>> {
    Seq::new(m.len(), |i: int| Seq::new(m[i]@.len(), |j: int| m[i]@[j].max_transit))
}

/// The view of an executable capacity table.
pub open spec fn caps_of(r: Seq<Vec<usize>>) -> Seq<Seq<usize>> {
    r.map_values(|row: Vec<usize>| row@)
}

/// One use of the edge from `i` to `j` taken out of the table.
pub open spec fn dec_at(caps: Seq<Seq<usize>>, i: int, j: int) -> Seq<Seq<usize>> {
    caps.update(i, caps[i].update(j, (caps[i][j] - 1) as usize))
}

/// The word `w` is accepted from state `s` under the remaining capacities:
/// an empty word exactly when `s` is terminal, a longer one when some
/// eligible edge consumes its first character.
pub open spec fn accepts_from(
    states: Seq<State>,
    m: Seq<Vec<Transition>>,
    caps: Seq<Seq<usize>>,
    s: int,
    w: Seq<char>,
) -> bool
    decreases w.len(),
{
    if w.len() == 0 {
        states[s].is_terminal
    } else {
        exists|j: int|
            {
                &&& 0 <= j < states.len()
                &&& lbl(m, s, j) == Some(w[0])
                &&& caps[s][j] > 0
                &&& accepts_from(states, m, dec_at(caps, s, j), j, w.drop_first())
            }
    }
}

/// The word `w` is accepted from `s` and its first step is the edge to `j`.
pub open spec fn accepts_via_edge(
    states: Seq<State>,
    m: Seq<Vec<Transition>>,
    caps: Seq<Seq<usize>>,
    s: int,
    j: int,
    w: Seq<char>,
) -> bool {
    &&& w.len() > 0
    &&& 0 <= j < states.len()
    &&& lbl(m, s, j) == Some(w[0])
    &&& caps[s][j] > 0
    &&& accepts_from(states, m, dec_at(caps, s, j), j, w.drop_first())
}

/// Unfolding of `accepts_from` on a non-empty word: acceptance is the
/// existence of an eligible first edge.
pub proof fn lemma_accepts_from_edges(
    states: Seq<State>,
    m: Seq<Vec<Transition>>,
    caps: Seq<Seq<usize>>,
    s: int,
    w: Seq<char>,
)
    requires
        w.len() > 0,
    ensures
        accepts_from(states, m, caps, s, w) <==> exists|j: int|
            accepts_via_edge(states, m, caps, s, j, w),
{
    if accepts_from(states, m, caps, s, w) {
        let j = choose|j: int|
            {
                &&& 0 <= j < states.len()
                &&& lbl(m, s, j) == Some(w[0])
                &&& caps[s][j] > 0
                &&& accepts_from(states, m, dec_at(caps, s, j), j, w.drop_first())
            };
        assert(accepts_via_edge(states, m, caps, s, j, w));
    }
    if exists|j: int| accepts_via_edge(states, m, caps, s, j, w) {
        let j = choose|j: int| accepts_via_edge(states, m, caps, s, j, w);
        assert({
            &&& 0 <= j < states.len()
            &&& lbl(m, s, j) == Some(w[0])
            &&& caps[s][j] > 0
            &&& accepts_from(states, m, dec_at(caps, s, j), j, w.drop_first())
        });
    }
}

/// The state sequence `p` spells `w` from its first state to a terminal
/// state, consuming one capacity unit per step.
pub open spec fn path_ok(
    states: Seq<State>,
    m: Seq<Vec<Transition>>,
    caps: Seq<Seq<usize>>,
    p: Seq<usize>,
    w: Seq<char>,
) -> bool
    decreases w.len(),
{
    if w.len() == 0 {
        p.len() == 1 && p[0] < states.len() && states[p[0] as int].is_terminal
    } else {
        &&& p.len() == w.len() + 1
        &&& p[0] < states.len()
        &&& p[1] < states.len()
        &&& lbl(m, p[0] as int, p[1] as int) == Some(w[0])
        &&& caps[p[0] as int][p[1] as int] > 0
        &&& path_ok(
            states,
            m,
            dec_at(caps, p[0] as int, p[1] as int),
            p.drop_first(),
            w.drop_first(),
        )
    }
}

/// A word list holds `w`.
pub open spec fn has_word(ws: Seq<String>, w: Seq<char>) -> bool {
    exists|i: int| 0 <= i < ws.len() && (#[trigger] ws[i])@ == w
}

/// No word occurs twice in the list.
pub open spec fn distinct_words(ws: Seq<String>) -> bool {
    forall|i: int, j: int| 0 <= i < j < ws.len() ==> (#[trigger] ws[i])@ != (#[trigger] ws[j])@
}

/// The word `w` belongs to the bounded language explored from `s`: it is
/// accepted under fresh capacities and no longer than `bound`.
pub open spec fn in_lang(
    states: Seq<State>,
    m: Seq<Vec<Transition>>,
    s: int,
    w: Seq<char>,
    bound: nat,
) -> bool {
    accepts_from(states, m, init_caps(m), s, w) && w.len() <= bound
}

/// The word list is exactly the bounded language explored from `s`,
/// without duplicates and in some order.
pub open spec fn is_generation(
    states: Seq<State>,
    m: Seq<Vec<Transition>>,
    s: int,
    bound: nat,
    ws: Seq<String>,
) -> bool {
    &&& distinct_words(ws)
    &&& forall|w: Seq<char>|
        #![trigger has_word(ws, w)]
        #![trigger in_lang(states, m, s, w, bound)]
        has_word(ws, w) <==> in_lang(states, m, s, w, bound)
}

/// The word list splits into a generation of the first table followed by
/// a generation of the second: concatenation semantics, with no
/// deduplication across the two parts.
pub open spec fn is_union_generation(
    states_a: Seq<State>,
    m_a: Seq<Vec<Transition>>,
    s_a: int,
    states_b: Seq<State>,
    m_b: Seq<Vec<Transition>>,
    s_b: int,
    bound: nat,
    ws: Seq<String>,
) -> bool {
    exists|k: int|
        0 <= k <= ws.len() && is_generation(states_a, m_a, s_a, bound, #[trigger] ws.take(k))
            && is_generation(states_b, m_b, s_b, bound, ws.skip(k))
}

/// Appending one word adds exactly that word to the membership.
pub proof fn lemma_has_word_push(ws: Seq<String>, x: String, w: Seq<char>)
    ensures
        has_word(ws.push(x), w) <==> (has_word(ws, w) || x@ == w),
{
    if has_word(ws.push(x), w) {
        let i = choose|i: int| 0 <= i < ws.push(x).len() && (#[trigger] ws.push(x)[i])@ == w;
        if i < ws.len() {
            assert(ws[i]@ == w);
        }
    }
    if has_word(ws, w) {
        let i = choose|i: int| 0 <= i < ws.len() && (#[trigger] ws[i])@ == w;
        assert(ws.push(x)[i]@ == w);
    }
    if x@ == w {
        assert(ws.push(x)[ws.len() as int]@ == w);
    }
}

/// Appending a word not yet present keeps the list duplicate-free.
pub proof fn lemma_distinct_push(ws: Seq<String>, x: String)
    requires
        distinct_words(ws),
        !has_word(ws, x@),
    ensures
        distinct_words(ws.push(x)),
{
    assert forall|i: int, k: int| 0 <= i < k < ws.push(x).len() implies (ws.push(x)[i])@ != (
    ws.push(x)[k])@ by {
        if k < ws.len() {
            assert(ws.push(x)[i] == ws[i] && ws.push(x)[k] == ws[k]);
        } else {
            assert(ws.push(x)[i] == ws[i]);
            if ws[i]@ == x@ {
                assert(has_word(ws, x@));
            }
        }
    }
}

/// A fresh capacity table of a square matrix is itself square.
pub proof fn lemma_init_caps_wf(states: Seq<State>, m: Seq<Vec<Transition>>)
    requires
        table_wf(states, m),
    ensures
        caps_wf(init_caps(m), states.len()),
{
    assert(forall|i: int| 0 <= i < m.len() ==> (#[trigger] init_caps(m)[i]).len() == m[i]@.len());
}

/// A word of the residual language behind the prefix `cur`: it extends
/// `cur`, stays within `bound`, and its remainder is accepted from `s`
/// under the remaining capacities.
pub open spec fn gen_ext(
    states: Seq<State>,
    m: Seq<Vec<Transition>>,
    caps: Seq<Seq<usize>>,
    s: int,
    cur: Seq<char>,
    bound: nat,
    w: Seq<char>,
) -> bool {
    &&& cur.len() <= w.len() <= bound
    &&& w.take(cur.len() as int) == cur
    &&& accepts_from(states, m, caps, s, w.skip(cur.len() as int))
}

/// A word of the residual language behind `cur` whose first step is one of
/// the edges scanned so far: those from `s` to a destination below `jmax`.
pub open spec fn gen_ext_upto(
    states: Seq<State>,
    m: Seq<Vec<Transition>>,
    caps: Seq<Seq<usize>>,
    s: int,
    cur: Seq<char>,
    bound: nat,
    jmax: int,
    w: Seq<char>,
) -> bool {
    &&& cur.len() < w.len() <= bound
    &&& w.take(cur.len() as int) == cur
    &&& exists|j: int| 0 <= j < jmax && accepts_via_edge(states, m, caps, s, j, w.skip(cur.len() as int))
}

/// Once every edge out of `s` has been scanned, the residual language
/// behind `cur` is the terminal word `cur` itself plus the words that leave
/// through some edge.
pub proof fn lemma_gen_ext_scan_complete(
    states: Seq<State>,
    m: Seq<Vec<Transition>>,
    caps: Seq<Seq<usize>>,
    s: int,
    cur: Seq<char>,
    bound: nat,
    w: Seq<char>,
)
    requires
        cur.len() <= bound,
        0 <= s < states.len(),
    ensures
        gen_ext(states, m, caps, s, cur, bound, w) <==> ((states[s].is_terminal && w == cur)
            || gen_ext_upto(states, m, caps, s, cur, bound, states.len() as int, w)),
{
    let cl = cur.len() as int;
    if gen_ext(states, m, caps, s, cur, bound, w) {
        if w.len() == cur.len() {
            assert(w =~= cur);
            assert(w.skip(cl) =~= Seq::<char>::empty());
        } else {
            let suf = w.skip(cl);
            assert(suf.len() > 0);
            lemma_accepts_from_edges(states, m, caps, s, suf);
            let j = choose|j: int| accepts_via_edge(states, m, caps, s, j, suf);
            assert(0 <= j < states.len() && accepts_via_edge(states, m, caps, s, j, suf));
        }
    }
    if states[s].is_terminal && w == cur {
        assert(w.take(cl) =~= cur);
        assert(w.skip(cl) =~= Seq::<char>::empty());
        assert(gen_ext(states, m, caps, s, cur, bound, w));
    }
    if gen_ext_upto(states, m, caps, s, cur, bound, states.len() as int, w) {
        let suf = w.skip(cl);
        lemma_accepts_from_edges(states, m, caps, s, suf);
        assert(gen_ext(states, m, caps, s, cur, bound, w));
    }
}

/// Taking the eligible edge from `s` to `j` labelled `c` turns the
/// residual language behind `cur` under the old capacities into the one
/// behind `cur + c` under the decremented capacities.
pub proof fn lemma_gen_ext_step(
    states: Seq<State>,
    m: Seq<Vec<Transition>>,
    caps: Seq<Seq<usize>>,
    s: int,
    j: int,
    c: char,
    cur: Seq<char>,
    bound: nat,
    w: Seq<char>,
)
    requires
        0 <= s < states.len(),
        0 <= j < states.len(),
        lbl(m, s, j) == Some(c),
        caps[s][j] > 0,
        cur.len() < bound,
    ensures
        gen_ext(states, m, dec_at(caps, s, j), j, cur.push(c), bound, w) <==> (cur.len() < w.len()
            <= bound && w.take(cur.len() as int) == cur && accepts_via_edge(
            states,
            m,
            caps,
            s,
            j,
            w.skip(cur.len() as int),
        )),
{
    let cl = cur.len() as int;
    let cur2 = cur.push(c);
    if gen_ext(states, m, dec_at(caps, s, j), j, cur2, bound, w) {
        assert(w.take(cl + 1) == cur2);
        assert(w[cl] == cur2[cl]);
        assert(w.take(cl) =~= cur) by {
            assert(forall|i: int|
                0 <= i < cl ==> w.take(cl)[i] == w.take(cl + 1)[i] && cur2[i] == cur[i]);
        }
        let suf = w.skip(cl);
        assert(suf[0] == w[cl]);
        assert(suf.drop_first() =~= w.skip(cl + 1));
        assert(accepts_via_edge(states, m, caps, s, j, suf));
    }
    if cur.len() < w.len() <= bound && w.take(cl) == cur && accepts_via_edge(
        states,
        m,
        caps,
        s,
        j,
        w.skip(cl),
    ) {
        let suf = w.skip(cl);
        assert(suf[0] == w[cl]);
        assert(Some(suf[0]) == Some(c));
        assert(w.take(cl + 1) =~= cur2) by {
            assert(forall|i: int| 0 <= i < cl ==> w.take(cl + 1)[i] == w.take(cl)[i]);
            assert(w.take(cl + 1)[cl] == w[cl] == c);
        }
        assert(w.skip(cl + 1) =~= suf.drop_first());
        assert(gen_ext(states, m, dec_at(caps, s, j), j, cur2, bound, w));
    }
}

/// Behind the empty prefix the residual language is the bounded language
/// itself.
pub proof fn lemma_gen_ext_empty(
    states: Seq<State>,
    m: Seq<Vec<Transition>>,
    caps: Seq<Seq<usize>>,
    s: int,
    bound: nat,
    w: Seq<char>,
)
    ensures
        gen_ext(states, m, caps, s, Seq::empty(), bound, w) <==> (accepts_from(
            states,
            m,
            caps,
            s,
            w,
        ) && w.len() <= bound),
{
    assert(w.skip(0) =~= w);
    assert(w.take(0) =~= Seq::<char>::empty());
}

} // verus!
