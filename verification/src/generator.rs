//! The traversal engine: bounded word enumeration and word matching over
//! one automaton's states and transition matrix.

use vstd::prelude::*;
use crate::model::{State, Transition, states_wf, table_wf, initial_of, find_initial};
use crate::lang::{
    lbl, caps_wf, init_caps, caps_of, dec_at, accepts_from, accepts_via_edge, path_ok, has_word,
    distinct_words, in_lang, is_generation, gen_ext, gen_ext_upto, lemma_accepts_from_edges,
    lemma_gen_ext_scan_complete, lemma_gen_ext_step, lemma_gen_ext_empty, lemma_has_word_push,
    lemma_distinct_push, lemma_init_caps_wf, is_union_generation,
};

verus! {

/// Relies on String::push: it appends the one character to the end of the
/// string and changes nothing else.
#[verifier::external_body]
fn push_char(s: &mut String, c: char)
    ensures
        final(s)@ == old(s)@.push(c),
{
    s.push(c);
}

/// Whether the word list already holds this word.
fn contains_str(words: &Vec<String>, w: &String) -> (r: bool)
    ensures
        r == has_word(words@, w@),
{
    let n = words.len();
    let mut i: usize = 0;
    while i < n
        invariant
            n == words@.len(),
            i <= n,
            forall|k: int| 0 <= k < i ==> (#[trigger] words@[k])@ != w@,
        decreases n - i,
    {
        if words[i].eq(w) {
            proof {
                assert(words@[i as int]@ == w@);
            }
            return true;
        }
        i += 1;
    }
    false
}

/// A copy of one capacity row.
fn copy_row(row: &Vec<usize>) -> (d: Vec<usize>)
    ensures
        d@ == row@,
{
    let n = row.len();
    let mut d: Vec<usize> = Vec::new();
    let mut i: usize = 0;
    while i < n
        invariant
            n == row@.len(),
            i <= n,
            d@ == row@.take(i as int),
        decreases n - i,
    {
        d.push(row[i]);
        proof {
            assert(d@ =~= row@.take(i as int + 1));
        }
        i += 1;
    }
    proof {
        assert(row@.take(n as int) =~= row@);
    }
    d
}

/// The fresh capacity table of a matrix: each entry's `max_transit`.
pub fn build_remaining(matrix: &Vec<Vec<Transition>>) -> (r: Vec<Vec<usize>>)
    ensures
        caps_of(r@) == init_caps(matrix@),
{
    let n = matrix.len();
    let mut r: Vec<Vec<usize>> = Vec::new();
    let mut i: usize = 0;
    while i < n
        invariant
            n == matrix@.len(),
            i <= n,
            r@.len() == i,
            forall|k: int|
                0 <= k < i ==> (#[trigger] r@[k])@ == matrix@[k]@.map_values(
                    |t: Transition| t.max_transit,
                ),
        decreases n - i,
    {
        let row_len = matrix[i].len();
        let mut row: Vec<usize> = Vec::new();
        let mut j: usize = 0;
        while j < row_len
            invariant
                i < matrix@.len(),
                row_len == matrix@[i as int]@.len(),
                j <= row_len,
                row@.len() == j,
                forall|l: int| 0 <= l < j ==> row@[l] == matrix@[i as int]@[l].max_transit,
            decreases row_len - j,
        {
            row.push(matrix[i][j].max_transit);
            j += 1;
        }
        proof {
            assert(row@ =~= matrix@[i as int]@.map_values(|t: Transition| t.max_transit));
        }
        r.push(row);
        i += 1;
    }
    proof {
        assert(caps_of(r@) =~~= init_caps(matrix@));
    }
    r
}

/// The same table with one use of the edge from `i` to `j` taken out.
fn dec_remaining(remaining: &Vec<Vec<usize>>, i: usize, j: usize) -> (d: Vec<Vec<usize>>)
    requires
        (i as int) < remaining@.len(),
        (j as int) < remaining@[i as int]@.len(),
        remaining@[i as int]@[j as int] > 0,
    ensures
        caps_of(d@) == dec_at(caps_of(remaining@), i as int, j as int),
{
    let mut d: Vec<Vec<usize>> = Vec::new();
    let n = remaining.len();
    let mut k: usize = 0;
    while k < n
        invariant
            n == remaining@.len(),
            k <= n,
            d@.len() == k,
            forall|l: int| 0 <= l < k ==> (#[trigger] d@[l])@ == remaining@[l]@,
        decreases n - k,
    {
        d.push(copy_row(&remaining[k]));
        k += 1;
    }
    let mut row = copy_row(&d[i]);
    let v = row[j];
    row[j] = v - 1;
    d[i] = row;
    proof {
        assert(caps_of(d@) =~~= dec_at(caps_of(remaining@), i as int, j as int));
    }
    d
}

/// The duplicate-free list of the words present in both lists.
pub fn intersect_words(words_1: &Vec<String>, words_2: &Vec<String>) -> (out: Vec<String>)
    ensures
        distinct_words(out@),
        forall|w: Seq<char>| #[trigger]
            has_word(out@, w) <==> has_word(words_1@, w) && has_word(words_2@, w),
{
    let mut out: Vec<String> = Vec::new();
    let n = words_1.len();
    let mut i: usize = 0;
    while i < n
        invariant
            n == words_1@.len(),
            i <= n,
            distinct_words(out@),
            forall|w: Seq<char>| #[trigger]
                has_word(out@, w) <==> has_word(words_1@.take(i as int), w) && has_word(
                    words_2@,
                    w,
                ),
        decreases n - i,
    {
        let ghost pre = out@;
        let cand = &words_1[i];
        let ghost cv = words_1@[i as int];
        let in_2 = contains_str(words_2, cand);
        let in_out = contains_str(&out, cand);
        if in_2 && !in_out {
            out.push(cand.clone());
            proof {
                lemma_distinct_push(pre, cv);
                assert(out@ == pre.push(cv));
            }
        }
        proof {
            assert(words_1@.take(i as int + 1) =~= words_1@.take(i as int).push(cv));
            assert forall|w: Seq<char>|
                has_word(out@, w) <==> (has_word(words_1@.take(i as int + 1), w) && has_word(
                    words_2@,
                    w,
                )) by {
                lemma_has_word_push(words_1@.take(i as int), cv, w);
                if in_2 && !in_out {
                    lemma_has_word_push(pre, cv, w);
                }
            }
        }
        i += 1;
    }
    proof {
        assert(words_1@.take(n as int) =~= words_1@);
    }
    out
}

/// The traversal engine over one state list; the matrices to walk come in
/// per call.
pub struct Generator<'a> {
    pub states: &'a Vec<State>,
}

impl<'a> Generator<'a> {
    pub fn new(states: &'a Vec<State>) -> (g: Generator<'a>)
        ensures
            g.states@ == states@,
    {
        Generator { states }
    }

    /// Bounded depth-first enumeration. Every distinct word obtainable
    /// from `state_index` by extending `current_word` along eligible edges
    /// to a terminal state — within the remaining edge capacities and the
    /// global length bound — is added to `words` exactly once; words
    /// already present are kept and never repeated.
    pub fn list_all_words(
        &self,
        words: &mut Vec<String>,
        state_index: usize,
        current_word: &str,
        incidence_matrix: &Vec<Vec<Transition>>,
        remaining: &Vec<Vec<usize>>,
        max_word_length: usize,
    )
        requires
            table_wf(self.states@, incidence_matrix@),
            caps_wf(caps_of(remaining@), self.states@.len()),
            (state_index as int) < self.states@.len(),
            current_word@.len() <= max_word_length,
            distinct_words(old(words)@),
        ensures
            distinct_words(final(words)@),
            old(words)@.is_prefix_of(final(words)@),
            forall|w: Seq<char>| #[trigger]
                has_word(final(words)@, w) <==> has_word(old(words)@, w) || gen_ext(
                    self.states@,
                    incidence_matrix@,
                    caps_of(remaining@),
                    state_index as int,
                    current_word@,
                    max_word_length as nat,
                    w,
                ),
        decreases max_word_length - current_word@.len(),
    {
        let ghost states = self.states@;
        let ghost m = incidence_matrix@;
        let ghost caps = caps_of(remaining@);
        let ghost cur = current_word@;
        let ghost bound = max_word_length as nat;
        let ghost pre = words@;
        let ghost s = state_index as int;
        let is_term = self.states[state_index].is_terminal;
        if is_term {
            let cw = String::from_str(current_word);
            if !contains_str(words, &cw) {
                let ghost before = words@;
                words.push(cw);
                proof {
                    assert(distinct_words(words@)) by {
                        assert forall|i: int, k: int| 0 <= i < k < words@.len() implies (
                        words@[i])@ != (words@[k])@ by {
                            if k < before.len() {
                                assert(words@[i] == before[i] && words@[k] == before[k]);
                            } else {
                                assert(words@[k]@ == cur);
                                assert(words@[i] == before[i]);
                                if before[i]@ == cur {
                                    assert(has_word(before, cur));
                                }
                            }
                        }
                    }
                }
            }
        }
        proof {
            assert forall|w: Seq<char>| #[trigger]
                has_word(words@, w) implies (has_word(pre, w) || (states[s].is_terminal && w
                == cur)) by {
                let i = choose|i: int| 0 <= i < words@.len() && (#[trigger] words@[i])@ == w;
                if i < pre.len() {
                    assert(pre[i]@ == w);
                } else {
                    assert(w == cur);
                }
            }
            assert forall|w: Seq<char>| (has_word(pre, w) || (states[s].is_terminal && w
                == cur)) implies #[trigger] has_word(words@, w) by {
                if has_word(pre, w) {
                    let i = choose|i: int| 0 <= i < pre.len() && (#[trigger] pre[i])@ == w;
                    assert(words@[i]@ == w);
                } else {
                    assert(words@[words@.len() - 1]@ == cur);
                }
            }
            assert(pre.is_prefix_of(words@)) by {
                assert(pre =~= words@.take(pre.len() as int));
            }
        }
        let n = incidence_matrix[state_index].len();
        proof {
            assert(n == states.len());
        }
        let mut j: usize = 0;
        while j < n
            invariant
                table_wf(states, m),
                caps_wf(caps, states.len()),
                states == self.states@,
                m == incidence_matrix@,
                caps == caps_of(remaining@),
                cur == current_word@,
                bound == max_word_length as nat,
                pre == old(words)@,
                s == state_index as int,
                (state_index as int) < states.len(),
                cur.len() <= bound,
                n == states.len(),
                j <= n,
                distinct_words(words@),
                pre.is_prefix_of(words@),
                forall|w: Seq<char>| #[trigger]
                    has_word(words@, w) <==> has_word(pre, w) || (states[s].is_terminal && w
                        == cur) || gen_ext_upto(states, m, caps, s, cur, bound, j as int, w),
            decreases n - j,
        {
            proof {
                assert(caps[s] == remaining@[s]@);
                assert(remaining@.len() == caps.len());
            }
            let ghost words_iter = words@;
            let t = &incidence_matrix[state_index][j];
            match t.label {
                Some(c) => {
                    if remaining[state_index][j] > 0 && current_word.unicode_len()
                        < max_word_length {
                        let mut next_word = String::from_str(current_word);
                        push_char(&mut next_word, c);
                        let next_remaining = dec_remaining(remaining, state_index, j);
                        proof {
                            assert(caps_wf(caps_of(next_remaining@), states.len())) by {
                                assert(forall|i: int|
                                    0 <= i < states.len() ==> (#[trigger] dec_at(
                                        caps,
                                        s,
                                        j as int,
                                    )[i]).len() == caps[i].len());
                            }
                            assert(next_word@ == cur.push(c));
                            assert(next_word@.len() == cur.len() + 1);
                        }
                        self.list_all_words(
                            words,
                            j,
                            next_word.as_str(),
                            incidence_matrix,
                            &next_remaining,
                            max_word_length,
                        );
                        proof {
                            assert(pre.is_prefix_of(words@)) by {
                                assert(forall|k: int|
                                    0 <= k < pre.len() ==> pre[k] == #[trigger] words_iter[k]
                                        && words_iter[k] == words@[k]);
                                assert(pre =~= words@.take(pre.len() as int));
                            }
                            let ghost caps2 = dec_at(caps, s, j as int);
                            let ghost cur2 = cur.push(c);
                            assert forall|w: Seq<char>| #[trigger]
                                has_word(words@, w) implies (has_word(pre, w) || (
                            states[s].is_terminal && w == cur) || gen_ext_upto(
                                states,
                                m,
                                caps,
                                s,
                                cur,
                                bound,
                                j as int + 1,
                                w,
                            )) by {
                                lemma_gen_ext_step(states, m, caps, s, j as int, c, cur, bound, w);
                                if !has_word(words_iter, w) {
                                    assert(gen_ext(states, m, caps2, j as int, cur2, bound, w));
                                    assert(accepts_via_edge(
                                        states,
                                        m,
                                        caps,
                                        s,
                                        j as int,
                                        w.skip(cur.len() as int),
                                    ));
                                }
                            }
                            assert forall|w: Seq<char>| (has_word(pre, w) || (
                            states[s].is_terminal && w == cur) || gen_ext_upto(
                                states,
                                m,
                                caps,
                                s,
                                cur,
                                bound,
                                j as int + 1,
                                w,
                            )) implies #[trigger] has_word(words@, w) by {
                                if has_word(pre, w) || (states[s].is_terminal && w == cur) {
                                    assert(has_word(words_iter, w));
                                } else {
                                    let jj = choose|jj: int|
                                        0 <= jj < j as int + 1 && accepts_via_edge(
                                            states,
                                            m,
                                            caps,
                                            s,
                                            jj,
                                            w.skip(cur.len() as int),
                                        );
                                    if jj < j as int {
                                        assert(gen_ext_upto(
                                            states,
                                            m,
                                            caps,
                                            s,
                                            cur,
                                            bound,
                                            j as int,
                                            w,
                                        ));
                                        assert(has_word(words_iter, w));
                                    } else {
                                        lemma_gen_ext_step(
                                            states,
                                            m,
                                            caps,
                                            s,
                                            j as int,
                                            c,
                                            cur,
                                            bound,
                                            w,
                                        );
                                        assert(gen_ext(states, m, caps2, j as int, cur2, bound, w));
                                    }
                                }
                            }
                        }
                    } else {
                        proof {
                            assert forall|w: Seq<char>| gen_ext_upto(
                                states,
                                m,
                                caps,
                                s,
                                cur,
                                bound,
                                j as int + 1,
                                w,
                            ) implies gen_ext_upto(states, m, caps, s, cur, bound, j as int, w) by {
                                let jj = choose|jj: int|
                                    0 <= jj < j as int + 1 && accepts_via_edge(
                                        states,
                                        m,
                                        caps,
                                        s,
                                        jj,
                                        w.skip(cur.len() as int),
                                    );
                                if jj == j as int {
                                    if remaining[s]@[j as int] == 0 {
                                        assert(caps[s][j as int] == 0);
                                        assert(false);
                                    } else {
                                        assert(cur.len() == bound);
                                        assert(false);
                                    }
                                }
                            }
                        }
                    }
                },
                None => {
                    proof {
                        assert forall|w: Seq<char>| gen_ext_upto(
                            states,
                            m,
                            caps,
                            s,
                            cur,
                            bound,
                            j as int + 1,
                            w,
                        ) implies gen_ext_upto(states, m, caps, s, cur, bound, j as int, w) by {
                            let jj = choose|jj: int|
                                0 <= jj < j as int + 1 && accepts_via_edge(
                                    states,
                                    m,
                                    caps,
                                    s,
                                    jj,
                                    w.skip(cur.len() as int),
                                );
                            if jj == j as int {
                                assert(lbl(m, s, j as int) is None);
                                assert(false);
                            }
                        }
                    }
                },
            }
            j += 1;
        }
        proof {
            assert forall|w: Seq<char>| #[trigger]
                has_word(words@, w) <==> has_word(pre, w) || gen_ext(
                    states,
                    m,
                    caps,
                    s,
                    cur,
                    bound,
                    w,
                ) by {
                lemma_gen_ext_scan_complete(states, m, caps, s, cur, bound, w);
            }
        }
    }

    /// The full bounded language of one matrix, explored from
    /// `start_index` with fresh capacities and an empty prefix.
    pub(crate) fn generate_words(
        &self,
        incidence_matrix: &Vec<Vec<Transition>>,
        start_index: usize,
        max_word_length: usize,
    ) -> (ws: Vec<String>)
        requires
            table_wf(self.states@, incidence_matrix@),
            (start_index as int) < self.states@.len(),
        ensures
            is_generation(
                self.states@,
                incidence_matrix@,
                start_index as int,
                max_word_length as nat,
                ws@,
            ),
    {
        proof {
            lemma_init_caps_wf(self.states@, incidence_matrix@);
            reveal_strlit("");
            assert(""@ =~= Seq::<char>::empty());
        }
        let remaining = build_remaining(incidence_matrix);
        let mut ws: Vec<String> = Vec::new();
        self.list_all_words(
            &mut ws,
            start_index,
            "",
            incidence_matrix,
            &remaining,
            max_word_length,
        );
        proof {
            assert forall|w: Seq<char>|
                has_word(ws@, w) <==> in_lang(
                    self.states@,
                    incidence_matrix@,
                    start_index as int,
                    w,
                    max_word_length as nat,
                ) by {
                lemma_gen_ext_empty(
                    self.states@,
                    incidence_matrix@,
                    init_caps(incidence_matrix@),
                    start_index as int,
                    max_word_length as nat,
                    w,
                );
            }
        }
        ws
    }

    /// The words of both matrices' bounded languages, explored from the
    /// initial state: first every word of the first matrix, then every
    /// word of the second, kept apart without cross-deduplication.
    pub fn union(
        &self,
        words_union: &mut Vec<String>,
        incidence_matrix: &Vec<Vec<Transition>>,
        incidence_matrix_2: &Vec<Vec<Transition>>,
        max_word_length: usize,
    )
        requires
            states_wf(self.states@),
            table_wf(self.states@, incidence_matrix@),
            table_wf(self.states@, incidence_matrix_2@),
            old(words_union)@.len() == 0,
            max_word_length >= 1,
        ensures
            is_union_generation(
                self.states@,
                incidence_matrix@,
                initial_of(self.states@),
                self.states@,
                incidence_matrix_2@,
                initial_of(self.states@),
                max_word_length as nat,
                final(words_union)@,
            ),
    {
        let init = find_initial(self.states);
        let mut words_1 = self.generate_words(incidence_matrix, init, max_word_length);
        let mut words_2 = self.generate_words(incidence_matrix_2, init, max_word_length);
        let ghost g1 = words_1@;
        let ghost g2 = words_2@;
        words_union.append(&mut words_1);
        words_union.append(&mut words_2);
        proof {
            let k = g1.len() as int;
            assert(words_union@.take(k) =~= g1);
            assert(words_union@.skip(k) =~= g2);
            assert(is_union_generation(
                self.states@,
                incidence_matrix@,
                initial_of(self.states@),
                self.states@,
                incidence_matrix_2@,
                initial_of(self.states@),
                max_word_length as nat,
                words_union@,
            )) by {
                assert(is_generation(
                    self.states@,
                    incidence_matrix@,
                    initial_of(self.states@),
                    max_word_length as nat,
                    words_union@.take(k),
                ));
                assert(is_generation(
                    self.states@,
                    incidence_matrix_2@,
                    initial_of(self.states@),
                    max_word_length as nat,
                    words_union@.skip(k),
                ));
            }
        }
    }

    /// The words accepted by both matrices within the bound, explored from
    /// the initial state, without duplicates.
    pub fn inter(
        &self,
        words_inter: &mut Vec<String>,
        incidence_matrix: &Vec<Vec<Transition>>,
        incidence_matrix_2: &Vec<Vec<Transition>>,
        max_word_length: usize,
    )
        requires
            states_wf(self.states@),
            table_wf(self.states@, incidence_matrix@),
            table_wf(self.states@, incidence_matrix_2@),
            old(words_inter)@.len() == 0,
            max_word_length >= 1,
        ensures
            distinct_words(final(words_inter)@),
            forall|w: Seq<char>|
                #![trigger has_word(final(words_inter)@, w)]
                has_word(final(words_inter)@, w) <==> (in_lang(
                    self.states@,
                    incidence_matrix@,
                    initial_of(self.states@),
                    w,
                    max_word_length as nat,
                ) && in_lang(
                    self.states@,
                    incidence_matrix_2@,
                    initial_of(self.states@),
                    w,
                    max_word_length as nat,
                )),
    {
        let init = find_initial(self.states);
        let words_1 = self.generate_words(incidence_matrix, init, max_word_length);
        let words_2 = self.generate_words(incidence_matrix_2, init, max_word_length);
        let mut out = intersect_words(&words_1, &words_2);
        let ghost go = out@;
        words_inter.append(&mut out);
        proof {
            assert(words_inter@ =~= go);
        }
    }

    /// Depth-first search for one traversal that spells `word` from
    /// `state_index` onward (the first `char_index` characters are already
    /// consumed) and ends at a terminal state, under the remaining edge
    /// capacities. On success the traversal's states are appended to
    /// `path_in_automaton`; a failed branch leaves no trace there.
    pub fn match_word_path(
        &self,
        word: &str,
        char_index: usize,
        state_index: usize,
        incidence_matrix: &Vec<Vec<Transition>>,
        remaining: &Vec<Vec<usize>>,
        path_in_automaton: &mut Vec<usize>,
    ) -> (found: bool)
        requires
            table_wf(self.states@, incidence_matrix@),
            caps_wf(caps_of(remaining@), self.states@.len()),
            (state_index as int) < self.states@.len(),
            char_index <= word@.len(),
            old(path_in_automaton)@.len() > 0,
            old(path_in_automaton)@.last() == state_index,
        ensures
            found == accepts_from(
                self.states@,
                incidence_matrix@,
                caps_of(remaining@),
                state_index as int,
                word@.skip(char_index as int),
            ),
            found ==> {
                &&& old(path_in_automaton)@.is_prefix_of(final(path_in_automaton)@)
                &&& final(path_in_automaton)@.len() == old(path_in_automaton)@.len() + word@.len()
                    - char_index
                &&& path_ok(
                    self.states@,
                    incidence_matrix@,
                    caps_of(remaining@),
                    final(path_in_automaton)@.skip(old(path_in_automaton)@.len() - 1),
                    word@.skip(char_index as int),
                )
            },
            !found ==> final(path_in_automaton)@ == old(path_in_automaton)@,
        decreases word@.len() - char_index,
    {
        let ghost states = self.states@;
        let ghost m = incidence_matrix@;
        let ghost caps = caps_of(remaining@);
        let ghost suffix = word@.skip(char_index as int);
        let word_len = word.unicode_len();
        if char_index == word_len {
            proof {
                assert(suffix =~= Seq::<char>::empty());
            }
            if self.states[state_index].is_terminal {
                proof {
                    let p = path_in_automaton@.skip(path_in_automaton@.len() - 1);
                    assert(p.len() == 1);
                    assert(p[0] == state_index);
                }
                return true;
            }
            return false;
        }
        let c = word.get_char(char_index);
        proof {
            assert(suffix.len() > 0);
            assert(suffix[0] == c);
        }
        let n = self.states.len();
        let mut j: usize = 0;
        while j < n
            invariant
                table_wf(states, m),
                caps_wf(caps, states.len()),
                states == self.states@,
                m == incidence_matrix@,
                caps == caps_of(remaining@),
                suffix == word@.skip(char_index as int),
                (state_index as int) < states.len(),
                char_index < word@.len(),
                suffix.len() > 0,
                suffix[0] == c,
                word_len == word@.len(),
                n == states.len(),
                j <= n,
                path_in_automaton@ == old(path_in_automaton)@,
                path_in_automaton@.len() > 0,
                path_in_automaton@.last() == state_index,
                forall|jj: int|
                    0 <= jj < j ==> !accepts_via_edge(states, m, caps, state_index as int, jj, suffix),
            decreases n - j,
        {
            proof {
                assert(caps[state_index as int] == remaining@[state_index as int]@);
                assert(remaining@.len() == caps.len());
            }
            let t = &incidence_matrix[state_index][j];
            match t.label {
                Some(lc) => {
                    if lc == c && remaining[state_index][j] > 0 {
                        proof {
                            assert(caps[state_index as int][j as int] == remaining@[state_index as int]@[j as int]);
                        }
                        let next_remaining = dec_remaining(remaining, state_index, j);
                        proof {
                            assert(caps_wf(caps_of(next_remaining@), states.len())) by {
                                assert(forall|i: int|
                                    0 <= i < states.len() ==> (#[trigger] dec_at(
                                        caps,
                                        state_index as int,
                                        j as int,
                                    )[i]).len() == caps[i].len());
                            }
                        }
                        let ghost path_before = path_in_automaton@;
                        path_in_automaton.push(j);
                        let found = self.match_word_path(
                            word,
                            char_index + 1,
                            j,
                            incidence_matrix,
                            &next_remaining,
                            path_in_automaton,
                        );
                        if found {
                            proof {
                                let s = state_index as int;
                                let caps2 = dec_at(caps, s, j as int);
                                let suffix2 = word@.skip(char_index as int + 1);
                                assert(suffix.drop_first() =~= suffix2);
                                assert(accepts_via_edge(states, m, caps, s, j as int, suffix));
                                lemma_accepts_from_edges(states, m, caps, s, suffix);
                                // the appended segment spells the suffix
                                let mid = path_before.push(j);
                                let q = path_in_automaton@.skip(path_before.len() as int - 1);
                                let q2 = path_in_automaton@.skip(mid.len() as int - 1);
                                assert(mid.is_prefix_of(path_in_automaton@));
                                assert(q[0] == path_in_automaton@[path_before.len() - 1]);
                                assert(path_in_automaton@[path_before.len() - 1] == mid[path_before.len() - 1]);
                                assert(q[0] == state_index);
                                assert(q[1] == path_in_automaton@[path_before.len() as int]);
                                assert(path_in_automaton@[path_before.len() as int] == mid[path_before.len() as int]);
                                assert(q[1] == j);
                                assert(q.drop_first() =~= q2);
                                assert(path_ok(states, m, caps, q, suffix));
                                assert(path_before.is_prefix_of(path_in_automaton@)) by {
                                    assert(forall|k: int|
                                        0 <= k < path_before.len() ==> path_before[k] == mid[k]
                                            && mid[k] == path_in_automaton@[k]);
                                    assert(path_before =~= path_in_automaton@.take(
                                        path_before.len() as int,
                                    ));
                                }
                            }
                            return true;
                        }
                        path_in_automaton.pop();
                        proof {
                            assert(path_in_automaton@ =~= path_before);
                            let s = state_index as int;
                            let suffix2 = word@.skip(char_index as int + 1);
                            assert(suffix.drop_first() =~= suffix2);
                            assert(!accepts_via_edge(states, m, caps, s, j as int, suffix));
                        }
                    } else {
                        proof {
                            let s = state_index as int;
                            if (j as int) < states.len() {
                                if lc != c {
                                    assert(lbl(m, s, j as int) == Some(lc));
                                    assert(!accepts_via_edge(states, m, caps, s, j as int, suffix));
                                } else {
                                    assert(caps[s][j as int] == remaining@[s]@[j as int]);
                                    assert(!accepts_via_edge(states, m, caps, s, j as int, suffix));
                                }
                            }
                        }
                    }
                },
                None => {
                    proof {
                        let s = state_index as int;
                        assert(lbl(m, s, j as int) is None);
                        assert(!accepts_via_edge(states, m, caps, s, j as int, suffix));
                    }
                },
            }
            j += 1;
        }
        proof {
            lemma_accepts_from_edges(states, m, caps, state_index as int, suffix);
            assert(!accepts_from(states, m, caps, state_index as int, suffix)) by {
                if accepts_from(states, m, caps, state_index as int, suffix) {
                    let jj = choose|jj: int|
                        accepts_via_edge(states, m, caps, state_index as int, jj, suffix);
                    assert(0 <= jj < states.len());
                    assert(false);
                }
            }
        }
        false
    }
}

} // verus!
