//! The trie: an arena of states, each with sorted, disjoint outgoing ranges.

use regex_syntax::utf8::Utf8Range;
use vstd::prelude::*;

use crate::range::{contains, overlap, valid, Overlap};

verus! {

/// The index of the root state, which always exists.
pub const ROOT: usize = 0;

/// One outgoing edge: the bytes of `range` lead to state `next_id`.
#[derive(Clone, Copy, Debug)]
pub struct Transition {
    pub range: Utf8Range,
    pub next_id: usize,
}

/// One state of the trie: whether some inserted sequence ends here, and its
/// outgoing transitions in ascending order of their ranges.
#[derive(Clone, Debug)]
pub struct State {
    pub is_final: bool,
    pub transitions: Vec<Transition>,
}

/// A trie of byte-range sequences, stored as an arena of states addressed by
/// index, with the root at `ROOT`. Insertion rewrites the root and otherwise
/// only appends states; a state that it no longer reaches stays in the arena.
#[derive(Clone, Debug)]
pub struct RangeTrie {
    states: Vec<State>,
}

/// Every range of `ts` is well formed, and each ends before the next starts.
pub open spec fn sorted_disjoint(ts: Seq<Transition>) -> bool {
    &&& forall|j: int| 0 <= j < ts.len() ==> valid(#[trigger] ts[j].range)
    &&& forall|j: int, k: int| 0 <= j < k < ts.len() ==> ts[j].range.end < ts[k].range.start
}

/// Every transition of `ts` leads to a state of an arena of `n` states other
/// than the root.
pub open spec fn targets_within(ts: Seq<Transition>, n: int) -> bool {
    forall|j: int| 0 <= j < ts.len() ==> 0 < #[trigger] ts[j].next_id < n
}

/// State `i` of `states` is well formed.
pub open spec fn state_wf(states: Seq<State>, i: int) -> bool {
    sorted_disjoint(states[i].transitions@) && targets_within(
        states[i].transitions@,
        states.len() as int,
    )
}

/// The arena has a root, and at every state the transitions are sorted,
/// pairwise disjoint, and lead to existing states other than the root.
pub open spec fn states_wf(states: Seq<State>) -> bool {
    &&& states.len() > 0
    &&& forall|i: int| 0 <= i < states.len() ==> #[trigger] state_wf(states, i)
}

/// `big` holds the states of `small` at the same indices, and maybe more.
pub open spec fn extends(big: Seq<State>, small: Seq<State>) -> bool {
    &&& small.len() <= big.len()
    &&& forall|i: int| 0 <= i < small.len() ==> big[i] == small[i]
}

/// Every range of `ranges` is well formed.
pub open spec fn ranges_valid(ranges: Seq<Utf8Range>) -> bool {
    forall|k: int| 0 <= k < ranges.len() ==> valid(#[trigger] ranges[k])
}

/// The word `w` leads from state `st` to a final state, taking at each byte a
/// transition whose range holds it.
pub open spec fn accepts_from(states: Seq<State>, st: State, w: Seq<u8>) -> bool
    decreases w.len(),
{
    if w.len() == 0 {
        st.is_final
    } else {
        exists|k: int|
            0 <= k < st.transitions@.len() && contains(
                #[trigger] st.transitions@[k].range,
                w[0] as int,
            ) && accepts_from(
                states,
                states[st.transitions@[k].next_id as int],
                w.drop_first(),
            )
    }
}

/// The word `w` leads from state `id` to a final state.
pub open spec fn accepts(states: Seq<State>, id: int, w: Seq<u8>) -> bool {
    accepts_from(states, states[id], w)
}

/// Transition `t` takes the first byte of `w`, and the rest leads from its
/// destination to a final state.
pub open spec fn takes(states: Seq<State>, t: Transition, w: Seq<u8>) -> bool {
    &&& w.len() > 0
    &&& contains(t.range, w[0] as int)
    &&& accepts(states, t.next_id as int, w.drop_first())
}

/// Some transition of `ts` takes the non-empty word `w`.
pub open spec fn step(states: Seq<State>, ts: Seq<Transition>, w: Seq<u8>) -> bool {
    exists|k: int| 0 <= k < ts.len() && #[trigger] takes(states, ts[k], w)
}

/// `w` has one byte for each range of `ranges` from `pos` on, each byte
/// within its range.
pub open spec fn spells_from(ranges: Seq<Utf8Range>, pos: int, w: Seq<u8>) -> bool {
    &&& w.len() == ranges.len() - pos
    &&& forall|i: int| 0 <= i < w.len() ==> contains(#[trigger] ranges[pos + i], w[i] as int)
}

/// `w` has one byte for each range of `ranges`, each byte within its range.
pub open spec fn spells(ranges: Seq<Utf8Range>, w: Seq<u8>) -> bool {
    spells_from(ranges, 0, w)
}

/// Some transition of `ts` leads on byte `b` to state `d`.
pub open spec fn leads(ts: Seq<Transition>, b: int, d: int) -> bool {
    exists|k: int| 0 <= k < ts.len() && contains(#[trigger] ts[k].range, b) && ts[k].next_id == d
}

/// A non-empty word is accepted from a state exactly when one of its
/// transitions takes it.
proof fn lemma_unfold(states: Seq<State>, st: State, w: Seq<u8>)
    requires
        w.len() > 0,
    ensures
        accepts_from(states, st, w) == step(states, st.transitions@, w),
{
    let ts = st.transitions@;
    if accepts_from(states, st, w) {
        let k = choose|k: int|
            0 <= k < ts.len() && contains(#[trigger] ts[k].range, w[0] as int) && accepts_from(
                states,
                states[ts[k].next_id as int],
                w.drop_first(),
            );
        assert(takes(states, ts[k], w));
    }
    if step(states, ts, w) {
        let k = choose|k: int| 0 <= k < ts.len() && #[trigger] takes(states, ts[k], w);
        assert(contains(ts[k].range, w[0] as int));
    }
}

/// Acceptance from `st` depends only on the states other than the root, when
/// no transition leads to the root.
proof fn lemma_frame(s1: Seq<State>, s2: Seq<State>, st: State, w: Seq<u8>)
    requires
        forall|i: int| 0 < i < s1.len() ==> s2[i] == s1[i],
        forall|i: int| 0 < i < s1.len() ==> #[trigger] targets_within(s1[i].transitions@, s1.len() as int),
        targets_within(st.transitions@, s1.len() as int),
    ensures
        accepts_from(s2, st, w) == accepts_from(s1, st, w),
    decreases w.len(),
{
    if w.len() > 0 {
        let ts = st.transitions@;
        assert forall|k: int| 0 <= k < ts.len() implies takes(s2, ts[k], w) == takes(s1, ts[k], w) by {
            let c = ts[k].next_id as int;
            assert(targets_within(s1[c].transitions@, s1.len() as int));
            lemma_frame(s1, s2, s1[c], w.drop_first());
        }
        lemma_unfold(s1, st, w);
        lemma_unfold(s2, st, w);
        if step(s1, ts, w) {
            let k = choose|k: int| 0 <= k < ts.len() && #[trigger] takes(s1, ts[k], w);
            assert(takes(s2, ts[k], w));
        }
        if step(s2, ts, w) {
            let k = choose|k: int| 0 <= k < ts.len() && #[trigger] takes(s2, ts[k], w);
            assert(takes(s1, ts[k], w));
        }
    }
}

/// Every state of a well-formed arena leads only inside it.
proof fn lemma_wf_targets(states: Seq<State>)
    requires
        states_wf(states),
    ensures
        forall|i: int|
            0 <= i < states.len() ==> #[trigger] targets_within(
                states[i].transitions@,
                states.len() as int,
            ),
{
    assert forall|i: int| 0 <= i < states.len() implies #[trigger] targets_within(
        states[i].transitions@,
        states.len() as int,
    ) by {
        assert(state_wf(states, i));
    }
}

/// Growing a well-formed arena keeps what every old state accepts.
proof fn lemma_extend(s1: Seq<State>, s2: Seq<State>)
    requires
        states_wf(s1),
        extends(s2, s1),
    ensures
        forall|st: State, w: Seq<u8>|
            targets_within(st.transitions@, s1.len() as int) ==> #[trigger] accepts_from(s2, st, w)
                == accepts_from(s1, st, w),
        forall|ts: Seq<Transition>, w: Seq<u8>|
            targets_within(ts, s1.len() as int) ==> #[trigger] step(s2, ts, w) == step(s1, ts, w),
        forall|i: int, w: Seq<u8>|
            0 <= i < s1.len() ==> #[trigger] accepts(s2, i, w) == accepts(s1, i, w),
{
    lemma_wf_targets(s1);
    assert forall|st: State, w: Seq<u8>|
        targets_within(st.transitions@, s1.len() as int) implies #[trigger] accepts_from(s2, st, w)
        == accepts_from(s1, st, w) by {
        lemma_frame(s1, s2, st, w);
    }
    assert forall|ts: Seq<Transition>, w: Seq<u8>|
        targets_within(ts, s1.len() as int) implies #[trigger] step(s2, ts, w) == step(
        s1,
        ts,
        w,
    ) by {
        assert forall|k: int| 0 <= k < ts.len() implies takes(s2, ts[k], w) == takes(s1, ts[k], w) by {
            let c = ts[k].next_id as int;
            if w.len() > 0 {
                lemma_frame(s1, s2, s1[c], w.drop_first());
            }
        }
        if step(s1, ts, w) {
            let k = choose|k: int| 0 <= k < ts.len() && #[trigger] takes(s1, ts[k], w);
            assert(takes(s2, ts[k], w));
        }
        if step(s2, ts, w) {
            let k = choose|k: int| 0 <= k < ts.len() && #[trigger] takes(s2, ts[k], w);
            assert(takes(s1, ts[k], w));
        }
    }
    assert forall|i: int, w: Seq<u8>| 0 <= i < s1.len() implies #[trigger] accepts(s2, i, w)
        == accepts(s1, i, w) by {
        lemma_frame(s1, s2, s1[i], w);
    }
}

/// Spelling from `pos` is taking the first byte in `ranges[pos]` and
/// spelling the rest from `pos + 1`.
proof fn lemma_spells_step(ranges: Seq<Utf8Range>, pos: int, w: Seq<u8>)
    requires
        0 <= pos < ranges.len(),
        w.len() > 0,
    ensures
        spells_from(ranges, pos, w) == (contains(ranges[pos], w[0] as int) && spells_from(
            ranges,
            pos + 1,
            w.drop_first(),
        )),
{
    let v = w.drop_first();
    if contains(ranges[pos], w[0] as int) && spells_from(ranges, pos + 1, v) {
        assert forall|i: int| 0 <= i < w.len() implies contains(
            #[trigger] ranges[pos + i],
            w[i] as int,
        ) by {
            if i > 0 {
                assert(w[i] == v[i - 1]);
                assert(contains(ranges[pos + 1 + (i - 1)], v[i - 1] as int));
            }
        }
    }
    if spells_from(ranges, pos, w) {
        assert(contains(ranges[pos + 0], w[0] as int));
        assert forall|i: int| 0 <= i < v.len() implies contains(
            #[trigger] ranges[pos + 1 + i],
            v[i] as int,
        ) by {
            assert(contains(ranges[pos + (i + 1)], w[i + 1] as int));
        }
    }
}

/// Appending `t` adds what `t` takes.
proof fn lemma_step_push(states: Seq<State>, ts: Seq<Transition>, t: Transition, w: Seq<u8>)
    ensures
        step(states, ts.push(t), w) == (step(states, ts, w) || takes(states, t, w)),
{
    let ts2 = ts.push(t);
    if step(states, ts2, w) {
        let k = choose|k: int| 0 <= k < ts2.len() && #[trigger] takes(states, ts2[k], w);
        if k < ts.len() {
            assert(ts2[k] == ts[k]);
        }
    }
    if step(states, ts, w) {
        let k = choose|k: int| 0 <= k < ts.len() && #[trigger] takes(states, ts[k], w);
        assert(ts2[k] == ts[k]);
    }
    if takes(states, t, w) {
        assert(ts2[ts.len() as int] == t);
    }
}

/// Appending `t` adds where `t` leads.
proof fn lemma_leads_push(ts: Seq<Transition>, t: Transition, b: int, d: int)
    ensures
        leads(ts.push(t), b, d) == (leads(ts, b, d) || (contains(t.range, b) && t.next_id == d)),
{
    let ts2 = ts.push(t);
    if leads(ts2, b, d) {
        let k = choose|k: int| 0 <= k < ts2.len() && contains(#[trigger] ts2[k].range, b) && ts2[k].next_id == d;
        if k < ts.len() {
            assert(ts2[k] == ts[k]);
        }
    }
    if leads(ts, b, d) {
        let k = choose|k: int| 0 <= k < ts.len() && contains(#[trigger] ts[k].range, b) && ts[k].next_id == d;
        assert(ts2[k] == ts[k]);
    }
    if contains(t.range, b) && t.next_id == d {
        assert(ts2[ts.len() as int] == t);
    }
}

impl View for RangeTrie {
    type V = Seq<State>;

    closed spec fn view(&self) -> Seq<State> {
        self.states@
    }
}

impl RangeTrie {
    pub open spec fn wf(&self) -> bool {
        states_wf(self@)
    }

    /// A trie with a single root that is not final and has no transitions.
    pub open spec fn is_empty_trie(&self) -> bool {
        &&& self@.len() == 1
        &&& !self@[0].is_final
        &&& self@[0].transitions@.len() == 0
    }

    /// A new trie: a lone non-final root.
    pub fn new() -> (r: RangeTrie)
        ensures
            r.wf(),
            r.is_empty_trie(),
    {
        let mut states = Vec::new();
        states.push(State { is_final: false, transitions: Vec::new() });
        RangeTrie { states }
    }

    /// Discards every state and transition, leaving a lone non-final root.
    pub fn clear(&mut self)
        ensures
            final(self).wf(),
            final(self).is_empty_trie(),
    {
        self.states.clear();
        self.states.push(State { is_final: false, transitions: Vec::new() });
    }

    /// Appends a fresh state, not final and without transitions, and returns
    /// its index.
    pub fn add_empty(&mut self) -> (id: usize)
        requires
            old(self).wf(),
        ensures
            id == old(self)@.len(),
            final(self)@.len() == old(self)@.len() + 1,
            forall|i: int| 0 <= i < id ==> final(self)@[i] == old(self)@[i],
            !final(self)@[id as int].is_final,
            final(self)@[id as int].transitions@.len() == 0,
            final(self).wf(),
    {
        let id = self.states.len();
        self.states.push(State { is_final: false, transitions: Vec::new() });
        proof {
            assert forall|i: int| 0 <= i < self@.len() implies #[trigger] state_wf(self@, i) by {
                if i < id {
                    assert(state_wf(old(self)@, i));
                }
            }
        }
        id
    }

    /// Inserts one sequence of byte ranges. Afterwards the trie accepts
    /// exactly the words it accepted before and the words that the sequence
    /// spells. The empty sequence only marks the root final. Otherwise the
    /// root's transitions are split and merged so that they stay sorted and
    /// disjoint, and every byte outside the first range leads where it led
    /// before.
    pub fn insert(&mut self, ranges: &[Utf8Range])
        requires
            old(self).wf(),
            ranges_valid(ranges@),
        ensures
            final(self).wf(),
            forall|w: Seq<u8>|
                #[trigger] accepts(final(self)@, 0, w) <==> accepts(old(self)@, 0, w) || spells(
                    ranges@,
                    w,
                ),
            ranges@.len() == 0 ==> {
                &&& final(self)@.len() == old(self)@.len()
                &&& final(self)@[0].is_final
                &&& final(self)@[0].transitions == old(self)@[0].transitions
                &&& forall|i: int| 1 <= i < final(self)@.len() ==> final(self)@[i] == old(self)@[i]
            },
            ranges@.len() > 0 ==> forall|b: int, d: int|
                !contains(ranges@[0], b) ==> (#[trigger] leads(final(self)@[0].transitions@, b, d)
                    <==> leads(old(self)@[0].transitions@, b, d)),
    {
        let ghost s0 = self@;
        proof {
            lemma_wf_targets(s0);
        }
        if ranges.len() == 0 {
            self.states[ROOT].is_final = true;
            proof {
                assert forall|i: int| 0 <= i < self@.len() implies #[trigger] state_wf(self@, i) by {
                    assert(state_wf(s0, i));
                }
                assert forall|w: Seq<u8>| #[trigger] accepts(self@, 0, w) <==> accepts(s0, 0, w) || spells(
                    ranges@,
                    w,
                ) by {
                    if w.len() > 0 {
                        lemma_unfold(self@, self@[0], w);
                        lemma_unfold(s0, s0[0], w);
                        lemma_frame(s0, self@, s0[0], w);
                        lemma_unfold(self@, s0[0], w);
                    }
                }
            }
            return;
        }
        let st = self.rebuild(ROOT, ranges, 0);
        let ghost s1 = self@;
        self.put(ROOT, st);
        proof {
            lemma_wf_targets(s1);
            assert forall|w: Seq<u8>| #[trigger] accepts(self@, 0, w) <==> accepts(s0, 0, w) || spells(
                ranges@,
                w,
            ) by {
                lemma_frame(s1, self@, st, w);
            }
        }
    }

    /// The transitions of state `id`, which callers walk from `ROOT` to
    /// enumerate the trie.
    pub fn state(&self, id: usize) -> (r: &State)
        requires
            id < self@.len(),
        ensures
            *r == self@[id as int],
    {
        &self.states[id]
    }

    /// The number of states in the arena.
    pub fn len(&self) -> (r: usize)
        ensures
            r == self@.len(),
    {
        self.states.len()
    }

    /// Replaces state `id` by `st`, which must itself be well formed there.
    fn put(&mut self, id: usize, st: State)
        requires
            old(self).wf(),
            id < old(self)@.len(),
            sorted_disjoint(st.transitions@),
            targets_within(st.transitions@, old(self)@.len() as int),
        ensures
            final(self)@ == old(self)@.update(id as int, st),
            final(self).wf(),
    {
        self.states.set(id, st);
        proof {
            assert forall|i: int| 0 <= i < self@.len() implies #[trigger] state_wf(self@, i) by {
                if i != id {
                    assert(state_wf(old(self)@, i));
                }
            }
        }
    }

    /// Appends `st`, which leads only to existing states, and returns its
    /// index.
    fn push_state(&mut self, st: State) -> (id: usize)
        requires
            old(self).wf(),
            sorted_disjoint(st.transitions@),
            targets_within(st.transitions@, old(self)@.len() as int),
        ensures
            final(self).wf(),
            final(self)@ == old(self)@.push(st),
            id == old(self)@.len(),
    {
        let id = self.states.len();
        self.states.push(st);
        proof {
            assert forall|i: int| 0 <= i < self@.len() implies #[trigger] state_wf(self@, i) by {
                if i < id {
                    assert(state_wf(old(self)@, i));
                }
            }
        }
        id
    }

    /// Builds a fresh chain of states that accepts exactly the words that
    /// `ranges[pos..]` spells, and returns the index of its first state.
    fn add_path(&mut self, ranges: &[Utf8Range], pos: usize) -> (id: usize)
        requires
            old(self).wf(),
            pos <= ranges@.len(),
            ranges_valid(ranges@),
        ensures
            final(self).wf(),
            extends(final(self)@, old(self)@),
            old(self)@.len() <= id < final(self)@.len(),
            forall|w: Seq<u8>| #[trigger] accepts(final(self)@, id as int, w) <==> spells_from(ranges@, pos as int, w),
        decreases ranges@.len() - pos,
    {
        if pos == ranges.len() {
            let id = self.push_state(State { is_final: true, transitions: Vec::new() });
            proof {
                assert forall|w: Seq<u8>| #[trigger] accepts(self@, id as int, w) <==> spells_from(ranges@, pos as int, w) by {
                    if w.len() > 0 {
                        lemma_unfold(self@, self@[id as int], w);
                    }
                }
            }
            id
        } else {
            let next_id = self.add_path(ranges, pos + 1);
            let ghost s1 = self@;
            let t = Transition { range: ranges[pos], next_id };
            let mut ts: Vec<Transition> = Vec::new();
            ts.push(t);
            proof {
                assert(valid(ranges@[pos as int]));
            }
            let id = self.push_state(State { is_final: false, transitions: ts });
            proof {
                lemma_extend(s1, self@);
                assert forall|w: Seq<u8>| #[trigger] accepts(self@, id as int, w) <==> spells_from(ranges@, pos as int, w) by {
                    if w.len() > 0 {
                        lemma_unfold(self@, self@[id as int], w);
                        lemma_spells_step(ranges@, pos as int, w);
                        assert(accepts(self@, next_id as int, w.drop_first()) == accepts(s1, next_id as int, w.drop_first()));
                        if step(self@, ts@, w) {
                            let k = choose|k: int| 0 <= k < ts@.len() && #[trigger] takes(self@, ts@[k], w);
                            assert(k == 0);
                        }
                        if spells_from(ranges@, pos as int, w) {
                            assert(takes(self@, ts@[0], w));
                        }
                    }
                }
            }
            id
        }
    }

    /// Appends a state that accepts what state `src` accepts and the words
    /// that `ranges[pos..]` spells, and returns its index. State `src` and
    /// every other existing state stay as they are.
    fn build(&mut self, src: usize, ranges: &[Utf8Range], pos: usize) -> (id: usize)
        requires
            old(self).wf(),
            src < old(self)@.len(),
            pos <= ranges@.len(),
            ranges_valid(ranges@),
        ensures
            final(self).wf(),
            extends(final(self)@, old(self)@),
            old(self)@.len() <= id < final(self)@.len(),
            forall|w: Seq<u8>|
                #[trigger] accepts(final(self)@, id as int, w) <==> accepts(old(self)@, src as int, w)
                    || spells_from(ranges@, pos as int, w),
        decreases ranges@.len() - pos, 1int,
    {
        let st = self.rebuild(src, ranges, pos);
        let ghost s1 = self@;
        let id = self.push_state(st);
        proof {
            lemma_extend(s1, self@);
        }
        id
    }

    /// Appends `t` to `ts`.
    fn emit(ts: &mut Vec<Transition>, t: Transition)
        ensures
            final(ts)@ == old(ts)@.push(t),
            forall|states: Seq<State>, w: Seq<u8>|
                #[trigger] step(states, final(ts)@, w) == (step(states, old(ts)@, w) || takes(states, t, w)),
            forall|b: int, d: int|
                #[trigger] leads(final(ts)@, b, d) == (leads(old(ts)@, b, d) || (contains(t.range, b)
                    && t.next_id == d)),
    {
        ts.push(t);
        proof {
            assert forall|states: Seq<State>, w: Seq<u8>|
                #[trigger] step(states, ts@, w) == (step(states, old(ts)@, w) || takes(states, t, w)) by {
                lemma_step_push(states, old(ts)@, t, w);
            }
            assert forall|b: int, d: int|
                #[trigger] leads(ts@, b, d) == (leads(old(ts)@, b, d) || (contains(t.range, b)
                    && t.next_id == d)) by {
                lemma_leads_push(old(ts)@, t, b, d);
            }
        }
    }

    /// A state, not yet placed in the arena, that accepts what state `src`
    /// accepts and the words that `ranges[pos..]` spells. Where the first of
    /// those ranges overlaps transitions of `src`, these are split: the parts
    /// outside it keep their destination, the shared parts lead to a fork of
    /// it that also takes the rest of the sequence, and the bytes that no
    /// transition took lead to a fresh path. Existing states stay as they are:
    /// the parts of a range split around a narrower one share one
    /// destination, so no destination is extended in place, not even for a
    /// range equal to the new one.
    fn rebuild(&mut self, src: usize, ranges: &[Utf8Range], pos: usize) -> (st: State)
        requires
            old(self).wf(),
            src < old(self)@.len(),
            pos <= ranges@.len(),
            ranges_valid(ranges@),
        ensures
            final(self).wf(),
            extends(final(self)@, old(self)@),
            sorted_disjoint(st.transitions@),
            targets_within(st.transitions@, final(self)@.len() as int),
            forall|w: Seq<u8>|
                #[trigger] accepts_from(final(self)@, st, w) <==> accepts(old(self)@, src as int, w)
                    || spells_from(ranges@, pos as int, w),
            pos < ranges@.len() ==> forall|b: int, d: int|
                !contains(ranges@[pos as int], b) ==> (#[trigger] leads(st.transitions@, b, d)
                    <==> leads(old(self)@[src as int].transitions@, b, d)),
        decreases ranges@.len() - pos, 0int,
    {
        let ghost s0 = self@;
        let ghost ots = s0[src as int].transitions@;
        proof {
            lemma_wf_targets(s0);
            assert(state_wf(s0, src as int));
        }
        let is_final = self.states[src].is_final;
        let n = self.states[src].transitions.len();
        let mut new_trans: Vec<Transition> = Vec::new();
        if pos == ranges.len() {
            let mut k: usize = 0;
            while k < n
                invariant
                    self@ == s0,
                    ots == s0[src as int].transitions@,
                    n == ots.len(),
                    src < s0.len(),
                    k <= n,
                    new_trans@ == ots.take(k as int),
                decreases n - k,
            {
                new_trans.push(self.states[src].transitions[k]);
                proof {
                    assert(ots.take(k + 1) =~= ots.take(k as int).push(ots[k as int]));
                }
                k += 1;
            }
            proof {
                assert(ots.take(n as int) =~= ots);
            }
            let st = State { is_final: true, transitions: new_trans };
            proof {
                assert forall|w: Seq<u8>|
                    #[trigger] accepts_from(self@, st, w) <==> accepts(s0, src as int, w)
                        || spells_from(ranges@, pos as int, w) by {
                    if w.len() > 0 {
                        lemma_unfold(s0, st, w);
                        lemma_unfold(s0, s0[src as int], w);
                    }
                }
            }
            return st;
        }
        let r = ranges[pos];
        let next_pos = pos + 1;
        proof {
            assert(valid(ranges@[pos as int]));
        }
        // The bytes of `r` from `cur` on are still to be placed.
        let mut cur: u16 = r.start as u16;
        let ghost mut lower: int = 0;
        let mut j: usize = 0;
        proof {
            assert(ots.take(0) =~= Seq::<Transition>::empty());
        }
        while j < n
            invariant
                self.wf(),
                extends(self@, s0),
                states_wf(s0),
                src < s0.len(),
                pos < ranges@.len(),
                next_pos == pos + 1,
                ranges_valid(ranges@),
                r == ranges@[pos as int],
                valid(r),
                ots == s0[src as int].transitions@,
                n == ots.len(),
                j <= n,
                sorted_disjoint(ots),
                targets_within(ots, s0.len() as int),
                sorted_disjoint(new_trans@),
                targets_within(new_trans@, self@.len() as int),
                forall|q: int| 0 <= q < new_trans@.len() ==> (#[trigger] new_trans@[q]).range.end < lower,
                j < n ==> lower <= ots[j as int].range.start,
                r.start <= cur <= r.end + 1,
                cur <= r.end ==> lower <= cur,
                cur == r.start || (j < n ==> cur <= ots[j as int].range.start),
                forall|w: Seq<u8>|
                    w.len() > 0 ==> (#[trigger] step(self@, new_trans@, w) <==> step(
                        s0,
                        ots.take(j as int),
                        w,
                    ) || (r.start <= w[0] < cur && spells_from(ranges@, pos as int, w))),
                forall|b: int, d: int|
                    !contains(r, b) ==> (#[trigger] leads(new_trans@, b, d) <==> leads(
                        ots.take(j as int),
                        b,
                        d,
                    )),
            decreases n - j,
        {
            let t = self.states[src].transitions[j];
            let ghost s1 = self@;
            let ghost before = new_trans@;
            proof {
                assert(t == ots[j as int]);
                assert(valid(t.range));
                if j + 1 < n {
                    assert(t.range.end < ots[j + 1].range.start);
                }
                assert(ots.take(j + 1) =~= ots.take(j as int).push(t));
                assert forall|w: Seq<u8>| #[trigger] step(s0, ots.take(j + 1), w) == (step(s0, ots.take(j as int), w) || takes(s0, t, w)) by {
                    lemma_step_push(s0, ots.take(j as int), t, w);
                }
                assert forall|b: int, d: int| #[trigger] leads(ots.take(j + 1), b, d) == (leads(ots.take(j as int), b, d) || (contains(t.range, b) && t.next_id == d)) by {
                    lemma_leads_push(ots.take(j as int), t, b, d);
                }
            }
            if cur > r.end as u16 || (t.range.end as u16) < cur {
                Self::emit(&mut new_trans, t);
                proof {
                    lower = t.range.end + 1;
                    lemma_extend(s0, self@);
                }
            } else if t.range.start > r.end {
                let p = self.add_path(ranges, next_pos);
                let piece = Transition { range: Utf8Range { start: cur as u8, end: r.end }, next_id: p };
                Self::emit(&mut new_trans, piece);
                Self::emit(&mut new_trans, t);
                proof {
                    lower = t.range.end + 1;
                    lemma_extend(s1, self@);
                    lemma_extend(s0, self@);
                    assert forall|w: Seq<u8>| w.len() > 0 implies (#[trigger] step(self@, new_trans@, w) <==> step(
                        s0,
                        ots.take(j + 1),
                        w,
                    ) || (r.start <= w[0] < r.end + 1 && spells_from(ranges@, pos as int, w))) by {
                        lemma_spells_step(ranges@, pos as int, w);
                    }
                }
                cur = r.end as u16 + 1;
            } else {
                let rem = Utf8Range { start: cur as u8, end: r.end };
                match overlap(t.range, rem) {
                    Overlap::Equal(_) => {
                        let c = self.build(t.next_id, ranges, next_pos);
                        Self::emit(&mut new_trans, Transition { range: t.range, next_id: c });
                        proof {
                            lower = t.range.end + 1;
                            lemma_extend(s1, self@);
                            lemma_extend(s0, self@);
                            lemma_extend(s0, s1);
                            assert forall|w: Seq<u8>| w.len() > 0 implies (#[trigger] step(self@, new_trans@, w) <==> step(
                                s0,
                                ots.take(j + 1),
                                w,
                            ) || (r.start <= w[0] < r.end + 1 && spells_from(ranges@, pos as int, w))) by {
                                lemma_spells_step(ranges@, pos as int, w);
                            }
                        }
                        cur = r.end as u16 + 1;
                    },
                    Overlap::Disjoint(_, _) => {
                        proof {
                            assert(false);
                        }
                    },
                    Overlap::Partial { old_below, old_above, both, new_below, new_above: _ } => {
                        let p = if new_below.is_some() {
                            self.add_path(ranges, next_pos)
                        } else {
                            0
                        };
                        let ghost s2 = self@;
                        let c = self.build(t.next_id, ranges, next_pos);
                        let ghost s3 = self@;
                        if let Some(b) = new_below {
                            Self::emit(&mut new_trans, Transition { range: b, next_id: p });
                            proof {
                                lower = b.end + 1;
                            }
                        }
                        if let Some(b) = old_below {
                            Self::emit(&mut new_trans, Transition { range: b, next_id: t.next_id });
                            proof {
                                lower = b.end + 1;
                            }
                        }
                        Self::emit(&mut new_trans, Transition { range: both, next_id: c });
                        proof {
                            lower = both.end + 1;
                        }
                        if let Some(b) = old_above {
                            Self::emit(&mut new_trans, Transition { range: b, next_id: t.next_id });
                            proof {
                                lower = b.end + 1;
                            }
                        }
                        let ghost cur2: int = if t.range.end < r.end { t.range.end + 1 } else { r.end + 1 };
                        proof {
                            lemma_extend(s1, self@);
                            lemma_extend(s0, self@);
                            lemma_extend(s2, self@);
                            lemma_extend(s0, s2);
                            assert forall|w: Seq<u8>| w.len() > 0 implies (#[trigger] step(self@, new_trans@, w) <==> step(
                                s0,
                                ots.take(j + 1),
                                w,
                            ) || (r.start <= w[0] < cur2 && spells_from(ranges@, pos as int, w))) by {
                                lemma_spells_step(ranges@, pos as int, w);
                                if new_below.is_some() {
                                    assert(accepts(self@, p as int, w.drop_first()) == accepts(s2, p as int, w.drop_first()));
                                }
                            }
                        }
                        cur = if t.range.end < r.end {
                            t.range.end as u16 + 1
                        } else {
                            r.end as u16 + 1
                        };
                    },
                }
            }
            j += 1;
        }
        let ghost s4 = self@;
        if cur <= r.end as u16 {
            let p = self.add_path(ranges, next_pos);
            let piece = Transition { range: Utf8Range { start: cur as u8, end: r.end }, next_id: p };
            Self::emit(&mut new_trans, piece);
            proof {
                lemma_extend(s4, self@);
            }
        }
        proof {
            lemma_extend(s0, self@);
            assert(ots.take(n as int) =~= ots);
        }
        let st = State { is_final, transitions: new_trans };
        proof {
            assert forall|w: Seq<u8>|
                #[trigger] accepts_from(self@, st, w) <==> accepts(s0, src as int, w)
                    || spells_from(ranges@, pos as int, w) by {
                if w.len() > 0 {
                    lemma_unfold(self@, st, w);
                    lemma_unfold(s0, s0[src as int], w);
                    lemma_spells_step(ranges@, pos as int, w);
                }
            }
        }
        st
    }
}

/// In a well-formed trie, no two transitions leaving the same state share a
/// byte.
pub proof fn lemma_siblings_disjoint(trie: &RangeTrie, i: int, j: int, k: int, b: int)
    requires
        trie.wf(),
        0 <= i < trie@.len(),
        0 <= j < trie@[i].transitions@.len(),
        0 <= k < trie@[i].transitions@.len(),
        j != k,
    ensures
        !(contains(trie@[i].transitions@[j].range, b) && contains(
            trie@[i].transitions@[k].range,
            b,
        )),
{
    assert(state_wf(trie@, i));
}

/// Inserting a sequence a second time accepts no new word: given three
/// arenas where each of the last two is what `insert` leaves after inserting
/// `ranges` into the one before, the last two accept the same words.
pub proof fn lemma_insert_twice_same_language(
    s0: Seq<State>,
    s1: Seq<State>,
    s2: Seq<State>,
    ranges: Seq<Utf8Range>,
)
    requires
        forall|w: Seq<u8>| #[trigger] accepts(s1, 0, w) <==> accepts(s0, 0, w) || spells(ranges, w),
        forall|w: Seq<u8>| #[trigger] accepts(s2, 0, w) <==> accepts(s1, 0, w) || spells(ranges, w),
    ensures
        forall|w: Seq<u8>| #[trigger] accepts(s2, 0, w) == accepts(s1, 0, w),
{
    assert forall|w: Seq<u8>| #[trigger] accepts(s2, 0, w) == accepts(s1, 0, w) by {
        assert(accepts(s1, 0, w) <==> accepts(s0, 0, w) || spells(ranges, w));
    }
}

} // verus!
