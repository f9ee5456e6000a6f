//! The matching-and-firing engine.
//!
//! `JunctionState<M>` is the coordinating state of one junction: the
//! per-channel FIFO queues of pending messages and the registry of join
//! patterns.  Callers serialize access to it (one coordinating lock per
//! junction) and layer typed channel handles and handler dispatch above it;
//! the engine itself decides which pattern a message arrival fires and
//! removes the consumed messages atomically with that decision.

use vstd::prelude::*;

verus! {

use crate::errors::JoinError;
use crate::model::{
    channels_valid, consume, count_of, enqueue, fired_args, first_match, has_id,
    lemma_count_take_full, lemma_count_take_le, lemma_count_take_step, lemma_first_match_at,
    lemma_first_match_least, lemma_first_match_none, lemma_has_id_push, lemma_skip_remove_front,
    lemma_take_succ, sat,
};

/// A registered join pattern: the ordered list of channel identities it
/// consumes from.  The handler itself lives with the caller, keyed by the
/// pattern's identity.
pub struct Pattern {
    pub channels: Vec<usize>,
}

/// What a send that completed a match reports: the identity of the fired
/// pattern and the consumed messages, one per pattern position, in the order
/// the pattern declared its channels.
pub struct Firing<M> {
    pub pattern: usize,
    pub args: Vec<M>,
}

/// The state of one junction: channel queues, the pattern registry, and a
/// per-channel index of the patterns naming that channel.
pub struct JunctionState<M> {
    queues: Vec<Vec<M>>,
    patterns: Vec<Pattern>,
    by_channel: Vec<Vec<usize>>,
}

impl<M> JunctionState<M> {
    /// The channel queues, oldest message first.
    pub closed spec fn queues_model(self) -> Seq<Seq<M>> {
        self.queues@.map_values(|q: Vec<M>| q@)
    }

    /// The registered patterns, in registration order.
    pub closed spec fn patterns_model(self) -> Seq<Seq<usize>> {
        self.patterns@.map_values(|p: Pattern| p.channels@)
    }

    pub open spec fn n_channels(self) -> nat {
        self.queues_model().len()
    }

    pub open spec fn n_patterns(self) -> nat {
        self.patterns_model().len()
    }

    pub open spec fn queue(self, c: int) -> Seq<M> {
        self.queues_model()[c]
    }

    pub open spec fn pattern(self, p: int) -> Seq<usize> {
        self.patterns_model()[p]
    }

    /// The entries of one reverse-index list: pattern identities that name
    /// channel `c`, each valid, in strictly increasing registration order.
    spec fn index_entries_wf(self, c: int) -> bool {
        let s = self.by_channel@[c]@;
        &&& forall|k: int|
            0 <= k < s.len() ==> (#[trigger] s[k]) < self.patterns@.len()
                && has_id(self.patterns@[s[k] as int].channels@, c)
        &&& forall|k1: int, k2: int| 0 <= k1 < k2 < s.len() ==> s[k1] < s[k2]
    }

    /// Internal invariant: every registered pattern names only minted
    /// channels, and the reverse index lists exactly the patterns naming
    /// each channel.
    pub closed spec fn wf(self) -> bool {
        &&& self.by_channel@.len() == self.queues@.len()
        &&& forall|p: int|
            0 <= p < self.patterns@.len() ==> channels_valid(
                (#[trigger] self.patterns@[p]).channels@,
                self.queues@.len() as nat,
            )
        &&& forall|c: int| 0 <= c < self.by_channel@.len() ==> self.index_entries_wf(c)
        &&& forall|c: int, p: int|
            0 <= c < self.by_channel@.len() && 0 <= p < self.patterns@.len() && has_id(
                (#[trigger] self.patterns@[p]).channels@,
                c,
            ) ==> has_id(#[trigger] self.by_channel@[c]@, p)
    }

    /// A fresh junction: no channels, no patterns.
    pub fn new() -> (s: Self)
        ensures
            s.wf(),
            s.n_channels() == 0,
            s.n_patterns() == 0,
    {
        JunctionState { queues: Vec::new(), patterns: Vec::new(), by_channel: Vec::new() }
    }

    /// Mints a fresh channel identity with an empty queue.  Always succeeds:
    /// the identity is the count of channels minted before it.
    pub fn create_channel(&mut self) -> (id: usize)
        requires
            old(self).wf(),
        ensures
            final(self).wf(),
            id == old(self).n_channels(),
            final(self).queues_model() == old(self).queues_model().push(Seq::<M>::empty()),
            final(self).patterns_model() == old(self).patterns_model(),
    {
        let id = self.queues.len();
        self.queues.push(Vec::new());
        self.by_channel.push(Vec::new());
        proof {
            assert(final(self).queues_model() =~= old(self).queues_model().push(Seq::<M>::empty()));
            let new_c = old(self).queues@.len() as int;
            assert forall|p: int|
                0 <= p < final(self).patterns@.len() implies channels_valid(
                (#[trigger] final(self).patterns@[p]).channels@,
                final(self).queues@.len() as nat,
            ) by {
                assert(channels_valid(
                    old(self).patterns@[p].channels@,
                    old(self).queues@.len() as nat,
                ));
            }
            assert forall|c: int|
                0 <= c < final(self).by_channel@.len() implies final(self).index_entries_wf(c) by {
                if c < old(self).by_channel@.len() {
                    assert(old(self).index_entries_wf(c));
                    assert(final(self).by_channel@[c] == old(self).by_channel@[c]);
                } else {
                    assert(final(self).by_channel@[c]@.len() == 0);
                }
            }
            assert forall|c: int, p: int|
                0 <= c < final(self).by_channel@.len() && 0 <= p < final(self).patterns@.len()
                    && has_id((#[trigger] final(self).patterns@[p]).channels@, c) implies has_id(
                #[trigger] final(self).by_channel@[c]@,
                p,
            ) by {
                let pat = final(self).patterns@[p].channels@;
                if c == new_c {
                    let k = choose|k: int| 0 <= k < pat.len() && pat[k] as int == new_c;
                    assert(channels_valid(pat, old(self).queues@.len() as nat));
                    assert(pat[k] < old(self).queues@.len());
                } else {
                    assert(has_id(old(self).by_channel@[c]@, p));
                    assert(final(self).by_channel@[c] == old(self).by_channel@[c]);
                }
            }
        }
        id
    }

    pub fn channel_count(&self) -> (n: usize)
        ensures
            n == self.n_channels(),
    {
        self.queues.len()
    }

    pub fn pattern_count(&self) -> (n: usize)
        ensures
            n == self.n_patterns(),
    {
        self.patterns.len()
    }

    /// How many messages are pending on channel `c`.
    pub fn queue_len(&self, c: usize) -> (n: usize)
        requires
            c < self.n_channels(),
        ensures
            n == self.queue(c as int).len(),
    {
        self.queues[c].len()
    }

    /// Registers a join pattern over the given ordered channel list, on
    /// behalf of a handler expecting `handler_arity` positional arguments.
    /// Refused when the arity disagrees with the channel count, or when a
    /// channel identity was never minted by this junction; otherwise the
    /// pattern's identity is its registration rank and it is immediately
    /// eligible to fire.
    pub fn register_pattern(&mut self, channels: Vec<usize>, handler_arity: usize) -> (r: Result<
        usize,
        JoinError,
    >)
        requires
            old(self).wf(),
        ensures
            final(self).wf(),
            final(self).queues_model() == old(self).queues_model(),
            handler_arity != channels@.len() ==> r == Result::<usize, JoinError>::Err(
                JoinError::PatternArityMismatch,
            ) && final(self).patterns_model() == old(self).patterns_model(),
            handler_arity == channels@.len() && !channels_valid(channels@, old(self).n_channels())
                ==> r == Result::<usize, JoinError>::Err(JoinError::CrossJunctionPattern)
                && final(self).patterns_model() == old(self).patterns_model(),
            handler_arity == channels@.len() && channels_valid(channels@, old(self).n_channels())
                ==> r == Result::<usize, JoinError>::Ok(old(self).n_patterns() as usize)
                && final(self).patterns_model() == old(self).patterns_model().push(channels@),
    {
        if handler_arity != channels.len() {
            return Err(JoinError::PatternArityMismatch);
        }
        let n = self.queues.len();
        let mut i: usize = 0;
        while i < channels.len()
            invariant
                i <= channels.len(),
                n == self.queues@.len(),
                *self == *old(self),
                old(self).wf(),
                handler_arity == channels@.len(),
                forall|k: int| 0 <= k < i ==> (#[trigger] channels@[k]) < n,
            decreases channels.len() - i,
        {
            if channels[i] >= n {
                proof {
                    assert(!channels_valid(channels@, old(self).n_channels()));
                }
                return Err(JoinError::CrossJunctionPattern);
            }
            i = i + 1;
        }
        let ghost old_bc = self.by_channel@;
        let np = self.patterns.len();
        let mut i: usize = 0;
        while i < channels.len()
            invariant
                i <= channels.len(),
                old(self).wf(),
                handler_arity == channels@.len(),
                np == self.patterns@.len(),
                channels_valid(channels@, self.queues@.len() as nat),
                self.queues == old(self).queues,
                self.patterns == old(self).patterns,
                self.by_channel@.len() == old_bc.len(),
                old_bc == old(self).by_channel@,
                forall|c: int|
                    0 <= c < old_bc.len() ==> #[trigger] self.by_channel@[c]@ == if has_id(
                        channels@.take(i as int),
                        c,
                    ) {
                        old_bc[c]@.push(np)
                    } else {
                        old_bc[c]@
                    },
            decreases channels.len() - i,
        {
            let c = channels[i];
            proof {
                lemma_take_succ(channels@, i as int);
            }
            if !contains_before(&channels, c, i) {
                self.by_channel[c].push(np);
            }
            proof {
                assert forall|d: int| 0 <= d < old_bc.len() implies #[trigger] self
                    .by_channel@[d]@ == if has_id(channels@.take(i + 1), d) {
                    old_bc[d]@.push(np)
                } else {
                    old_bc[d]@
                } by {
                    lemma_has_id_push(channels@.take(i as int), c, d);
                }
            }
            i = i + 1;
        }
        proof {
            assert(channels@.take(channels@.len() as int) =~= channels@);
        }
        self.patterns.push(Pattern { channels });
        proof {
            self.lemma_register_wf(*old(self), old_bc, np);
            assert(final(self).patterns_model() =~= old(self).patterns_model().push(
                final(self).patterns@[np as int].channels@,
            ));
        }
        Ok(np)
    }

    /// Registration preserves the invariant: `self` is `prev` with one
    /// pattern appended and its first-occurrence channels indexed.
    proof fn lemma_register_wf(self, prev: Self, prev_bc: Seq<Vec<usize>>, np: usize)
        requires
            prev.wf(),
            np as int == prev.patterns@.len(),
            self.queues == prev.queues,
            prev_bc == prev.by_channel@,
            self.patterns@.len() == np + 1,
            forall|p: int| 0 <= p < np ==> self.patterns@[p] == prev.patterns@[p],
            channels_valid(self.patterns@[np as int].channels@, self.queues@.len() as nat),
            self.by_channel@.len() == prev_bc.len(),
            forall|c: int|
                0 <= c < prev_bc.len() ==> #[trigger] self.by_channel@[c]@ == if has_id(
                    self.patterns@[np as int].channels@,
                    c,
                ) {
                    prev_bc[c]@.push(np)
                } else {
                    prev_bc[c]@
                },
        ensures
            self.wf(),
    {
        assert forall|c: int| 0 <= c < self.by_channel@.len() implies self.index_entries_wf(c) by {
            assert(prev.index_entries_wf(c));
            let s = self.by_channel@[c]@;
            let s0 = prev_bc[c]@;
            assert(s == s0.push(np) || s == s0);
            assert forall|k: int|
                0 <= k < s.len() implies (#[trigger] s[k]) < self.patterns@.len() && has_id(
                self.patterns@[s[k] as int].channels@,
                c,
            ) by {
                if k < s0.len() {
                    assert(s[k] == s0[k]);
                    assert(s0[k] < prev.patterns@.len());
                    assert(has_id(prev.patterns@[s0[k] as int].channels@, c));
                    assert(self.patterns@[s0[k] as int] == prev.patterns@[s0[k] as int]);
                } else {
                    assert(s == s0.push(np));
                    assert(k == s0.len());
                    assert(s[k] == np);
                    assert(has_id(self.patterns@[np as int].channels@, c));
                }
            }
            assert forall|k1: int, k2: int| 0 <= k1 < k2 < s.len() implies s[k1] < s[k2] by {
                if k2 < s0.len() {
                    assert(s[k1] == s0[k1] && s[k2] == s0[k2]);
                    assert(s0[k1] < s0[k2]);
                } else {
                    assert(s == s0.push(np));
                    assert(k2 == s0.len());
                    assert(s[k2] == np);
                    assert(s[k1] == s0[k1]);
                    assert(s0[k1] < prev.patterns@.len());
                }
            }
        }
        assert forall|c: int, p: int|
            0 <= c < self.by_channel@.len() && 0 <= p < self.patterns@.len() && has_id(
                (#[trigger] self.patterns@[p]).channels@,
                c,
            ) implies has_id(#[trigger] self.by_channel@[c]@, p) by {
            let s = self.by_channel@[c]@;
            let s0 = prev_bc[c]@;
            if p < np {
                assert(self.patterns@[p] == prev.patterns@[p]);
                assert(has_id(prev.by_channel@[c]@, p));
                let k = choose|k: int| 0 <= k < s0.len() && s0[k] as int == p;
                assert(s == s0.push(np) || s == s0);
                assert(s[k] as int == p);
            } else {
                assert(p == np);
                assert(s == s0.push(np));
                assert(s[s0.len() as int] as int == p);
            }
        }
    }

    /// Whether pattern `p` can fire now: every channel it names queues at
    /// least one message per occurrence of that channel in the pattern.
    fn pattern_satisfiable(&self, p: usize) -> (r: bool)
        requires
            self.wf(),
            p < self.n_patterns(),
        ensures
            r == sat(self.queues_model(), self.pattern(p as int)),
    {
        let ghost qs = self.queues_model();
        let ghost pat = self.pattern(p as int);
        let mut i: usize = 0;
        let arity = self.patterns[p].channels.len();
        while i < arity
            invariant
                self.wf(),
                p < self.n_patterns(),
                qs == self.queues_model(),
                pat == self.pattern(p as int),
                arity == pat.len(),
                i <= arity,
                forall|k: int|
                    0 <= k < i ==> count_of(pat, (#[trigger] pat[k]) as int) <= qs[pat[k] as int].len(),
            decreases arity - i,
        {
            let c = self.patterns[p].channels[i];
            let need = count_in_vec(&self.patterns[p].channels, c);
            proof {
                assert(channels_valid(pat, self.queues@.len() as nat));
                assert(pat[i as int] < self.queues@.len());
            }
            if self.queues[c].len() < need {
                proof {
                    assert(count_of(pat, pat[i as int] as int) > qs[pat[i as int] as int].len());
                    assert(!sat(qs, pat));
                }
                return false;
            }
            i = i + 1;
        }
        true
    }

    /// The matching step of a send on channel `c`: scans the patterns naming
    /// `c` in registration order and reports the first satisfiable one.
    fn find_match(&self, c: usize) -> (r: Option<usize>)
        requires
            self.wf(),
            c < self.n_channels(),
        ensures
            match r {
                Option::None => first_match(self.queues_model(), self.patterns_model(), c as int)
                    is None,
                Option::Some(p) => first_match(self.queues_model(), self.patterns_model(), c as int)
                    == Some(p as int),
            },
    {
        let ghost qs = self.queues_model();
        let ghost pats = self.patterns_model();
        let candidates = self.by_channel[c].len();
        let mut j: usize = 0;
        while j < candidates
            invariant
                self.wf(),
                c < self.n_channels(),
                qs == self.queues_model(),
                pats == self.patterns_model(),
                candidates == self.by_channel@[c as int]@.len(),
                j <= candidates,
                forall|k: int|
                    0 <= k < j ==> !sat(qs, pats[(#[trigger] self.by_channel@[c as int]@[k]) as int]),
            decreases candidates - j,
        {
            let p = self.by_channel[c][j];
            proof {
                assert(self.index_entries_wf(c as int));
            }
            if self.pattern_satisfiable(p) {
                proof {
                    let s = self.by_channel@[c as int]@;
                    assert(has_id(pats[p as int], c as int));
                    assert forall|q: int|
                        0 <= q < p && has_id(#[trigger] pats[q], c as int) implies !sat(
                        qs,
                        pats[q],
                    ) by {
                        assert(has_id(self.by_channel@[c as int]@, q));
                        let k = choose|k: int| 0 <= k < s.len() && s[k] as int == q;
                        if k > j as int {
                            assert(s[j as int] < s[k]);
                        } else if k < j as int {
                            assert(!sat(qs, pats[s[k] as int]));
                        }
                    }
                    lemma_first_match_at(qs, pats, c as int, 0, p as int);
                }
                return Some(p);
            }
            j = j + 1;
        }
        proof {
            let s = self.by_channel@[c as int]@;
            assert forall|q: int|
                0 <= q < pats.len() && has_id(#[trigger] pats[q], c as int) implies !sat(
                qs,
                pats[q],
            ) by {
                assert(has_id(s, q));
                let k = choose|k: int| 0 <= k < s.len() && s[k] as int == q;
                assert(!sat(qs, pats[s[k] as int]));
            }
            lemma_first_match_none(qs, pats, c as int, 0);
        }
        None
    }

    /// The consumption step of a firing: atomically pops the oldest
    /// remaining message from each channel of pattern `p`, one pop per
    /// pattern position, and returns the popped messages positionally.
    fn fire_pattern(&mut self, p: usize) -> (args: Vec<M>)
        requires
            old(self).wf(),
            p < old(self).n_patterns(),
            sat(old(self).queues_model(), old(self).pattern(p as int)),
        ensures
            final(self).wf(),
            final(self).patterns_model() == old(self).patterns_model(),
            final(self).n_channels() == old(self).n_channels(),
            final(self).queues_model() == consume(
                old(self).queues_model(),
                old(self).pattern(p as int),
            ),
            args@ == fired_args(old(self).queues_model(), old(self).pattern(p as int)),
    {
        let ghost qs = old(self).queues_model();
        let ghost pat = old(self).pattern(p as int);
        let mut args: Vec<M> = Vec::new();
        let arity = self.patterns[p].channels.len();
        let mut i: usize = 0;
        while i < arity
            invariant
                self.wf(),
                p < self.n_patterns(),
                self.patterns == old(self).patterns,
                self.by_channel == old(self).by_channel,
                self.queues@.len() == qs.len(),
                qs == old(self).queues_model(),
                pat == old(self).pattern(p as int),
                sat(qs, pat),
                arity == pat.len(),
                i <= arity,
                args@.len() == i,
                forall|c: int|
                    0 <= c < qs.len() ==> #[trigger] self.queues@[c]@ == qs[c].skip(
                        count_of(pat.take(i as int), c) as int,
                    ),
                forall|j: int|
                    0 <= j < i ==> #[trigger] args@[j] == qs[pat[j] as int][count_of(
                        pat.take(j),
                        pat[j] as int,
                    ) as int],
            decreases arity - i,
        {
            let c = self.patterns[p].channels[i];
            proof {
                assert(channels_valid(pat, self.queues@.len() as nat));
                assert(pat[i as int] < self.queues@.len());
                lemma_count_take_step(pat, c as int, i as int);
                lemma_count_take_le(pat, c as int, i as int + 1, pat.len() as int);
                lemma_count_take_full(pat, c as int);
                assert(count_of(pat, pat[i as int] as int) <= qs[pat[i as int] as int].len());
                assert(count_of(pat.take(i as int), c as int) < qs[c as int].len());
            }
            let ghost snap = *self;
            let ghost pre = self.queues@;
            let m = self.queues[c].remove(0);
            args.push(m);
            proof {
                assert(self.patterns == snap.patterns && self.by_channel == snap.by_channel);
                assert(self.queues@.len() == snap.queues@.len());
                assert forall|c2: int|
                    0 <= c2 < self.by_channel@.len() implies self.index_entries_wf(c2) by {
                    assert(snap.index_entries_wf(c2));
                }
                assert(self.wf());
                let cnt = count_of(pat.take(i as int), c as int) as int;
                lemma_skip_remove_front(qs[c as int], cnt);
                assert(self.queues@[c as int]@ == pre[c as int]@.remove(0));
                assert(self.queues@[c as int]@ == qs[c as int].skip(cnt + 1));
                assert(m == qs[c as int].skip(cnt)[0]);
                assert(m == qs[c as int][cnt]);
                assert forall|d: int|
                    0 <= d < qs.len() implies #[trigger] self.queues@[d]@ == qs[d].skip(
                    count_of(pat.take(i as int + 1), d) as int,
                ) by {
                    lemma_count_take_step(pat, d, i as int);
                    if d != c as int {
                        assert(self.queues@[d]@ == pre[d]@);
                    }
                }
            }
            i = i + 1;
        }
        proof {
            assert forall|d: int|
                0 <= d < qs.len() implies count_of(pat.take(arity as int), d) == count_of(
                pat,
                d,
            ) by {
                lemma_count_take_full(pat, d);
            }
            assert(self.queues_model() =~= consume(qs, pat));
            assert(args@ =~= fired_args(qs, pat));
        }
        args
    }

    /// Appends `m` to channel `c`'s queue, then evaluates the patterns
    /// naming `c` in registration order, all as one atomic step.  When the
    /// earliest registered satisfiable pattern exists it fires: its messages
    /// (the oldest of each of its channels, the new one included) are removed
    /// and returned positionally for dispatch.  When no pattern naming `c`
    /// is satisfiable the message stays queued and nothing else changes.
    pub fn send(&mut self, c: usize, m: M) -> (fired: Option<Firing<M>>)
        requires
            old(self).wf(),
            c < old(self).n_channels(),
        ensures
            final(self).wf(),
            final(self).patterns_model() == old(self).patterns_model(),
            final(self).n_channels() == old(self).n_channels(),
            ({
                let q1 = enqueue(old(self).queues_model(), c as int, m);
                let pats = old(self).patterns_model();
                match fired {
                    Option::None => {
                        &&& first_match(q1, pats, c as int) is None
                        &&& final(self).queues_model() == q1
                    },
                    Option::Some(f) => {
                        &&& first_match(q1, pats, c as int) == Some(f.pattern as int)
                        &&& f.pattern < pats.len()
                        &&& final(self).queues_model() == consume(q1, pats[f.pattern as int])
                        &&& f.args@ == fired_args(q1, pats[f.pattern as int])
                        &&& f.args@.len() == pats[f.pattern as int].len()
                    },
                }
            }),
    {
        let ghost q1 = enqueue(old(self).queues_model(), c as int, m);
        let ghost snap = *old(self);
        self.queues[c].push(m);
        proof {
            assert(self.patterns == snap.patterns && self.by_channel == snap.by_channel);
            assert(self.queues@.len() == snap.queues@.len());
            assert forall|c2: int|
                0 <= c2 < self.by_channel@.len() implies self.index_entries_wf(c2) by {
                assert(snap.index_entries_wf(c2));
            }
            assert(self.wf());
            assert(self.queues_model() =~= q1);
        }
        let r = self.find_match(c);
        match r {
            None => None,
            Some(p) => {
                proof {
                    lemma_first_match_least(
                        self.queues_model(),
                        self.patterns_model(),
                        c as int,
                        0,
                        p as int,
                    );
                }
                let args = self.fire_pattern(p);
                Some(Firing { pattern: p, args })
            },
        }
    }

    /// The arity of registered pattern `p`.
    pub fn pattern_arity(&self, p: usize) -> (n: usize)
        requires
            p < self.n_patterns(),
        ensures
            n == self.pattern(p as int).len(),
    {
        self.patterns[p].channels.len()
    }
}

/// Whether `c` occurs among the first `n` entries of `v`.
fn contains_before(v: &Vec<usize>, c: usize, n: usize) -> (r: bool)
    requires
        n <= v@.len(),
    ensures
        r == has_id(v@.take(n as int), c as int),
{
    let mut j: usize = 0;
    while j < n
        invariant
            j <= n <= v@.len(),
            forall|k: int| 0 <= k < j ==> (#[trigger] v@[k]) != c,
        decreases n - j,
    {
        if v[j] == c {
            proof {
                assert(v@.take(n as int)[j as int] as int == c as int);
            }
            return true;
        }
        j = j + 1;
    }
    proof {
        if has_id(v@.take(n as int), c as int) {
            let k = choose|k: int|
                0 <= k < v@.take(n as int).len() && v@.take(n as int)[k] as int == c as int;
            assert(v@[k] == c);
        }
    }
    false
}

/// Number of occurrences of `c` in `v`.
fn count_in_vec(v: &Vec<usize>, c: usize) -> (n: usize)
    ensures
        n == count_of(v@, c as int),
{
    let mut n: usize = 0;
    let mut i: usize = 0;
    while i < v.len()
        invariant
            i <= v@.len(),
            n <= i,
            n == count_of(v@.take(i as int), c as int),
        decreases v@.len() - i,
    {
        proof {
            lemma_count_take_step(v@, c as int, i as int);
        }
        if v[i] == c {
            n = n + 1;
        }
        i = i + 1;
    }
    proof {
        lemma_count_take_full(v@, c as int);
    }
    n
}

} // verus!
