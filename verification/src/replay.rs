use vstd::prelude::*;

use crate::id::Endpoint;
use crate::report::{trace_view, TraceStep};
use crate::rng::{splitmix_output, splitmix_state, Rng};

verus! {

/// A bounded buffer of past run trajectories, each with its graded outcome
/// `E`, kept for offline replay: stored trajectories are sampled and credited
/// again without running any module.
pub struct ReplayBuffer<E> {
    episodes: Vec<(Vec<TraceStep>, E)>,
    capacity: usize,
}

impl<E> ReplayBuffer<E> {
    /// The stored trajectories and outcomes, oldest first.
    pub closed spec fn spec_episodes(&self) -> Seq<(Seq<(Endpoint, Seq<char>)>, E)> {
        self.episodes@.map_values(|e: (Vec<TraceStep>, E)| (trace_view(e.0@), e.1))
    }

    pub closed spec fn spec_capacity(&self) -> usize {
        self.capacity
    }

    /// At least one slot, and no more episodes than that.
    pub closed spec fn wf(&self) -> bool {
        &&& self.capacity >= 1
        &&& self.episodes@.len() <= self.capacity
    }

    /// An empty buffer of `capacity` episodes, at least one.
    pub fn new(capacity: usize) -> (r: Self)
        ensures
            r.wf(),
            r.spec_capacity() == if capacity < 1 {
                1
            } else {
                capacity
            },
            r.spec_episodes() == Seq::<(Seq<(Endpoint, Seq<char>)>, E)>::empty(),
    {
        let r = ReplayBuffer { episodes: Vec::new(), capacity: if capacity < 1 {
            1
        } else {
            capacity
        } };
        assert(r.spec_episodes() =~= Seq::<(Seq<(Endpoint, Seq<char>)>, E)>::empty());
        r
    }

    /// Record a finished run's trajectory and its outcome. An empty
    /// trajectory is ignored; a full buffer drops its oldest episode first.
    pub fn record(&mut self, steps: &[TraceStep], error: E)
        requires
            old(self).wf(),
        ensures
            final(self).wf(),
            final(self).spec_capacity() == old(self).spec_capacity(),
            final(self).spec_episodes() == if steps@.len() == 0 {
                old(self).spec_episodes()
            } else if old(self).spec_episodes().len() >= old(self).spec_capacity() {
                old(self).spec_episodes().drop_first().push((trace_view(steps@), error))
            } else {
                old(self).spec_episodes().push((trace_view(steps@), error))
            },
    {
        if steps.len() == 0 {
            return;
        }
        let ghost before = self.spec_episodes();
        let ghost raw = self.episodes@;
        if self.episodes.len() >= self.capacity {
            self.episodes.remove(0);
            assert(self.spec_episodes() =~= before.drop_first()) by {
                assert forall|j: int| 0 <= j < self.episodes@.len() implies #[trigger] self.spec_episodes()[j]
                    == before.drop_first()[j] by {
                    assert(self.episodes@[j] == raw[j + 1]);
                }
            }
        }
        let ghost mid = self.spec_episodes();
        let mut copy: Vec<TraceStep> = Vec::new();
        let mut i: usize = 0;
        while i < steps.len()
            invariant
                i <= steps@.len(),
                copy@.len() == i,
                forall|j: int| 0 <= j < i ==> (#[trigger] copy@[j])@ == steps@[j]@,
            decreases steps@.len() - i,
        {
            copy.push(steps[i].clone());
            i = i + 1;
        }
        assert(trace_view(copy@) =~= trace_view(steps@));
        self.episodes.push((copy, error));
        assert(self.spec_episodes() =~= mid.push((trace_view(steps@), error)));
    }

    pub fn len(&self) -> (r: usize)
        ensures
            r == self.spec_episodes().len(),
    {
        self.episodes.len()
    }

    pub fn is_empty(&self) -> (r: bool)
        ensures
            r == (self.spec_episodes().len() == 0),
    {
        self.episodes.len() == 0
    }

    /// Draw the episode one replay round re-credits: the next number of `rng`
    /// modulo the buffer's size picks it. `None` while the buffer is empty,
    /// and then `rng` is left alone.
    pub fn sample(&self, rng: &mut Rng) -> (r: Option<(&[TraceStep], &E)>)
        ensures
            match r {
                Some((steps, error)) => {
                    let k = (splitmix_output(splitmix_state(old(rng).spec_state())) as usize) as int
                        % self.spec_episodes().len() as int;
                    &&& self.spec_episodes().len() > 0
                    &&& final(rng).spec_state() == splitmix_state(old(rng).spec_state())
                    &&& trace_view(steps@) == self.spec_episodes()[k].0
                    &&& *error == self.spec_episodes()[k].1
                },
                None => self.spec_episodes().len() == 0 && *final(rng) == *old(rng),
            },
    {
        if self.episodes.len() == 0 {
            return None;
        }
        let k = (rng.next_u64() as usize) % self.episodes.len();
        let episode = &self.episodes[k];
        assert(self.spec_episodes()[k as int] == (trace_view(episode.0@), episode.1));
        Some((episode.0.as_slice(), &episode.1))
    }
}

} // verus!
