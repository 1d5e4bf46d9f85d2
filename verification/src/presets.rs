//! Named chord presets for the preset-triggered modes: a set of trigger
//! pitches, a sequence of step pitches, and a tick rate.

use vstd::prelude::*;

verus! {

#[derive(Debug)]
pub struct Preset {
    pub trigger: Vec<u8>,
    pub steps: Vec<u8>,
    pub ticks_per_step: usize,
}

impl Preset {
    pub open spec fn wf(self) -> bool {
        &&& forall|i: int| 0 <= i < self.trigger@.len() ==> #[trigger] self.trigger@[i] <= 127
        &&& forall|i: int| 0 <= i < self.steps@.len() ==> #[trigger] self.steps@[i] <= 127
        &&& self.steps@.len() >= 1
        &&& self.ticks_per_step >= 1
        &&& self.steps@.len() * self.ticks_per_step <= usize::MAX
    }

    /// A preset fires when its trigger pitches and the incoming note set
    /// are the same set.
    pub fn is_triggered_by(&self, notes: &Vec<u8>) -> (r: bool)
        ensures
            r <==> self.trigger@.to_set() == notes@.to_set(),
    {
        let forward = all_contained(&self.trigger, notes);
        let backward = all_contained(notes, &self.trigger);
        proof {
            if forward && backward {
                assert(self.trigger@.to_set() =~= notes@.to_set());
            }
            if self.trigger@.to_set() == notes@.to_set() {
                assert forall|i: int|
                    0 <= i < self.trigger@.len() implies notes@.contains(
                    #[trigger] self.trigger@[i],
                ) by {
                    assert(self.trigger@.to_set().contains(self.trigger@[i]));
                }
                assert forall|i: int|
                    0 <= i < notes@.len() implies self.trigger@.contains(#[trigger] notes@[i]) by {
                    assert(notes@.to_set().contains(notes@[i]));
                }
            }
        }
        forward && backward
    }

    pub fn duplicate(&self) -> (r: Preset)
        ensures
            r.trigger@ == self.trigger@,
            r.steps@ == self.steps@,
            r.ticks_per_step == self.ticks_per_step,
    {
        Preset {
            trigger: duplicate_pitches(&self.trigger),
            steps: duplicate_pitches(&self.steps),
            ticks_per_step: self.ticks_per_step,
        }
    }
}

/// Whether every element of `xs` occurs in `ys`.
fn all_contained(xs: &Vec<u8>, ys: &Vec<u8>) -> (r: bool)
    ensures
        r <==> forall|i: int| 0 <= i < xs@.len() ==> ys@.contains(#[trigger] xs@[i]),
{
    let n: usize = xs.len();
    let mut i: usize = 0;
    while i < n
        invariant
            i <= n,
            n == xs@.len(),
            forall|j: int| 0 <= j < i ==> ys@.contains(#[trigger] xs@[j]),
        decreases n - i,
    {
        if !contains_pitch(ys, xs[i]) {
            return false;
        }
        i = i + 1;
    }
    true
}

/// Whether the pitch occurs in the vector.
pub fn contains_pitch(v: &Vec<u8>, p: u8) -> (r: bool)
    ensures
        r == v@.contains(p),
{
    let n: usize = v.len();
    let mut i: usize = 0;
    while i < n
        invariant
            i <= n,
            n == v@.len(),
            forall|j: int| 0 <= j < i ==> v@[j] != p,
        decreases n - i,
    {
        if v[i] == p {
            return true;
        }
        i = i + 1;
    }
    false
}

pub fn duplicate_pitches(v: &Vec<u8>) -> (r: Vec<u8>)
    ensures
        r@ == v@,
{
    let mut out: Vec<u8> = Vec::new();
    let n: usize = v.len();
    let mut i: usize = 0;
    while i < n
        invariant
            i <= n,
            n == v@.len(),
            out@ == v@.take(i as int),
        decreases n - i,
    {
        out.push(v[i]);
        proof {
            assert(out@ =~= v@.take(i + 1));
        }
        i = i + 1;
    }
    proof {
        assert(v@.take(n as int) =~= v@);
    }
    out
}

pub fn duplicate_presets(v: &Vec<Preset>) -> (r: Vec<Preset>)
    ensures
        r@.len() == v@.len(),
        forall|i: int|
            #![trigger r@[i]]
            0 <= i < v@.len() ==> r@[i].trigger@ == v@[i].trigger@ && r@[i].steps@ == v@[i].steps@
                && r@[i].ticks_per_step == v@[i].ticks_per_step,
{
    let mut out: Vec<Preset> = Vec::new();
    let n: usize = v.len();
    let mut i: usize = 0;
    while i < n
        invariant
            i <= n,
            n == v@.len(),
            out@.len() == i,
            forall|j: int|
                #![trigger out@[j]]
                0 <= j < i ==> out@[j].trigger@ == v@[j].trigger@ && out@[j].steps@ == v@[j].steps@
                    && out@[j].ticks_per_step == v@[j].ticks_per_step,
        decreases n - i,
    {
        out.push(v[i].duplicate());
        i = i + 1;
    }
    out
}

} // verus!
