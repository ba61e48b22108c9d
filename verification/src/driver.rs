//! The playback clock: play the timed animation queue frame by frame,
//! committing each step's display patch when it comes due and firing
//! its sound when it starts or lands.
//!
//! All choreography was decided by the planner; this only advances
//! time. Time is whole milliseconds from the frame clock. A step's
//! progress is its elapsed time over its duration, clamped at the end;
//! a step of no duration lands the moment it starts. What the moving
//! object looks like at that progress is the renderer's business: a
//! frame reports the step's kind and progress, not geometry.
use std::collections::VecDeque;
use vstd::prelude::*;
use crate::motion::{Patch, SoundCue, StepKind, TimedStep};

verus! {

/// The step on the felt.
#[derive(Debug)]
pub struct Playing {
    /// The motion it performs.
    pub kind: StepKind,
    /// How long it runs.
    pub duration_ms: u32,
    /// Whether its patch lands halfway through rather than at the end.
    pub patch_at_turn: bool,
    /// The patch still to commit; `None` once it has landed.
    pub patch: Option<Patch>,
    /// Its sound, if any.
    pub sound: Option<SoundCue>,
    /// The frame-clock time at which it began.
    pub start_ms: u64,
}

/// How far the step on the felt has run, for the renderer.
#[derive(Debug, Clone, Copy, PartialEq, Eq, Structural)]
pub struct StepProgress {
    /// The motion.
    pub kind: StepKind,
    /// Milliseconds since it began, below `duration_ms`.
    pub elapsed_ms: u64,
    /// Its full length.
    pub duration_ms: u32,
}

/// What one frame decided.
#[derive(Debug)]
pub struct Frame {
    /// Display patches that came due, to commit in this order.
    pub patches: Vec<Patch>,
    /// Sounds to fire, in this order.
    pub sounds: Vec<SoundCue>,
    /// The step still in motion, if any.
    pub progress: Option<StepProgress>,
    /// Whether another frame is wanted: false once the queue is at rest.
    pub running: bool,
}

/// The animation queue and the step playing from it.
#[derive(Debug)]
pub struct Playback {
    /// Steps waiting to play, front first. New plans append; nothing is
    /// ever dropped.
    pub queue: VecDeque<TimedStep>,
    /// The step on the felt.
    pub current: Option<Playing>,
}

/// Milliseconds a step begun at `start` has run at `now` (none before it began).
pub open spec fn elapsed(start: u64, now: u64) -> nat {
    if now >= start {
        (now - start) as nat
    } else {
        0
    }
}

/// Whether a step of `duration` has landed after `e` milliseconds.
pub open spec fn lands(duration: u32, e: nat) -> bool {
    e >= duration
}

/// Whether a step's patch is due after `e` milliseconds: halfway for a
/// patch at the turn, at the end otherwise.
pub open spec fn patch_due(duration: u32, at_turn: bool, e: nat) -> bool {
    if at_turn {
        2 * e >= duration
    } else {
        e >= duration
    }
}

/// The sound a step fires as it begins: the riffle.
pub open spec fn start_cues(sound: Option<SoundCue>) -> Seq<SoundCue> {
    match sound {
        Some(c) => if c == SoundCue::Riffle {
            seq![c]
        } else {
            Seq::empty()
        },
        None => Seq::empty(),
    }
}

/// The sound a step fires as it lands: anything but the riffle.
pub open spec fn end_cues(sound: Option<SoundCue>) -> Seq<SoundCue> {
    match sound {
        Some(c) => if c == SoundCue::Riffle {
            Seq::empty()
        } else {
            seq![c]
        },
        None => Seq::empty(),
    }
}

/// The sounds of steps that begin and land in one frame, in order.
pub open spec fn instant_cues(steps: Seq<TimedStep>) -> Seq<SoundCue>
    decreases steps.len(),
{
    if steps.len() == 0 {
        Seq::empty()
    } else {
        instant_cues(steps.drop_last()) + start_cues(steps.last().sound) + end_cues(steps.last().sound)
    }
}

/// The patches of `steps`, in order.
pub open spec fn patches_of(steps: Seq<TimedStep>) -> Seq<Patch> {
    steps.map_values(|s: TimedStep| s.patch)
}

/// The index of the first step from `i` on that takes time, or the
/// queue's length when every one is instant.
pub open spec fn first_lasting(q: Seq<TimedStep>, i: int) -> int
    decreases q.len() - i,
{
    if i < 0 || i >= q.len() {
        q.len() as int
    } else if q[i].duration_ms > 0 {
        i
    } else {
        first_lasting(q, i + 1)
    }
}

/// A queued step as it starts playing at `now`, its patch pending.
pub open spec fn begin(s: TimedStep, now: u64) -> Playing {
    Playing {
        kind: s.kind,
        duration_ms: s.duration_ms,
        patch_at_turn: s.patch_at_turn,
        patch: Some(s.patch),
        sound: s.sound,
        start_ms: now,
    }
}

/// The patch a landing or turning step commits: its pending one.
pub open spec fn pending_patches(patch: Option<Patch>) -> Seq<Patch> {
    match patch {
        Some(p) => seq![p],
        None => Seq::empty(),
    }
}

/// Every patch still to commit, in the order it will land: the pending
/// patch of the step on the felt, then those of the queue.
pub open spec fn outstanding(p: Playback) -> Seq<Patch> {
    let head = match p.current {
        Some(c) => pending_patches(c.patch),
        None => Seq::empty(),
    };
    head + patches_of(p.queue@)
}

/// The first index from `i` on whose step takes time lies at or past
/// `i`, and every step between is instant.
pub proof fn lemma_first_lasting(q: Seq<TimedStep>, i: int)
    requires
        0 <= i <= q.len(),
    ensures
        i <= first_lasting(q, i) <= q.len(),
        first_lasting(q, i) < q.len() ==> q[first_lasting(q, i)].duration_ms > 0,
        forall|j: int| i <= j < first_lasting(q, i) ==> (#[trigger] q[j]).duration_ms == 0,
    decreases q.len() - i,
{
    if i < q.len() && q[i].duration_ms == 0 {
        lemma_first_lasting(q, i + 1);
    }
}

impl Playback {
    /// An empty queue, at rest.
    pub fn new() -> (p: Playback)
        ensures
            p.queue@ == Seq::<TimedStep>::empty(),
            p.current is None,
    {
        Playback { queue: VecDeque::new(), current: None }
    }

    /// Append a plan's steps to the queue, behind what is already there.
    pub fn enqueue(&mut self, steps: Vec<TimedStep>)
        ensures
            final(self).queue@ == old(self).queue@ + steps@,
            final(self).current == old(self).current,
            outstanding(*final(self)) == outstanding(*old(self)) + patches_of(steps@),
    {
        let mut steps = steps;
        let ghost all = steps@;
        let mut rest: Vec<TimedStep> = Vec::new();
        // Reverse so that popping takes the steps front first.
        while steps.len() > 0
            invariant
                steps@ + rest@.reverse() == all,
                self.queue@ == old(self).queue@,
                self.current == old(self).current,
            decreases steps.len(),
        {
            let ghost before = steps@;
            let s = steps.pop().unwrap();
            let ghost r0 = rest@;
            rest.push(s);
            proof {
                assert(rest@.reverse() =~= seq![s] + r0.reverse());
                assert(before =~= steps@.push(s));
                assert(steps@ + rest@.reverse() =~= before + r0.reverse());
            }
        }
        proof {
            assert(steps@ + rest@.reverse() =~= rest@.reverse());
        }
        while rest.len() > 0
            invariant
                self.queue@ + rest@.reverse() == old(self).queue@ + all,
                self.current == old(self).current,
            decreases rest.len(),
        {
            let ghost before = rest@;
            let s = rest.pop().unwrap();
            let ghost q0 = self.queue@;
            self.queue.push_back(s);
            proof {
                assert(before =~= rest@.push(s));
                assert(before.reverse() =~= seq![s] + rest@.reverse());
                assert(self.queue@ + rest@.reverse() =~= q0 + before.reverse());
            }
        }
        proof {
            assert(rest@.reverse() =~= Seq::<TimedStep>::empty());
            assert(self.queue@ =~= self.queue@ + rest@.reverse());
            assert(patches_of(self.queue@) =~= patches_of(old(self).queue@) + patches_of(all));
        }
    }

    /// Whether nothing is playing and nothing waits.
    pub fn is_idle(&self) -> (b: bool)
        ensures
            b == (self.current is None && self.queue@.len() == 0),
    {
        self.current.is_none() && self.queue.len() == 0
    }

    /// One frame at frame-clock time `now_ms`: advance the step on the
    /// felt, committing its patch once due; when it lands, start the
    /// steps behind it, landing at once every one of no duration, until
    /// one takes time or the queue runs dry.
    pub fn tick(&mut self, now_ms: u64) -> (f: Frame)
        ensures
            f.patches@ + outstanding(*final(self)) == outstanding(*old(self)),
            ({
                let q0 = old(self).queue@;
                let c0 = old(self).current;
                if c0 is Some && !lands(c0->0.duration_ms, elapsed(c0->0.start_ms, now_ms)) {
                    let p = c0->0;
                    let due = patch_due(p.duration_ms, p.patch_at_turn, elapsed(p.start_ms, now_ms));
                    &&& final(self).queue@ == q0
                    &&& final(self).current == Some(Playing { patch: if due { None } else { p.patch }, ..p })
                    &&& f.patches@ == if due { pending_patches(p.patch) } else { Seq::empty() }
                    &&& f.sounds@ == Seq::<SoundCue>::empty()
                    &&& f.progress == Some(
                        StepProgress {
                            kind: p.kind,
                            elapsed_ms: elapsed(p.start_ms, now_ms) as u64,
                            duration_ms: p.duration_ms,
                        },
                    )
                    &&& f.running
                } else {
                    let k = first_lasting(q0, 0);
                    let head_patches = match c0 {
                        Some(p) => pending_patches(p.patch),
                        None => Seq::empty(),
                    };
                    let head_sounds = match c0 {
                        Some(p) => end_cues(p.sound),
                        None => Seq::empty(),
                    };
                    &&& f.patches@ == head_patches + patches_of(q0.take(k))
                    &&& k < q0.len() ==> {
                        &&& f.sounds@ == head_sounds + instant_cues(q0.take(k)) + start_cues(q0[k].sound)
                        &&& final(self).queue@ == q0.skip(k + 1)
                        &&& final(self).current == Some(begin(q0[k], now_ms))
                        &&& f.progress == Some(
                            StepProgress { kind: q0[k].kind, elapsed_ms: 0, duration_ms: q0[k].duration_ms },
                        )
                        &&& f.running
                    }
                    &&& k == q0.len() ==> {
                        &&& f.sounds@ == head_sounds + instant_cues(q0)
                        &&& final(self).queue@ == Seq::<TimedStep>::empty()
                        &&& final(self).current is None
                        &&& f.progress is None
                        &&& !f.running
                    }
                }
            }),
    {
        let ghost q0 = self.queue@;
        let ghost c0 = self.current;
        let mut patches: Vec<Patch> = Vec::new();
        let mut sounds: Vec<SoundCue> = Vec::new();
        // The step on the felt.
        match self.current.take() {
            Some(p) => {
                let Playing { kind, duration_ms, patch_at_turn, patch, sound, start_ms } = p;
                let e: u64 = if now_ms >= start_ms {
                    now_ms - start_ms
                } else {
                    0
                };
                let due = if patch_at_turn {
                    e >= (duration_ms as u64 + 1) / 2
                } else {
                    e >= duration_ms as u64
                };
                let mut patch = patch;
                if due {
                    match patch {
                        Some(x) => patches.push(x),
                        None => {},
                    }
                    patch = None;
                }
                if e < duration_ms as u64 {
                    self.current = Some(Playing { kind, duration_ms, patch_at_turn, patch, sound, start_ms });
                    return Frame {
                        patches,
                        sounds,
                        progress: Some(StepProgress { kind, elapsed_ms: e, duration_ms }),
                        running: true,
                    };
                }
                match sound {
                    Some(c) => if !c.at_step_start() {
                        sounds.push(c);
                    },
                    None => {},
                }
            },
            None => {},
        }
        let ghost head_patches = patches@;
        let ghost head_sounds = sounds@;
        proof {
            lemma_first_lasting(q0, 0);
            assert(q0.take(0) =~= Seq::<TimedStep>::empty());
            assert(patches_of(q0.take(0)) =~= Seq::<Patch>::empty());
            assert(head_patches + patches_of(q0.take(0)) =~= head_patches);
            assert(head_sounds + instant_cues(q0.take(0)) =~= head_sounds);
            assert(q0.skip(0) =~= q0);
        }
        // The steps behind it start now.
        let ghost mut k: int = 0;
        loop
            invariant
                0 <= k <= q0.len(),
                self.current is None,
                self.queue@ == q0.skip(k),
                first_lasting(q0, k) == first_lasting(q0, 0),
                k <= first_lasting(q0, 0),
                patches@ == head_patches + patches_of(q0.take(k)),
                sounds@ == head_sounds + instant_cues(q0.take(k)),
                head_patches == match c0 {
                    Some(p) => pending_patches(p.patch),
                    None => Seq::<Patch>::empty(),
                },
                head_sounds == match c0 {
                    Some(p) => end_cues(p.sound),
                    None => Seq::<SoundCue>::empty(),
                },
                c0 matches Some(p) ==> lands(p.duration_ms, elapsed(p.start_ms, now_ms)),
                q0 == old(self).queue@,
                c0 == old(self).current,
            decreases q0.len() - k,
        {
            proof {
                lemma_first_lasting(q0, k);
            }
            match self.queue.pop_front() {
                None => {
                    proof {
                        assert(q0.skip(k).len() == 0);
                        assert(k == q0.len());
                        assert(q0.take(k) =~= q0);
                    }
                    return Frame { patches, sounds, progress: None, running: false };
                },
                Some(step) => {
                    let ghost s = step;
                    proof {
                        assert(s == q0[k]);
                    }
                    let TimedStep { kind, duration_ms, patch_at_turn, patch, sound } = step;
                    let ghost s0 = sounds@;
                    match sound {
                        Some(c) => if c.at_step_start() {
                            sounds.push(c);
                        },
                        None => {},
                    }
                    proof {
                        assert(sounds@ =~= s0 + start_cues(s.sound));
                    }
                    if duration_ms > 0 {
                        self.current = Some(
                            Playing { kind, duration_ms, patch_at_turn, patch: Some(patch), sound, start_ms: now_ms },
                        );
                        proof {
                            assert(first_lasting(q0, k) == k);
                            assert(self.queue@ =~= q0.skip(k + 1));
                        }
                        return Frame {
                            patches,
                            sounds,
                            progress: Some(StepProgress { kind, elapsed_ms: 0, duration_ms }),
                            running: true,
                        };
                    }
                    let ghost p0 = patches@;
                    patches.push(patch);
                    let ghost s1 = sounds@;
                    match sound {
                        Some(c) => if !c.at_step_start() {
                            sounds.push(c);
                        },
                        None => {},
                    }
                    proof {
                        lemma_first_lasting(q0, k + 1);
                        assert(sounds@ =~= s1 + end_cues(s.sound));
                        assert(q0.take(k + 1).drop_last() =~= q0.take(k));
                        assert(q0.take(k + 1).last() == s);
                        assert(patches_of(q0.take(k + 1)) =~= patches_of(q0.take(k)).push(s.patch));
                        assert(patches@ =~= head_patches + patches_of(q0.take(k + 1)));
                        assert(sounds@ =~= head_sounds + instant_cues(q0.take(k + 1)));
                        assert(self.queue@ =~= q0.skip(k + 1));
                        k = k + 1;
                    }
                },
            }
        }
    }
}

} // verus!
