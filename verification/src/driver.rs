//! The animation driver: one session owns the array and at most one
//! running step engine.
//!
//! The host shell owns the real frame clock and renderer.  It calls
//! [`Session::frame_tick`] once per frame callback, renders the projection
//! returned by [`Session::vertices`] exactly once per tick, and requests
//! another frame while the tick reports `Continue`.  When a tick reports
//! `Done` the session has already moved to `Completed` and the shell
//! delivers the completion signal.  Starting an animation while one is
//! running is rejected explicitly; a running animation can also be
//! cancelled, which discards the engine state without completing.

use vstd::prelude::*;
use vstd::multiset::Multiset;
use crate::array::ArrayModel;
use crate::bibubble::BiBubbleEngine;
use crate::bubble::BubbleEngine;
use crate::insertion::InsertionEngine;
use crate::merge::MergeEngine;
use crate::quick::QuickEngine;
use crate::sortspec::sorted;
use crate::sortspec::wsum;
use crate::vertex::Vertex;
use crate::vertex::spec_project;
use crate::vertex::project;
use crate::TickResult;

verus! {

#[derive(Clone, Copy, PartialEq, Eq, Structural, Debug)]
pub enum Algorithm {
    Bubble,
    BiBubble,
    Insertion,
    Merge,
    Quick,
}

#[derive(Clone, Copy, PartialEq, Eq, Structural, Debug)]
pub enum Phase {
    Idle,
    Running,
    Completed,
}

/// Starting an animation while another is running is rejected, never
/// silently interleaved.
#[derive(Clone, Copy, PartialEq, Eq, Structural, Debug)]
pub enum StartError {
    AlreadyRunning,
}

/// A step engine together with its resumption state.
pub enum Engine {
    Bubble(BubbleEngine),
    BiBubble(BiBubbleEngine),
    Insertion(InsertionEngine),
    Merge(MergeEngine),
    Quick(QuickEngine),
}

impl Engine {
    pub open spec fn wf(&self, s: Seq<u16>) -> bool {
        match self {
            Engine::Bubble(e) => e.wf(s),
            Engine::BiBubble(e) => e.wf(s),
            Engine::Insertion(e) => e.wf(s),
            Engine::Merge(e) => e.wf(s),
            Engine::Quick(e) => e.wf(s),
        }
    }

    /// How the starting multiset is tracked between ticks: the swap-only
    /// engines keep the array a permutation at every tick boundary; the
    /// merge engine carries it through its copy buffer.
    pub open spec fn tracks(&self, s: Seq<u16>, ms: Multiset<u16>) -> bool {
        match self {
            Engine::Merge(e) => e.init@ == ms,
            _ => s.to_multiset() == ms,
        }
    }
}

pub struct Session {
    array: ArrayModel,
    phase: Phase,
    engine: Option<Engine>,
    speed: u16,
    start_ms: Ghost<Multiset<u16>>,
}

impl View for Session {
    type V = Seq<u16>;

    closed spec fn view(&self) -> Seq<u16> {
        self.array@
    }
}

impl Session {
    pub closed spec fn spec_phase(&self) -> Phase {
        self.phase
    }

    pub closed spec fn spec_speed(&self) -> u16 {
        self.speed
    }

    /// Counted mutations of the most recent tick.
    pub closed spec fn spec_mods(&self) -> nat {
        self.array.spec_mods()
    }

    /// The multiset of elements the running animation started from.
    pub closed spec fn spec_start_ms(&self) -> Multiset<u16> {
        self.start_ms@
    }

    /// Which algorithm is currently loaded, if any.
    pub closed spec fn spec_algorithm(&self) -> Option<Algorithm> {
        match self.engine {
            Some(Engine::Bubble(_)) => Some(Algorithm::Bubble),
            Some(Engine::BiBubble(_)) => Some(Algorithm::BiBubble),
            Some(Engine::Insertion(_)) => Some(Algorithm::Insertion),
            Some(Engine::Merge(_)) => Some(Algorithm::Merge),
            Some(Engine::Quick(_)) => Some(Algorithm::Quick),
            None => None,
        }
    }

    /// Progress potential of the running animation: each engine's own
    /// non-negative measure.  Every `Continue` tick strictly decreases it,
    /// so an animation completes after a bounded number of ticks.
    pub closed spec fn spec_measure(&self) -> int {
        match self.engine {
            Some(Engine::Bubble(_)) => wsum(self.array@),
            Some(Engine::BiBubble(_)) => wsum(self.array@),
            Some(Engine::Insertion(_)) => wsum(self.array@),
            Some(Engine::Merge(e)) => e.spec_measure(self.array@),
            Some(Engine::Quick(e)) => e.spec_measure(),
            None => 0,
        }
    }

    pub closed spec fn wf(&self) -> bool {
        &&& self.array.wf()
        &&& (self.phase is Running <==> self.engine is Some)
        &&& match self.engine {
            Some(e) => e.wf(self.array@) && self.speed >= 1 && e.tracks(
                self.array@,
                self.start_ms@,
            ),
            None => true,
        }
    }

    /// A session over the sorted permutation `1..=len`.
    pub fn new(len: u16) -> (r: Session)
        ensures
            r.wf(),
            r@ == Seq::new(len as nat, |i: int| (i + 1) as u16),
            r.spec_phase() is Idle,
    {
        Session {
            array: ArrayModel::new(len),
            phase: Phase::Idle,
            engine: None,
            speed: 1,
            start_ms: Ghost(Multiset::empty()),
        }
    }

    pub fn len(&self) -> (r: usize)
        ensures
            r == self@.len(),
    {
        self.array.len()
    }

    pub fn phase(&self) -> (r: Phase)
        ensures
            r == self.spec_phase(),
    {
        self.phase
    }

    /// Counted mutations of the most recent tick.
    pub fn mods(&self) -> (r: usize)
        ensures
            r == self.spec_mods(),
    {
        self.array.mods()
    }

    /// A copy of the current array contents.
    pub fn values(&self) -> (r: Vec<u16>)
        ensures
            r@ == self@,
    {
        self.array.snapshot()
    }

    /// The renderable projection of the current array contents.
    pub fn vertices(&self) -> (r: Vec<Vertex>)
        requires
            self.wf(),
        ensures
            r@ == spec_project(self@),
            r@.len() == 2 * self@.len(),
    {
        project(&self.array)
    }

    /// Shuffle the array into a random order.  Rejected while an animation
    /// is running: the engine's resumption state would no longer describe
    /// the array.
    pub fn shuffle(&mut self)
        requires
            old(self).wf(),
            !(old(self).spec_phase() is Running),
        ensures
            final(self).wf(),
            final(self)@.to_multiset() == old(self)@.to_multiset(),
            final(self)@.len() == old(self)@.len(),
            final(self).spec_phase() == old(self).spec_phase(),
    {
        self.array.shuffle();
    }

    /// Reverse the array order.  Rejected while an animation is running,
    /// as for [`Self::shuffle`].
    pub fn reverse(&mut self)
        requires
            old(self).wf(),
            !(old(self).spec_phase() is Running),
        ensures
            final(self).wf(),
            final(self)@ == old(self)@.reverse(),
            final(self).spec_phase() == old(self).spec_phase(),
    {
        self.array.reverse();
    }

    /// Begin animating `alg` at `speed` swaps per frame.  Rejects a start
    /// while another animation is running and changes nothing in that
    /// case.
    pub fn start(&mut self, alg: Algorithm, speed: u16) -> (r: Result<(), StartError>)
        requires
            old(self).wf(),
            speed >= 1,
        ensures
            final(self).wf(),
            final(self)@ == old(self)@,
            old(self).spec_phase() is Running ==> r == Err::<(), StartError>(
                StartError::AlreadyRunning,
            ) && *final(self) == *old(self),
            !(old(self).spec_phase() is Running) ==> {
                &&& r == Ok::<(), StartError>(())
                &&& final(self).spec_phase() is Running
                &&& final(self).spec_speed() == speed
                &&& final(self).spec_start_ms() == old(self)@.to_multiset()
                &&& final(self).spec_algorithm() == Some(alg)
            },
    {
        if let Phase::Running = self.phase {
            return Err(StartError::AlreadyRunning);
        }
        let engine = match alg {
            Algorithm::Bubble => Engine::Bubble(BubbleEngine::new(&self.array)),
            Algorithm::BiBubble => Engine::BiBubble(BiBubbleEngine::new(&self.array)),
            Algorithm::Insertion => Engine::Insertion(InsertionEngine::new(&self.array)),
            Algorithm::Merge => Engine::Merge(MergeEngine::new(&self.array)),
            Algorithm::Quick => Engine::Quick(QuickEngine::new(&self.array)),
        };
        self.engine = Some(engine);
        self.phase = Phase::Running;
        self.speed = speed;
        proof {
            self.start_ms@ = self.array@.to_multiset();
        }
        Ok(())
    }

    /// One frame callback: advance the running engine by one tick.  While
    /// the tick reports `Continue` it performed exactly `speed` counted
    /// operations and strictly decreased the progress potential, and the
    /// shell must request another frame; on `Done` the session is
    /// `Completed` and the array is sorted and holds exactly the elements
    /// the animation started with.  The three engines whose every counted
    /// operation is an adjacent swap finish an array of at most one
    /// element on their very first tick, with zero operations.
    pub fn frame_tick(&mut self) -> (r: TickResult)
        requires
            old(self).wf(),
            old(self).spec_phase() is Running,
        ensures
            final(self).wf(),
            final(self)@.len() == old(self)@.len(),
            final(self).spec_mods() <= old(self).spec_speed() as nat,
            r == TickResult::Continue ==> {
                &&& final(self).spec_phase() is Running
                &&& final(self).spec_speed() == old(self).spec_speed()
                &&& final(self).spec_start_ms() == old(self).spec_start_ms()
                &&& final(self).spec_algorithm() == old(self).spec_algorithm()
                &&& final(self).spec_mods() == old(self).spec_speed() as nat
                &&& final(self).spec_measure() < old(self).spec_measure()
            },
            r == TickResult::Done ==> {
                &&& final(self).spec_phase() is Completed
                &&& final(self)@.to_multiset() == old(self).spec_start_ms()
                &&& sorted(final(self)@)
            },
            ({
                let alg = old(self).spec_algorithm();
                old(self)@.len() <= 1 && (alg == Some(Algorithm::Bubble) || alg == Some(
                    Algorithm::BiBubble,
                ) || alg == Some(Algorithm::Insertion))
            }) ==> r == TickResult::Done && final(self).spec_mods() == 0,
    {
        let speed = self.speed;
        let r = match &mut self.engine {
            Some(Engine::Bubble(e)) => e.tick(&mut self.array, speed),
            Some(Engine::BiBubble(e)) => e.tick(&mut self.array, speed),
            Some(Engine::Insertion(e)) => e.tick(&mut self.array, speed),
            Some(Engine::Merge(e)) => e.tick(&mut self.array, speed),
            Some(Engine::Quick(e)) => e.tick(&mut self.array, speed),
            None => {
                proof {
                    assert(false);
                }
                TickResult::Done
            },
        };
        if let TickResult::Done = r {
            self.engine = None;
            self.phase = Phase::Completed;
        }
        r
    }

    /// Stop a running animation, discarding the engine state.  The shell
    /// must stop
    /// requesting frames and resolve the completion signal as cancelled.
    pub fn cancel(&mut self)
        requires
            old(self).wf(),
        ensures
            final(self).wf(),
            final(self)@ == old(self)@,
            final(self).spec_phase() is Idle,
    {
        self.engine = None;
        self.phase = Phase::Idle;
    }

    /// Begin a bubble sort animation.
    pub fn bubble_sort(&mut self, speed: u16) -> (r: Result<(), StartError>)
        requires
            old(self).wf(),
            speed >= 1,
        ensures
            final(self).wf(),
            final(self)@ == old(self)@,
            old(self).spec_phase() is Running ==> r is Err && *final(self) == *old(self),
            !(old(self).spec_phase() is Running) ==> {
                &&& r is Ok
                &&& final(self).spec_phase() is Running
                &&& final(self).spec_speed() == speed
                &&& final(self).spec_start_ms() == old(self)@.to_multiset()
                &&& final(self).spec_algorithm() == Some(Algorithm::Bubble)
            },
    {
        self.start(Algorithm::Bubble, speed)
    }

    /// Begin a bidirectional bubble sort animation.
    pub fn bi_bubble_sort(&mut self, speed: u16) -> (r: Result<(), StartError>)
        requires
            old(self).wf(),
            speed >= 1,
        ensures
            final(self).wf(),
            final(self)@ == old(self)@,
            old(self).spec_phase() is Running ==> r is Err && *final(self) == *old(self),
            !(old(self).spec_phase() is Running) ==> {
                &&& r is Ok
                &&& final(self).spec_phase() is Running
                &&& final(self).spec_speed() == speed
                &&& final(self).spec_start_ms() == old(self)@.to_multiset()
                &&& final(self).spec_algorithm() == Some(Algorithm::BiBubble)
            },
    {
        self.start(Algorithm::BiBubble, speed)
    }

    /// Begin an insertion sort animation.
    pub fn insertion_sort(&mut self, speed: u16) -> (r: Result<(), StartError>)
        requires
            old(self).wf(),
            speed >= 1,
        ensures
            final(self).wf(),
            final(self)@ == old(self)@,
            old(self).spec_phase() is Running ==> r is Err && *final(self) == *old(self),
            !(old(self).spec_phase() is Running) ==> {
                &&& r is Ok
                &&& final(self).spec_phase() is Running
                &&& final(self).spec_speed() == speed
                &&& final(self).spec_start_ms() == old(self)@.to_multiset()
                &&& final(self).spec_algorithm() == Some(Algorithm::Insertion)
            },
    {
        self.start(Algorithm::Insertion, speed)
    }

    /// Begin a merge sort animation.
    pub fn merge_sort(&mut self, speed: u16) -> (r: Result<(), StartError>)
        requires
            old(self).wf(),
            speed >= 1,
        ensures
            final(self).wf(),
            final(self)@ == old(self)@,
            old(self).spec_phase() is Running ==> r is Err && *final(self) == *old(self),
            !(old(self).spec_phase() is Running) ==> {
                &&& r is Ok
                &&& final(self).spec_phase() is Running
                &&& final(self).spec_speed() == speed
                &&& final(self).spec_start_ms() == old(self)@.to_multiset()
                &&& final(self).spec_algorithm() == Some(Algorithm::Merge)
            },
    {
        self.start(Algorithm::Merge, speed)
    }

    /// Begin a quick sort animation.
    pub fn quick_sort(&mut self, speed: u16) -> (r: Result<(), StartError>)
        requires
            old(self).wf(),
            speed >= 1,
        ensures
            final(self).wf(),
            final(self)@ == old(self)@,
            old(self).spec_phase() is Running ==> r is Err && *final(self) == *old(self),
            !(old(self).spec_phase() is Running) ==> {
                &&& r is Ok
                &&& final(self).spec_phase() is Running
                &&& final(self).spec_speed() == speed
                &&& final(self).spec_start_ms() == old(self)@.to_multiset()
                &&& final(self).spec_algorithm() == Some(Algorithm::Quick)
            },
    {
        self.start(Algorithm::Quick, speed)
    }
}

} // verus!
