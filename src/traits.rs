//! Capabilities shared by the entities of a simulation.

use vstd::prelude::*;

verus! {

/// The handle of an entity: the index of its slot in the arena.
pub type SystemRef = usize;

/// A member of the arena: it learns its own handle at registration and
/// forwards to zero or more downstream handles.
pub trait WorldMember {
    spec fn member_wf(&self) -> bool;

    /// The handle assigned at registration, if registered.
    spec fn handle(&self) -> Option<SystemRef>;

    /// The handles this entity forwards to.
    spec fn links(&self) -> Seq<SystemRef>;

    /// Informs the entity of its handle and display name.
    fn add(&mut self, system_ref: SystemRef, name: String)
        requires
            old(self).member_wf(),
        ensures
            final(self).member_wf(),
            final(self).handle() == Some(system_ref),
            final(self).links() == old(self).links();

    fn getref(&self) -> (r: Option<SystemRef>)
        ensures
            r == self.handle();
}

/// Something that reports its aggregates as a line of text.
pub trait StatEmitter {
    spec fn stats_wf(&self) -> bool;

    spec fn stats_text(&self) -> Seq<char>;

    fn stats(&self) -> (r: String)
        requires
            self.stats_wf(),
        ensures
            r@ == self.stats_text();
}

/// Something that holds a backlog of pending jobs.
pub trait HasQueue {
    spec fn backlog_len(&self) -> int;

    fn queue_size(&self) -> (r: i64)
        ensures
            r == self.backlog_len();
}

/// A source of random durations: each call draws a non-negative duration
/// from a distribution whose mean is `mean`.
pub trait Sampler {
    fn sample(&mut self, mean: u64) -> u64;
}

} // verus!
