//! Cache invalidation events, the sinks that collect them, and the kernel
//! notification interface.

use vstd::prelude::*;
use crate::path::VfsPath;
use crate::provider::ProviderId;

verus! {

/// How a write is dispatched to a writable node.
#[non_exhaustive]
#[derive(Debug, Clone, Copy, PartialEq, Eq, Structural)]
pub enum WriteMode {
    /// A positional write.
    Normal,
    /// The file was opened with `O_TRUNC`: its content is replaced.
    Truncate,
}

/// Events that invalidate cached structure or content.
#[non_exhaustive]
pub enum InvalidationEvent {
    /// One node's content changed (content cache only).
    Node { provider_id: ProviderId, vpath: VfsPath },
    /// A whole subtree changed: structure and content.
    Subtree { path: VfsPath },
    /// Everything of one provider changed.
    Provider { provider_id: ProviderId },
}

/// Where invalidation events go.
pub trait EventSink {
    /// Record an event.
    fn emit(&mut self, event: InvalidationEvent);

    /// Take the events recorded for deferred processing; a sink that does
    /// not keep events returns none.
    fn drain(&mut self) -> (r: Vec<InvalidationEvent>)
        default_ensures
            r@ == Seq::<InvalidationEvent>::empty(),
    {
        Vec::new()
    }
}

/// A sink that keeps nothing: events are informational only.
pub struct LoggingEventSink;

impl EventSink for LoggingEventSink {
    fn emit(&mut self, event: InvalidationEvent) {
    }

    fn drain(&mut self) -> (r: Vec<InvalidationEvent>)
        ensures
            r@.len() == 0,
    {
        Vec::new()
    }
}

/// A sink that buffers events until they are drained.
pub struct BufferedEventSink {
    buffer: Vec<InvalidationEvent>,
}

impl BufferedEventSink {
    /// The events buffered so far, oldest first.
    pub closed spec fn pending(&self) -> Seq<InvalidationEvent> {
        self.buffer@
    }

    /// A sink with an empty buffer.
    pub fn new() -> (r: Self)
        ensures
            r.pending() == Seq::<InvalidationEvent>::empty(),
    {
        BufferedEventSink { buffer: Vec::new() }
    }
}

impl EventSink for BufferedEventSink {
    fn emit(&mut self, event: InvalidationEvent)
        ensures
            final(self).pending() == old(self).pending().push(event),
    {
        self.buffer.push(event);
    }

    fn drain(&mut self) -> (r: Vec<InvalidationEvent>)
        ensures
            r@ == old(self).pending(),
            final(self).pending() == Seq::<InvalidationEvent>::empty(),
    {
        let mut taken = Vec::new();
        std::mem::swap(&mut taken, &mut self.buffer);
        taken
    }
}

/// Asks the kernel to drop its cached attributes, data and entries.
/// Best effort: implementations report no failure.
pub trait KernelNotifier {
    /// Invalidate the kernel's cached attributes and data of an inode.
    fn inval_inode(&self, inode: u64);

    /// Invalidate the entry `name` in the directory `parent_inode`.
    fn inval_entry(&self, parent_inode: u64, name: &str);
}

} // verus!
