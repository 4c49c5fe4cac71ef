//! Content reads and writes of virtual nodes through the content cache.

use vstd::prelude::*;
use crate::content_cache::{generation_of, is_stale};
use crate::err::DispatchError;
use crate::events::{EventSink, KernelNotifier};
use crate::node::{CachePolicy, VirtualNode};
use crate::path::join_segments;
use crate::provider::ProviderId;
use crate::real_fs::RealFs;
use crate::registry::Provider;
use crate::router::{same_services, Router};

verus! {

impl<P: Provider, F: RealFs, E: EventSink, N: KernelNotifier> Router<P, F, E, N> {
    /// The content of the virtual node `node` (inode `inode`, from the
    /// provider `provider_id`): for a node whose content may be cached,
    /// fresh cached content is returned as is; otherwise `produce` runs
    /// the read pipeline, and its content is cached (stamped with the
    /// node's source file generation) when the node allows it.
    pub fn read_content<G: FnOnce() -> Result<Vec<u8>, DispatchError>>(
        &mut self,
        inode: u64,
        node: &VirtualNode,
        provider_id: ProviderId,
        produce: G,
    ) -> (r: Result<Vec<u8>, DispatchError>)
        requires
            old(self).wf(),
            produce.requires(()),
        ensures
            final(self).wf(),
            same_services(*old(self), *final(self)),
            final(self).cache == old(self).cache,
            final(self).inodes == old(self).inodes,
            final(self).content_cache.gens() == old(self).content_cache.gens(),
            ({
                let c0 = old(self).content_cache.contents();
                let hit = node@.cache_policy == CachePolicy::Cache && c0.contains_key(inode)
                    && !is_stale(c0[inode], old(self).content_cache.gens());
                &&& hit ==> (r matches Ok(d) && d@ == c0[inode].data@) && final(self).content_cache.contents() == c0
                &&& !hit ==> exists|res: Result<Vec<u8>, DispatchError>| #[trigger] produce.ensures((), res) && match res {
                    Ok(d) => (r matches Ok(x) && x@ == d@),
                    Err(_) => r is Err,
                }
                &&& !hit && node@.cache_policy == CachePolicy::Never ==> final(self).content_cache.contents() == c0
                &&& !hit && node@.cache_policy == CachePolicy::Cache && r is Ok ==> {
                    let c = final(self).content_cache.contents();
                    &&& c.dom() == c0.dom().insert(inode)
                    &&& c[inode].data@ == r->Ok_0@
                    &&& c[inode].provider_id == provider_id
                    &&& forall|k: u64| k != inode && #[trigger] c0.contains_key(k) ==> c[k] == c0[k]
                    &&& match node@.source {
                        Some((sp, _)) => (c[inode].source_generation matches Some((p, g)) && p@ == sp
                            && g == generation_of(old(self).content_cache.gens(), join_segments(sp))),
                        None => c[inode].source_generation is None,
                    }
                }
            }),
    {
        let cacheable = node.cache_policy() == CachePolicy::Cache;
        if cacheable {
            match self.content_cache.get(inode) {
                Some(cached) => return Ok(cached),
                None => {},
            }
        }
        let ghost c1 = self.content_cache.contents();
        let produced = produce();
        let ghost pr = produced;
        assert(produce.ensures((), pr));
        let data = match produced {
            Ok(d) => d,
            Err(e) => {
                assert(match pr { Ok(d) => false, Err(_) => true });
                return Err(e);
            },
        };
        if cacheable {
            let source_file = match node.source() {
                Some((f, _)) => Some(f),
                None => None,
            };
            let kept = self.content_cache.insert(inode, data, provider_id, source_file);
            proof {
                assert(self.content_cache.contents().dom() =~= old(self).content_cache.contents().dom().insert(inode));
                assert(pr matches Ok(d) && kept@ == d@);
                let c0 = old(self).content_cache.contents();
                let c = self.content_cache.contents();
                assert forall|k: u64| k != inode && #[trigger] c0.contains_key(k) implies c[k] == c0[k] by {
                    assert(c1.contains_key(k));
                }
            }
            return Ok(kept);
        }
        assert(pr matches Ok(d) && data@ == d@);
        Ok(data)
    }

    /// The size of the fresh cached content of `inode`, if any; stale
    /// content is dropped.
    pub fn content_cache_size(&mut self, inode: u64) -> (r: Option<u64>)
        requires
            old(self).wf(),
        ensures
            final(self).wf(),
            same_services(*old(self), *final(self)),
            final(self).cache == old(self).cache,
            final(self).inodes == old(self).inodes,
            final(self).content_cache.gens() == old(self).content_cache.gens(),
            ({
                let c0 = old(self).content_cache.contents();
                &&& c0.contains_key(inode) && !is_stale(c0[inode], old(self).content_cache.gens())
                    ==> r == Some(c0[inode].data@.len() as u64) && final(self).content_cache.contents() == c0
                &&& !(c0.contains_key(inode) && !is_stale(c0[inode], old(self).content_cache.gens()))
                    ==> r is None && final(self).content_cache.contents() == c0.remove(inode)
            }),
    {
        self.content_cache.get_size(inode)
    }

    /// Write to the virtual node `node` (inode `inode`): `run` runs the
    /// write pipeline; on success the node's cached content is dropped and
    /// its source file's generation advanced, so content derived from
    /// that file is stale.
    pub fn write_content<O, G: FnOnce() -> Result<O, DispatchError>>(
        &mut self,
        inode: u64,
        node: &VirtualNode,
        run: G,
    ) -> (r: Result<O, DispatchError>)
        requires
            old(self).wf(),
            run.requires(()),
            node@.source matches Some((p, _)) ==> generation_of(old(self).content_cache.gens(), join_segments(p)) < u64::MAX,
        ensures
            final(self).wf(),
            same_services(*old(self), *final(self)),
            final(self).cache == old(self).cache,
            final(self).inodes == old(self).inodes,
            exists|res: Result<O, DispatchError>| #[trigger] run.ensures((), res) && res == r,
            r is Err ==> final(self).content_cache == old(self).content_cache,
            r is Ok ==> final(self).content_cache.contents() == old(self).content_cache.contents().remove(inode),
            r is Ok ==> match node@.source {
                Some((p, _)) => final(self).content_cache.gens() == old(self).content_cache.gens().insert(join_segments(p),
                    (generation_of(old(self).content_cache.gens(), join_segments(p)) + 1) as u64),
                None => final(self).content_cache.gens() == old(self).content_cache.gens(),
            },
    {
        let outcome = run();
        match outcome {
            Ok(o) => {
                self.content_cache.invalidate(inode);
                match node.source() {
                    Some((source_file, _)) => {
                        self.content_cache.bump_file_generation(source_file);
                    },
                    None => {},
                }
                Ok(o)
            },
            Err(e) => Err(e),
        }
    }
}

} // verus!
