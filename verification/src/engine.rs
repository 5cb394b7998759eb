//! The bookkeeping of the GPU engine that runs a recording: which buffers
//! and images are bound to which resource ids, which buffers are to be
//! cleared when they come to exist, which buffers are downloaded, and what
//! goes back to the buffer pool when a recording is done.
//!
//! The GPU objects themselves (buffers `B`, textures `T`) are created by the
//! caller, through the closures it hands in; every decision of when to take
//! one from the pool, create one, clear one, skip a dispatch or fail is made
//! here.

use vstd::prelude::*;
use std::collections::{HashMap, HashSet};
use crate::pool::{is_size_class, takes_buf, BufferKey, BufferProperties, ResourcePool, SIZE_CLASS_BITS};
use vstd::arithmetic::power2::pow2;

verus! {

broadcast use vstd::std_specs::hash::group_hash_axioms;

/// Format of an image resource.
#[derive(Copy, Clone, PartialEq, Eq, Debug, Structural)]
pub enum ImageFormat {
    /// 8-bit RGBA.
    Rgba8,
    /// 8-bit BGRA.
    Bgra8,
}

/// A buffer resource of a recording: its size in bytes, its id and its name.
#[derive(Copy, Clone, Debug)]
pub struct BufferProxy {
    /// Size in bytes.
    pub size: u64,
    /// Resource id.
    pub id: u64,
    /// Name, used as the label of the GPU buffer.
    pub name: &'static str,
}

/// An image resource of a recording.
#[derive(Copy, Clone, Debug)]
pub struct ImageProxy {
    /// Width in pixels.
    pub width: u32,
    /// Height in pixels.
    pub height: u32,
    /// Pixel format.
    pub format: ImageFormat,
    /// Resource id.
    pub id: u64,
}

/// A resource bound to a shader.
#[derive(Copy, Clone, Debug)]
pub enum ResourceProxy {
    /// A whole buffer.
    Buffer(BufferProxy),
    /// A range of a buffer.
    BufferRange {
        /// The buffer.
        proxy: BufferProxy,
        /// Offset of the range in bytes.
        offset: u64,
        /// Size of the range in bytes.
        size: u64,
    },
    /// An image.
    Image(ImageProxy),
}

/// The errors of running a recording.
#[derive(Copy, Clone, Debug)]
pub enum Error {
    /// A buffer was used (by the operation named second) before it existed
    /// on the GPU.
    UnavailableBufferUsed(&'static str, &'static str),
}

/// The buffer of a binding, if it binds one.
pub open spec fn binding_buffer(p: ResourceProxy) -> Option<BufferProxy> {
    match p {
        ResourceProxy::Buffer(b) => Some(b),
        ResourceProxy::BufferRange { proxy, .. } => Some(proxy),
        ResourceProxy::Image(_) => None,
    }
}

/// The image of a binding, if it binds one.
pub open spec fn binding_image(p: ResourceProxy) -> Option<ImageProxy> {
    match p {
        ResourceProxy::Image(i) => Some(i),
        _ => None,
    }
}

/// Whether a binding binds the buffer with id `id`.
pub open spec fn binds_buffer(p: ResourceProxy, id: u64) -> bool {
    match binding_buffer(p) {
        Some(b) => b.id == id,
        None => false,
    }
}

/// Whether a binding binds the image with id `id`.
pub open spec fn binds_image(p: ResourceProxy, id: u64) -> bool {
    match binding_image(p) {
        Some(i) => i.id == id,
        None => false,
    }
}

/// The ids of the buffers that the bindings bind.
pub open spec fn bound_buffer_ids(bindings: Seq<ResourceProxy>) -> Set<u64> {
    Set::new(|id: u64| exists|i: int| 0 <= i < bindings.len() && #[trigger] binds_buffer(bindings[i], id))
}

/// The ids of the images that the bindings bind, other than those of the
/// external images.
pub open spec fn bound_image_ids(bindings: Seq<ResourceProxy>, external: Set<u64>) -> Set<u64> {
    Set::new(
        |id: u64|
            !external.contains(id) && exists|i: int|
                0 <= i < bindings.len() && #[trigger] binds_image(bindings[i], id),
    )
}

/// A buffer bound to a resource id, with the label it was created under.
pub struct BindMapBuffer<B> {
    /// The GPU buffer.
    pub buffer: B,
    /// The name of the resource, under which the buffer goes back to the pool.
    pub label: &'static str,
}

/// The buffers and images bound to resource ids, and the ids of the buffers
/// to clear when they come to exist.
pub struct BindMap<B, T> {
    /// Buffers by resource id.
    pub buf_map: HashMap<u64, BindMapBuffer<B>>,
    /// Images by resource id.
    pub image_map: HashMap<u64, T>,
    /// Ids of buffers cleared before they existed.
    pub pending_clears: HashSet<u64>,
}

impl<B, T> BindMap<B, T> {
    /// Creates an empty bind map.
    pub fn new() -> (r: Self)
        ensures
            r.buf_map@ == Map::<u64, BindMapBuffer<B>>::empty(),
            r.image_map@ == Map::<u64, T>::empty(),
            r.pending_clears@ == Set::<u64>::empty(),
    {
        BindMap { buf_map: HashMap::new(), image_map: HashMap::new(), pending_clears: HashSet::new() }
    }

    /// Binds a buffer to the proxy's id, under the proxy's name; a buffer
    /// bound to the id before is dropped.
    pub fn insert_buf(&mut self, proxy: &BufferProxy, buffer: B)
        ensures
            final(self).buf_map@ == old(self).buf_map@.insert(
                proxy.id,
                BindMapBuffer { buffer, label: proxy.name },
            ),
            final(self).image_map@ == old(self).image_map@,
            final(self).pending_clears@ == old(self).pending_clears@,
    {
        self.buf_map.insert(proxy.id, BindMapBuffer { buffer, label: proxy.name });
    }

    /// The buffer bound to an id.
    pub fn get_gpu_buf(&self, id: u64) -> (r: Option<&B>)
        ensures
            self.buf_map@.contains_key(id) ==> r == Some(&self.buf_map@[id].buffer),
            !self.buf_map@.contains_key(id) ==> r is None,
    {
        match self.buf_map.get(&id) {
            Some(b) => Some(&b.buffer),
            None => None,
        }
    }

    /// The buffer bound to the proxy's id, with its label.
    pub fn get_buf(&self, proxy: &BufferProxy) -> (r: Option<&BindMapBuffer<B>>)
        ensures
            self.buf_map@.contains_key(proxy.id) ==> r == Some(&self.buf_map@[proxy.id]),
            !self.buf_map@.contains_key(proxy.id) ==> r is None,
    {
        self.buf_map.get(&proxy.id)
    }

    /// Binds an image to an id; an image bound to the id before is dropped.
    pub fn insert_image(&mut self, id: u64, image: T)
        ensures
            final(self).image_map@ == old(self).image_map@.insert(id, image),
            final(self).buf_map@ == old(self).buf_map@,
            final(self).pending_clears@ == old(self).pending_clears@,
    {
        self.image_map.insert(id, image);
    }

    /// The image bound to an id.
    pub fn get_image(&self, id: u64) -> (r: Option<&T>)
        ensures
            self.image_map@.contains_key(id) ==> r == Some(&self.image_map@[id]),
            !self.image_map@.contains_key(id) ==> r is None,
    {
        self.image_map.get(&id)
    }

    /// Makes sure an image is bound to the proxy's id: when none is, binds
    /// the one that `create` makes for the proxy.
    pub fn get_or_create_image<F: FnOnce(ImageProxy) -> T>(&mut self, proxy: ImageProxy, create: F)
        requires
            create.requires((proxy,)),
        ensures
            old(self).image_map@.contains_key(proxy.id) ==> final(self).image_map@ == old(
                self,
            ).image_map@,
            !old(self).image_map@.contains_key(proxy.id) ==> exists|t: T|
                create.ensures((proxy,), t) && final(self).image_map@ == old(
                    self,
                ).image_map@.insert(proxy.id, t),
            final(self).buf_map@ == old(self).buf_map@,
            final(self).pending_clears@ == old(self).pending_clears@,
    {
        if !self.image_map.contains_key(&proxy.id) {
            let texture = create(proxy);
            self.image_map.insert(proxy.id, texture);
        }
    }
}

/// Whether every buffer that the bindings bind can be rounded up to its size
/// class.
pub open spec fn sizes_classable(bindings: Seq<ResourceProxy>) -> bool {
    forall|i: int|
        0 <= i < bindings.len() && (#[trigger] binding_buffer(bindings[i])) is Some ==> binding_buffer(
            bindings[i],
        )->0.size + pow2((63 - SIZE_CLASS_BITS) as nat) <= pow2(64)
}

/// Whether `after` is `before` with a buffer bound, taken from the pool or
/// created, to every id of `ids` that had none; the pending clears of those
/// ids are dropped, and the rest stays.
pub open spec fn buffers_bound<B>(
    before: Map<u64, BindMapBuffer<B>>,
    after: Map<u64, BindMapBuffer<B>>,
    bindings: Seq<ResourceProxy>,
) -> bool {
    &&& forall|id: u64|
        #[trigger] after.contains_key(id) <==> before.contains_key(id) || bound_buffer_ids(
            bindings,
        ).contains(id)
    &&& forall|id: u64| #[trigger] before.contains_key(id) ==> after[id] == before[id]
    &&& forall|id: u64|
        after.contains_key(id) && !before.contains_key(id) ==> exists|i: int|
            0 <= i < bindings.len() && #[trigger] binds_buffer(bindings[i], id) && after[id].label
                == binding_buffer(bindings[i])->0.name
}

/// What making sure that the resources of the bindings exist does to the
/// bind map, `cleared` being the ids of the buffers to clear now: see
/// [`TransientBindMap::create_bind_group`].
pub open spec fn bind_group_prepared<B, T>(
    before: BindMap<B, T>,
    after: BindMap<B, T>,
    bindings: Seq<ResourceProxy>,
    external: Set<u64>,
    cleared: Seq<u64>,
) -> bool {
    &&& buffers_bound(before.buf_map@, after.buf_map@, bindings)
    &&& forall|id: u64|
        #[trigger] after.image_map@.contains_key(id) <==> before.image_map@.contains_key(id)
            || bound_image_ids(bindings, external).contains(id)
    &&& forall|id: u64|
        #[trigger] before.image_map@.contains_key(id) ==> after.image_map@[id]
            == before.image_map@[id]
    &&& forall|id: u64|
        #[trigger] after.pending_clears@.contains(id) <==> before.pending_clears@.contains(id)
            && !(!before.buf_map@.contains_key(id) && bound_buffer_ids(bindings).contains(id))
    &&& forall|id: u64|
        #[trigger] cleared.contains(id) <==> before.pending_clears@.contains(id)
            && !before.buf_map@.contains_key(id) && bound_buffer_ids(bindings).contains(id)
}

/// Whether every image bound in `after` and not in `before` is the one that
/// `create` makes for the proxy of a binding of its id.
pub open spec fn new_images_created<T, F: Fn(ImageProxy) -> T>(
    before: Map<u64, T>,
    after: Map<u64, T>,
    bindings: Seq<ResourceProxy>,
    create: &F,
) -> bool {
    forall|id: u64|
        #[trigger] after.contains_key(id) && !before.contains_key(id) ==> exists|i: int|
            0 <= i < bindings.len() && #[trigger] binds_image(bindings[i], id) && create.ensures(
                (binding_image(bindings[i])->0,),
                after[id],
            )
}

/// The ids of the buffers to clear when the resources of the bindings are
/// made to exist, in the order of the bindings and each once: those of the
/// buffers that `bound` does not hold, whose clear is in `pending`.
pub open spec fn clears_in_order(
    bound: Set<u64>,
    pending: Set<u64>,
    bindings: Seq<ResourceProxy>,
) -> Seq<u64>
    decreases bindings.len(),
{
    if bindings.len() == 0 {
        Seq::empty()
    } else {
        let rest = bindings.drop_last();
        let earlier = clears_in_order(bound, pending, rest);
        match binding_buffer(bindings.last()) {
            Some(b) => if !bound.contains(b.id) && pending.contains(b.id) && !bound_buffer_ids(
                rest,
            ).contains(b.id) {
                earlier.push(b.id)
            } else {
                earlier
            },
            None => earlier,
        }
    }
}

/// Whether pool `after` holds what pool `before` held less some buffers taken
/// off the end of the buffers of each key.
pub open spec fn pool_only_taken<B>(before: ResourcePool<B>, after: ResourcePool<B>) -> bool {
    forall|k: BufferKey|
        #[trigger] after.pooled(k).len() <= before.pooled(k).len() && after.pooled(k) == before.pooled(
            k,
        ).take(after.pooled(k).len() as int)
}

/// Whether pool `after` holds what pool `before` held, with some buffers
/// added after those of each key.
pub open spec fn pool_only_returned<B>(before: ResourcePool<B>, after: ResourcePool<B>) -> bool {
    pool_only_taken(after, before)
}

/// Whether buffer `b`, bound for buffer `p`, is one that pool `before` held
/// under the size class of `p`'s size, `p`'s name and the usage and pool
/// `after` no longer does, or else one that `create` makes for them, pool
/// `after` then holding none under them.
pub open spec fn taken_or_created<B, F: Fn(u64, &'static str, u32) -> B>(
    before: ResourcePool<B>,
    after: ResourcePool<B>,
    p: BufferProxy,
    usage: u32,
    create: &F,
    b: B,
) -> bool {
    exists|c: u64|
        #[trigger] is_size_class(p.size, SIZE_CLASS_BITS, c) && {
            let key = (c, usage, p.name@);
            ||| create.ensures((c, p.name, usage), b) && after.pooled(key).len() == 0
            ||| exists|j: int|
                after.pooled(key).len() <= j < before.pooled(key).len() && #[trigger] before.pooled(
                    key,
                )[j] == b
        }
}

/// Whether every buffer that pool `before` held and pool `after` no longer
/// does is bound in `map_after` to an id that `map_before` did not bind.
pub open spec fn lost_buffers_bound<B>(
    before: ResourcePool<B>,
    after: ResourcePool<B>,
    map_before: Map<u64, BindMapBuffer<B>>,
    map_after: Map<u64, BindMapBuffer<B>>,
) -> bool {
    forall|k: BufferKey, j: int|
        after.pooled(k).len() <= j < before.pooled(k).len() ==> exists|id: u64|
            map_after.contains_key(id) && !map_before.contains_key(id) && (#[trigger] map_after[id]).buffer
                == #[trigger] before.pooled(k)[j]
}

/// Whether every buffer bound in `after` and not in `before` is taken from
/// the pool or created for a binding of its id.
pub open spec fn new_buffers_taken<B, F: Fn(u64, &'static str, u32) -> B>(
    before: Map<u64, BindMapBuffer<B>>,
    after: Map<u64, BindMapBuffer<B>>,
    pool_before: ResourcePool<B>,
    pool_after: ResourcePool<B>,
    bindings: Seq<ResourceProxy>,
    usage: u32,
    create: &F,
) -> bool {
    forall|id: u64|
        #[trigger] after.contains_key(id) && !before.contains_key(id) ==> exists|i: int|
            0 <= i < bindings.len() && #[trigger] binds_buffer(bindings[i], id) && taken_or_created(
                pool_before,
                pool_after,
                binding_buffer(bindings[i])->0,
                usage,
                create,
                after[id].buffer,
            )
}

/// Taking a buffer from a pool that held only what an earlier pool held, less
/// some taken, leaves a pool that still does, and the buffer is taken from
/// the earlier pool or created.
proof fn lemma_take_step<B, F: Fn(u64, &'static str, u32) -> B>(
    first: ResourcePool<B>,
    mid: ResourcePool<B>,
    after: ResourcePool<B>,
    p: BufferProxy,
    usage: u32,
    create: &F,
    b: B,
)
    requires
        pool_only_taken(first, mid),
        takes_buf(mid, after, p.size, p.name, usage, create, b),
    ensures
        pool_only_taken(first, after),
        taken_or_created(first, after, p, usage, create, b),
        forall|k: BufferKey| #[trigger] after.pooled(k).len() <= mid.pooled(k).len(),
{
    let c = choose|c: u64|
        #[trigger] is_size_class(p.size, SIZE_CLASS_BITS, c) && {
            let key = (c, usage, p.name@);
            &&& mid.pooled(key).len() > 0 ==> b == mid.pooled(key).last() && after.pooled(key)
                == mid.pooled(key).drop_last()
            &&& mid.pooled(key).len() == 0 ==> create.ensures((c, p.name, usage), b)
                && after.pooled(key) == mid.pooled(key)
            &&& forall|k: BufferKey| k != key ==> #[trigger] after.pooled(k) == mid.pooled(k)
        };
    let key = (c, usage, p.name@);
    assert forall|k: BufferKey|
        #[trigger] after.pooled(k).len() <= first.pooled(k).len() && after.pooled(k) == first.pooled(
            k,
        ).take(after.pooled(k).len() as int) by {
        assert(mid.pooled(k).len() <= first.pooled(k).len() && mid.pooled(k) == first.pooled(k).take(
            mid.pooled(k).len() as int,
        ));
        if k == key && mid.pooled(key).len() > 0 {
            assert(after.pooled(k) =~= first.pooled(k).take(after.pooled(k).len() as int));
        }
    }
    assert forall|k: BufferKey| #[trigger] after.pooled(k).len() <= mid.pooled(k).len() by {
        if k == key && mid.pooled(key).len() > 0 {
        }
    }
    if mid.pooled(key).len() > 0 {
        let j = mid.pooled(key).len() - 1;
        assert(mid.pooled(key) == first.pooled(key).take(mid.pooled(key).len() as int));
        assert(first.pooled(key)[j] == b);
        assert(taken_or_created(first, after, p, usage, create, b));
    } else {
        assert(taken_or_created(first, after, p, usage, create, b));
    }
}

/// Binding to a new id a buffer taken from the pool keeps every buffer lost
/// from the pool bound to a new id.
proof fn lemma_lost_step<B, F: Fn(u64, &'static str, u32) -> B>(
    first: ResourcePool<B>,
    mid: ResourcePool<B>,
    after: ResourcePool<B>,
    map_first: Map<u64, BindMapBuffer<B>>,
    map_mid: Map<u64, BindMapBuffer<B>>,
    p: BufferProxy,
    usage: u32,
    create: &F,
    b: B,
)
    requires
        pool_only_taken(first, mid),
        lost_buffers_bound(first, mid, map_first, map_mid),
        takes_buf(mid, after, p.size, p.name, usage, create, b),
        !map_mid.contains_key(p.id),
        forall|id: u64| #[trigger] map_first.contains_key(id) ==> map_mid.contains_key(id),
    ensures
        lost_buffers_bound(
            first,
            after,
            map_first,
            map_mid.insert(p.id, BindMapBuffer { buffer: b, label: p.name }),
        ),
{
    let map_after = map_mid.insert(p.id, BindMapBuffer { buffer: b, label: p.name });
    let c = choose|c: u64|
        #[trigger] is_size_class(p.size, SIZE_CLASS_BITS, c) && {
            let key = (c, usage, p.name@);
            &&& mid.pooled(key).len() > 0 ==> b == mid.pooled(key).last() && after.pooled(key)
                == mid.pooled(key).drop_last()
            &&& mid.pooled(key).len() == 0 ==> create.ensures((c, p.name, usage), b)
                && after.pooled(key) == mid.pooled(key)
            &&& forall|k: BufferKey| k != key ==> #[trigger] after.pooled(k) == mid.pooled(k)
        };
    let key = (c, usage, p.name@);
    assert forall|k: BufferKey, j: int|
        after.pooled(k).len() <= j < first.pooled(k).len() implies exists|id: u64|
            map_after.contains_key(id) && !map_first.contains_key(id) && (#[trigger] map_after[id]).buffer
                == #[trigger] first.pooled(k)[j] by {
        assert(mid.pooled(k).len() <= first.pooled(k).len() && mid.pooled(k) == first.pooled(k).take(
            mid.pooled(k).len() as int,
        ));
        if j < mid.pooled(k).len() {
            assert(k == key && mid.pooled(key).len() > 0 && j == mid.pooled(key).len() - 1);
            assert(first.pooled(k)[j] == mid.pooled(k)[j]);
            assert(map_after[p.id].buffer == first.pooled(k)[j]);
            assert(!map_first.contains_key(p.id));
        } else {
            let id = choose|id: u64|
                map_mid.contains_key(id) && !map_first.contains_key(id) && (#[trigger] map_mid[id]).buffer
                    == #[trigger] first.pooled(k)[j];
            assert(id != p.id);
            assert(map_after[id] == map_mid[id]);
        }
    }
}


/// Whether buffer `b` is held by pool `after` under `key`, after the buffers
/// that pool `before` held under it.
pub open spec fn returned_under<B>(
    before: ResourcePool<B>,
    after: ResourcePool<B>,
    key: BufferKey,
    b: B,
) -> bool {
    exists|j: int|
        before.pooled(key).len() <= j < after.pooled(key).len() && #[trigger] after.pooled(key)[j]
            == b
}

/// Whether pool `after` is pool `before` with buffer `b`, labelled `label`,
/// pushed onto the buffers of its key: its label and the size and usage that
/// `props_of` reads from it.
pub open spec fn pushed_back<B, P: Fn(&B) -> (u64, u32)>(
    before: ResourcePool<B>,
    after: ResourcePool<B>,
    b: B,
    label: &'static str,
    props_of: &P,
) -> bool {
    exists|p: (u64, u32)|
        #[trigger] props_of.ensures((&b,), p) && {
            let key = (p.0, p.1, label@);
            &&& after.pooled(key) == before.pooled(key).push(b)
            &&& forall|k: BufferKey| k != key ==> #[trigger] after.pooled(k) == before.pooled(k)
        }
}

/// Whether the buffer bound in `map` to each freed id of `ids` is held by
/// pool `after`, after what pool `before` held, under its label and the size
/// and usage that `props_of` reads from it.
pub open spec fn freed_returned<B, P: Fn(&B) -> (u64, u32)>(
    before: ResourcePool<B>,
    after: ResourcePool<B>,
    map: Map<u64, BindMapBuffer<B>>,
    ids: Set<u64>,
    props_of: &P,
) -> bool {
    forall|id: u64|
        ids.contains(id) && #[trigger] map.contains_key(id) ==> exists|p: (u64, u32)|
            #[trigger] props_of.ensures((&map[id].buffer,), p) && returned_under(
                before,
                after,
                (p.0, p.1, map[id].label@),
                map[id].buffer,
            )
}

/// Whether every buffer that pool `after` holds beyond what pool `before`
/// held is the buffer bound in `map` to one of the freed ids.
pub open spec fn gained_buffers_freed<B>(
    before: ResourcePool<B>,
    after: ResourcePool<B>,
    map: Map<u64, BindMapBuffer<B>>,
    ids: Set<u64>,
) -> bool {
    forall|k: BufferKey, j: int|
        #[trigger] gained_at(before, after, k, j) ==> exists|id: u64|
            #![trigger map[id]]
            ids.contains(id) && map.contains_key(id) && map[id].buffer == after.pooled(k)[j]
}

/// Whether position `j` of the buffers of key `k` in pool `after` lies past
/// those that pool `before` held.
pub open spec fn gained_at<B>(before: ResourcePool<B>, after: ResourcePool<B>, k: BufferKey, j: int) -> bool {
    before.pooled(k).len() <= j < after.pooled(k).len()
}

/// A pool holds what it holds.
proof fn lemma_pool_unchanged<B>(pool: ResourcePool<B>)
    ensures
        pool_only_taken(pool, pool),
{
    assert forall|k: BufferKey|
        #[trigger] pool.pooled(k).len() <= pool.pooled(k).len() && pool.pooled(k) == pool.pooled(
            k,
        ).take(pool.pooled(k).len() as int) by {
        assert(pool.pooled(k).take(pool.pooled(k).len() as int) =~= pool.pooled(k));
    }
}

/// Buffers bound to freed ids stay so when more ids are freed.
proof fn lemma_gained_more_ids<B>(
    first: ResourcePool<B>,
    after: ResourcePool<B>,
    map: Map<u64, BindMapBuffer<B>>,
    ids: Set<u64>,
    id: u64,
)
    requires
        gained_buffers_freed(first, after, map, ids),
    ensures
        gained_buffers_freed(first, after, map, ids.insert(id)),
{
    assert forall|k: BufferKey, j: int|
        #[trigger] gained_at(first, after, k, j) implies exists|i: u64|
            #![trigger map[i]]
            ids.insert(id).contains(i) && map.contains_key(i) && map[i].buffer == after.pooled(k)[j] by {
        let v = after.pooled(k)[j];
        assert(exists|i: u64|
            #![trigger map[i]]
            ids.contains(i) && map.contains_key(i) && map[i].buffer == v);
        let i = choose|i: u64|
            #![trigger map[i]]
            ids.contains(i) && map.contains_key(i) && map[i].buffer == after.pooled(k)[j];
        assert(ids.insert(id).contains(i));
    }
}

/// Freeing one id keeps every freed buffer, and only those, returned to the
/// pool.
proof fn lemma_free_step<B, P: Fn(&B) -> (u64, u32)>(
    first: ResourcePool<B>,
    mid: ResourcePool<B>,
    after: ResourcePool<B>,
    map: Map<u64, BindMapBuffer<B>>,
    ids: Set<u64>,
    id: u64,
    props_of: &P,
)
    requires
        pool_only_returned(first, mid),
        freed_returned(first, mid, map, ids, props_of),
        gained_buffers_freed(first, mid, map, ids),
        map.remove_keys(ids).contains_key(id) ==> pushed_back(
            mid,
            after,
            map[id].buffer,
            map[id].label,
            props_of,
        ),
        !map.remove_keys(ids).contains_key(id) ==> after == mid,
    ensures
        pool_only_returned(first, after),
        freed_returned(first, after, map, ids.insert(id), props_of),
        gained_buffers_freed(first, after, map, ids.insert(id)),
{
    let ids2 = ids.insert(id);
    if map.remove_keys(ids).contains_key(id) {
        let b = map[id].buffer;
        let p = choose|p: (u64, u32)|
            #[trigger] props_of.ensures((&b,), p) && {
                let key = (p.0, p.1, map[id].label@);
                &&& after.pooled(key) == mid.pooled(key).push(b)
                &&& forall|k: BufferKey| k != key ==> #[trigger] after.pooled(k) == mid.pooled(k)
            };
        let key = (p.0, p.1, map[id].label@);
        assert forall|k: BufferKey|
            #[trigger] first.pooled(k).len() <= after.pooled(k).len() && first.pooled(k) == after.pooled(
                k,
            ).take(first.pooled(k).len() as int) by {
            assert(first.pooled(k).len() <= mid.pooled(k).len() && first.pooled(k) == mid.pooled(
                k,
            ).take(first.pooled(k).len() as int));
            if k == key {
                assert(after.pooled(k).take(first.pooled(k).len() as int) =~= mid.pooled(k).take(
                    first.pooled(k).len() as int,
                ));
            }
        }
        assert forall|i: u64|
            ids2.contains(i) && #[trigger] map.contains_key(i) implies exists|q: (u64, u32)|
                #[trigger] props_of.ensures((&map[i].buffer,), q) && returned_under(
                    first,
                    after,
                    (q.0, q.1, map[i].label@),
                    map[i].buffer,
                ) by {
            if i == id {
                assert(first.pooled(key).len() <= mid.pooled(key).len());
                assert(after.pooled(key)[mid.pooled(key).len() as int] == b);
                assert(returned_under(first, after, key, b));
            } else {
                let q = choose|q: (u64, u32)|
                    #[trigger] props_of.ensures((&map[i].buffer,), q) && returned_under(
                        first,
                        mid,
                        (q.0, q.1, map[i].label@),
                        map[i].buffer,
                    );
                let kq = (q.0, q.1, map[i].label@);
                let j = choose|j: int|
                    first.pooled(kq).len() <= j < mid.pooled(kq).len() && #[trigger] mid.pooled(
                        kq,
                    )[j] == map[i].buffer;
                assert(after.pooled(kq)[j] == mid.pooled(kq)[j]);
                assert(returned_under(first, after, kq, map[i].buffer));
            }
        }
        assert forall|k: BufferKey, j: int|
            #[trigger] gained_at(first, after, k, j) implies exists|i: u64|
                #![trigger map[i]]
                ids2.contains(i) && map.contains_key(i) && map[i].buffer == after.pooled(k)[j] by {
            if j < mid.pooled(k).len() {
                assert(after.pooled(k)[j] == mid.pooled(k)[j]);
                assert(gained_at(first, mid, k, j));
                let i = choose|i: u64|
                    #![trigger map[i]]
                    ids.contains(i) && map.contains_key(i) && map[i].buffer == mid.pooled(k)[j];
                assert(ids2.contains(i));
                assert(map[i].buffer == after.pooled(k)[j]);
            } else {
                assert(k == key);
                assert(after.pooled(k)[j] == map[id].buffer);
                assert(ids2.contains(id) && map.contains_key(id));
                assert(map[id].buffer == after.pooled(k)[j]);
            }
        }
        assert(gained_buffers_freed(first, after, map, ids2));
    } else {
        assert(after == mid);
        assert(pool_only_returned(first, after));
        assert forall|i: u64|
            ids2.contains(i) && #[trigger] map.contains_key(i) implies exists|q: (u64, u32)|
                #[trigger] props_of.ensures((&map[i].buffer,), q) && returned_under(
                    first,
                    after,
                    (q.0, q.1, map[i].label@),
                    map[i].buffer,
                ) by {
            if i == id {
                assert(ids.contains(i));
            }
        }
        assert forall|k: BufferKey, j: int| #[trigger] gained_at(first, after, k, j) implies gained_at(first, mid, k, j) by {}
        assert(gained_buffers_freed(first, after, map, ids));
        lemma_gained_more_ids(first, after, map, ids, id);
        assert(gained_buffers_freed(first, after, map, ids2));
    }
}

/// The set of the first `i` ids is that of the first `i - 1` with the `i`-th added.
proof fn lemma_take_to_set_push(ids: Seq<u64>, i: int)
    requires
        0 < i <= ids.len(),
    ensures
        ids.take(i).to_set() == ids.take(i - 1).to_set().insert(ids[i - 1]),
{
    assert forall|x: u64| #[trigger] ids.take(i).contains(x) <==> ids.take(i - 1).contains(x)
        || x == ids[i - 1] by {
        if ids.take(i).contains(x) {
            let j = choose|j: int| 0 <= j < i && #[trigger] ids.take(i)[j] == x;
            if j < i - 1 {
                assert(ids.take(i - 1)[j] == x);
            }
        }
        if ids.take(i - 1).contains(x) {
            let j = choose|j: int| 0 <= j < i - 1 && #[trigger] ids.take(i - 1)[j] == x;
            assert(ids.take(i)[j] == x);
        }
        if x == ids[i - 1] {
            assert(ids.take(i)[i - 1] == x);
        }
    }
    assert(ids.take(i).to_set() =~= ids.take(i - 1).to_set().insert(ids[i - 1]));
}

/// The resources bound for a single run of a recording: the external images,
/// which the caller binds itself.
pub struct TransientBindMap {
    /// Ids of the external images.
    pub images: HashSet<u64>,
}

impl TransientBindMap {
    /// Creates the transient bind map of a run, seeded with the ids of the
    /// external images.
    pub fn new(external_images: &Vec<u64>) -> (r: Self)
        ensures
            r.images@ == external_images@.to_set(),
    {
        let mut images: HashSet<u64> = HashSet::new();
        let mut i: usize = 0;
        while i < external_images.len()
            invariant
                0 <= i <= external_images@.len(),
                images@ == external_images@.take(i as int).to_set(),
            decreases external_images@.len() - i,
        {
            images.insert(external_images[i]);
            i = i + 1;
            proof {
                lemma_take_to_set_push(external_images@, i as int);
            }
        }
        assert(external_images@.take(external_images@.len() as int) =~= external_images@);
        TransientBindMap { images }
    }

    /// Makes sure that every resource of the bindings exists before a bind
    /// group is made of them: a buffer with no binding gets one from the pool,
    /// or a new one, with the usage given, and an image with no binding gets a
    /// new one, the one that `create_image` makes for the proxy of its binding;
    /// the external images are bound by the caller. Returns the ids of the new
    /// buffers that were cleared before they existed, which are to be cleared
    /// now, in the order of the bindings and each once. The pool only loses
    /// buffers off the end of each key, and every buffer it loses is bound to
    /// a new id. Every newly bound buffer is one that the pool held under the
    /// size class, name and usage of its binding, or else one that
    /// `create_buf` made when the pool ended up holding none under them; a
    /// new buffer is thus made only once the pooled ones of its key are used.
    pub fn create_bind_group<B, T, FB: Fn(u64, &'static str, u32) -> B, FI: Fn(ImageProxy) -> T>(
        &self,
        bind_map: &mut BindMap<B, T>,
        pool: &mut ResourcePool<B>,
        bindings: &Vec<ResourceProxy>,
        usage: u32,
        create_buf: &FB,
        create_image: &FI,
    ) -> (cleared: Vec<u64>)
        requires
            old(pool).well_formed(),
            sizes_classable(bindings@),
            forall|c: u64, name: &'static str| create_buf.requires((c, name, usage)),
            forall|p: ImageProxy| create_image.requires((p,)),
        ensures
            final(pool).well_formed(),
            bind_group_prepared(*old(bind_map), *final(bind_map), bindings@, self.images@, cleared@),
            pool_only_taken(*old(pool), *final(pool)),
            new_buffers_taken(
                old(bind_map).buf_map@,
                final(bind_map).buf_map@,
                *old(pool),
                *final(pool),
                bindings@,
                usage,
                create_buf,
            ),
            lost_buffers_bound(*old(pool), *final(pool), old(bind_map).buf_map@, final(bind_map).buf_map@),
            new_images_created(old(bind_map).image_map@, final(bind_map).image_map@, bindings@, create_image),
            cleared@ == clears_in_order(
                old(bind_map).buf_map@.dom(),
                old(bind_map).pending_clears@,
                bindings@,
            ),
    {
        let mut cleared: Vec<u64> = Vec::new();
        let mut i: usize = 0;
        proof {
            lemma_pool_unchanged(*pool);
        }
        assert(bindings@.take(0) =~= Seq::<ResourceProxy>::empty());
        while i < bindings.len()
            invariant
                0 <= i <= bindings@.len(),
                pool.well_formed(),
                pool_only_taken(*old(pool), *pool),
                lost_buffers_bound(*old(pool), *pool, old(bind_map).buf_map@, bind_map.buf_map@),
                new_buffers_taken(
                    old(bind_map).buf_map@,
                    bind_map.buf_map@,
                    *old(pool),
                    *pool,
                    bindings@.take(i as int),
                    usage,
                    create_buf,
                ),
                sizes_classable(bindings@),
                forall|c: u64, name: &'static str| create_buf.requires((c, name, usage)),
                forall|p: ImageProxy| create_image.requires((p,)),
                new_images_created(
                    old(bind_map).image_map@,
                    bind_map.image_map@,
                    bindings@.take(i as int),
                    create_image,
                ),
                cleared@ == clears_in_order(
                    old(bind_map).buf_map@.dom(),
                    old(bind_map).pending_clears@,
                    bindings@.take(i as int),
                ),
                buffers_bound(old(bind_map).buf_map@, bind_map.buf_map@, bindings@.take(i as int)),
                forall|id: u64|
                    #[trigger] bind_map.image_map@.contains_key(id) <==> old(bind_map).image_map@.contains_key(id) || bound_image_ids(
                        bindings@.take(i as int),
                        self.images@,
                    ).contains(id),
                forall|id: u64|
                    #[trigger] old(bind_map).image_map@.contains_key(id) ==> bind_map.image_map@[id]
                        == old(bind_map).image_map@[id],
                forall|id: u64|
                    #[trigger] bind_map.pending_clears@.contains(id) <==> old(bind_map).pending_clears@.contains(id) && !(!old(bind_map).buf_map@.contains_key(id)
                        && bound_buffer_ids(bindings@.take(i as int)).contains(id)),
                forall|id: u64|
                    #[trigger] cleared@.contains(id) <==> old(bind_map).pending_clears@.contains(id)
                        && !old(bind_map).buf_map@.contains_key(id) && bound_buffer_ids(
                        bindings@.take(i as int),
                    ).contains(id),
            decreases bindings@.len() - i,
        {
            let ghost prefix = bindings@.take(i as int);
            let ghost next = bindings@.take(i + 1);
            assert(next =~= prefix.push(bindings@[i as int]));
            let binding = bindings[i];
            let ghost map_before = bind_map.buf_map@;
            let ghost images_before = bind_map.image_map@;
            let ghost pending_before = bind_map.pending_clears@;
            let ghost cleared_before = cleared@;
            let ghost pool_before = *pool;
            assert(next.drop_last() =~= prefix);
            assert(next.last() == bindings@[i as int]);
            let buffer = match binding {
                ResourceProxy::Buffer(proxy) => Some(proxy),
                ResourceProxy::BufferRange { proxy, .. } => Some(proxy),
                ResourceProxy::Image(_) => None,
            };
            match buffer {
                Some(proxy) => {
                    assert(binding_buffer(bindings@[i as int]) == Some(proxy));
                    if !bind_map.buf_map.contains_key(&proxy.id) {
                        let buf = pool.get_or_create_buf(proxy.size, proxy.name, usage, create_buf);
                        proof {
                            lemma_take_step(*old(pool), pool_before, *pool, proxy, usage, create_buf, buf);
                            lemma_lost_step(
                                *old(pool),
                                pool_before,
                                *pool,
                                old(bind_map).buf_map@,
                                map_before,
                                proxy,
                                usage,
                                create_buf,
                                buf,
                            );
                        }
                        if bind_map.pending_clears.remove(&proxy.id) {
                            cleared.push(proxy.id);
                        }
                        proof {
                            assert forall|x: u64| #[trigger] cleared@.contains(x) <==> cleared_before.contains(x)
                                || (x == proxy.id && pending_before.contains(x)) by {
                                if cleared@.len() > cleared_before.len() {
                                    assert(cleared@ == cleared_before.push(proxy.id));
                                    if cleared@.contains(x) {
                                        let j = choose|j: int| 0 <= j < cleared@.len() && #[trigger] cleared@[j] == x;
                                        if j < cleared_before.len() {
                                            assert(cleared_before[j] == x);
                                        }
                                    }
                                    if cleared_before.contains(x) {
                                        let j = choose|j: int| 0 <= j < cleared_before.len() && #[trigger] cleared_before[j] == x;
                                        assert(cleared@[j] == x);
                                    }
                                    if x == proxy.id {
                                        assert(cleared@[cleared_before.len() as int] == x);
                                    }
                                }
                            }
                        }
                        bind_map.insert_buf(&proxy, buf);
                    }
                },
                None => {
                    match binding {
                        ResourceProxy::Image(proxy) => {
                            if !self.images.contains(&proxy.id) {
                                bind_map.get_or_create_image(proxy, create_image);
                                assert(binding_image(next[i as int]) == Some(proxy));
                            }
                        },
                        _ => {},
                    }
                },
            }
            proof {
                assert forall|id: u64|
                    bound_buffer_ids(next).contains(id) <==> bound_buffer_ids(prefix).contains(id)
                        || binds_buffer(bindings@[i as int], id) by {
                    if bound_buffer_ids(next).contains(id) {
                        let j = choose|j: int| 0 <= j < next.len() && #[trigger] binds_buffer(next[j], id);
                        if j < prefix.len() {
                            assert(next[j] == prefix[j]);
                        }
                    }
                    if bound_buffer_ids(prefix).contains(id) {
                        let j = choose|j: int| 0 <= j < prefix.len() && #[trigger] binds_buffer(prefix[j], id);
                        assert(next[j] == prefix[j]);
                    }
                    if binds_buffer(bindings@[i as int], id) {
                        assert(next[i as int] == bindings@[i as int]);
                    }
                }
                assert forall|id: u64|
                    bound_image_ids(next, self.images@).contains(id) <==> bound_image_ids(
                        prefix,
                        self.images@,
                    ).contains(id) || (!self.images@.contains(id) && binds_image(bindings@[i as int], id)) by {
                    if bound_image_ids(next, self.images@).contains(id) {
                        let j = choose|j: int| 0 <= j < next.len() && #[trigger] binds_image(next[j], id);
                        if j < prefix.len() {
                            assert(next[j] == prefix[j]);
                        }
                    }
                    if bound_image_ids(prefix, self.images@).contains(id) {
                        let j = choose|j: int| 0 <= j < prefix.len() && #[trigger] binds_image(prefix[j], id);
                        assert(next[j] == prefix[j]);
                    }
                    if binds_image(bindings@[i as int], id) {
                        assert(next[i as int] == bindings@[i as int]);
                    }
                }
                assert forall|id: u64|
                    bind_map.buf_map@.contains_key(id) && !old(bind_map).buf_map@.contains_key(id)
                        implies exists|j: int|
                        0 <= j < next.len() && #[trigger] binds_buffer(next[j], id)
                            && bind_map.buf_map@[id].label == binding_buffer(next[j])->0.name by {
                    if map_before.contains_key(id) {
                        let j = choose|j: int|
                            0 <= j < prefix.len() && #[trigger] binds_buffer(prefix[j], id)
                                && map_before[id].label == binding_buffer(prefix[j])->0.name;
                        assert(next[j] == prefix[j]);
                    } else {
                        assert(next[i as int] == bindings@[i as int]);
                    }
                }
            }
            i = i + 1;
        }
        assert(bindings@.take(bindings@.len() as int) =~= bindings@);
        cleared
    }
}

/// The resources of the engine that outlive a run of a recording: the pool
/// of buffers, the bind map and the downloaded buffers.
pub struct Engine<B, T> {
    /// Buffers kept for reuse.
    pub pool: ResourcePool<B>,
    /// Buffers and images by resource id.
    pub bind_map: BindMap<B, T>,
    /// Downloaded buffers by resource id.
    pub downloads: HashMap<u64, B>,
}

impl<B, T> Engine<B, T> {
    /// Creates an engine with no resources.
    pub fn new() -> (r: Self)
        ensures
            r.pool.well_formed(),
            forall|k: crate::pool::BufferKey| #[trigger] r.pool.pooled(k) == Seq::<B>::empty(),
            r.bind_map.buf_map@ == Map::<u64, BindMapBuffer<B>>::empty(),
            r.bind_map.image_map@ == Map::<u64, T>::empty(),
            r.bind_map.pending_clears@ == Set::<u64>::empty(),
            r.downloads@ == Map::<u64, B>::empty(),
    {
        Engine { pool: ResourcePool::new(), bind_map: BindMap::new(), downloads: HashMap::new() }
    }

    /// Uploads a buffer: binds to the proxy's id a buffer of the proxy's
    /// size class, name and the usage given, taken from the pool or created,
    /// into which the caller then writes the bytes.
    pub fn upload<F: Fn(u64, &'static str, u32) -> B>(
        &mut self,
        proxy: &BufferProxy,
        usage: u32,
        create: &F,
    )
        requires
            old(self).pool.well_formed(),
            proxy.size + pow2((63 - SIZE_CLASS_BITS) as nat) <= pow2(64),
            forall|c: u64| create.requires((c, proxy.name, usage)),
        ensures
            final(self).pool.well_formed(),
            exists|b: B|
                takes_buf(old(self).pool, final(self).pool, proxy.size, proxy.name, usage, create, b)
                    && final(self).bind_map.buf_map@ == old(self).bind_map.buf_map@.insert(
                    proxy.id,
                    BindMapBuffer { buffer: b, label: proxy.name },
                ),
            final(self).bind_map.image_map@ == old(self).bind_map.image_map@,
            final(self).bind_map.pending_clears@ == old(self).bind_map.pending_clears@,
            final(self).downloads@ == old(self).downloads@,
    {
        let buf = self.pool.get_or_create_buf(proxy.size, proxy.name, usage, create);
        let ghost taken = buf;
        self.bind_map.insert_buf(proxy, buf);
        assert(takes_buf(old(self).pool, self.pool, proxy.size, proxy.name, usage, create, taken));
    }

    /// Decides a dispatch: one with a zero workgroup count is skipped
    /// (`None`) and changes nothing; otherwise the resources of the bindings
    /// are made to exist, and the ids of the buffers to clear before the
    /// dispatch are returned.
    pub fn dispatch<FB: Fn(u64, &'static str, u32) -> B, FI: Fn(ImageProxy) -> T>(
        &mut self,
        transient: &TransientBindMap,
        wg_size: (u32, u32, u32),
        bindings: &Vec<ResourceProxy>,
        usage: u32,
        create_buf: &FB,
        create_image: &FI,
    ) -> (r: Option<Vec<u64>>)
        requires
            old(self).pool.well_formed(),
            wg_size.0 != 0 && wg_size.1 != 0 && wg_size.2 != 0 ==> sizes_classable(bindings@),
            forall|c: u64, name: &'static str| create_buf.requires((c, name, usage)),
            forall|p: ImageProxy| create_image.requires((p,)),
        ensures
            final(self).pool.well_formed(),
            r is None <==> wg_size.0 == 0 || wg_size.1 == 0 || wg_size.2 == 0,
            r is None ==> *final(self) == *old(self),
            r matches Some(cleared) ==> bind_group_prepared(
                old(self).bind_map,
                final(self).bind_map,
                bindings@,
                transient.images@,
                cleared@,
            ) && cleared@ == clears_in_order(
                old(self).bind_map.buf_map@.dom(),
                old(self).bind_map.pending_clears@,
                bindings@,
            ),
            new_images_created(
                old(self).bind_map.image_map@,
                final(self).bind_map.image_map@,
                bindings@,
                create_image,
            ),
            pool_only_taken(old(self).pool, final(self).pool),
            lost_buffers_bound(
                old(self).pool,
                final(self).pool,
                old(self).bind_map.buf_map@,
                final(self).bind_map.buf_map@,
            ),
            new_buffers_taken(
                old(self).bind_map.buf_map@,
                final(self).bind_map.buf_map@,
                old(self).pool,
                final(self).pool,
                bindings@,
                usage,
                create_buf,
            ),
            final(self).downloads@ == old(self).downloads@,
    {
        let (x, y, z) = wg_size;
        if x == 0 || y == 0 || z == 0 {
            proof {
                lemma_pool_unchanged(self.pool);
            }
            return None;
        }
        let cleared = transient.create_bind_group(
            &mut self.bind_map,
            &mut self.pool,
            bindings,
            usage,
            create_buf,
            create_image,
        );
        Some(cleared)
    }

    /// Decides an indirect dispatch: the resources of the bindings are made
    /// to exist, and then the buffer holding the workgroup counts must exist,
    /// or the run fails.
    pub fn dispatch_indirect<FB: Fn(u64, &'static str, u32) -> B, FI: Fn(ImageProxy) -> T>(
        &mut self,
        transient: &TransientBindMap,
        proxy: &BufferProxy,
        bindings: &Vec<ResourceProxy>,
        usage: u32,
        create_buf: &FB,
        create_image: &FI,
    ) -> (r: Result<Vec<u64>, Error>)
        requires
            old(self).pool.well_formed(),
            sizes_classable(bindings@),
            forall|c: u64, name: &'static str| create_buf.requires((c, name, usage)),
            forall|p: ImageProxy| create_image.requires((p,)),
        ensures
            final(self).pool.well_formed(),
            exists|cleared: Seq<u64>|
                bind_group_prepared(
                    old(self).bind_map,
                    final(self).bind_map,
                    bindings@,
                    transient.images@,
                    cleared,
                ) && (r matches Ok(c) ==> c@ == cleared),
            r is Ok <==> final(self).bind_map.buf_map@.contains_key(proxy.id),
            r is Err ==> r == Err::<Vec<u64>, Error>(
                Error::UnavailableBufferUsed(proxy.name, "indirect dispatch"),
            ),
            pool_only_taken(old(self).pool, final(self).pool),
            lost_buffers_bound(
                old(self).pool,
                final(self).pool,
                old(self).bind_map.buf_map@,
                final(self).bind_map.buf_map@,
            ),
            new_buffers_taken(
                old(self).bind_map.buf_map@,
                final(self).bind_map.buf_map@,
                old(self).pool,
                final(self).pool,
                bindings@,
                usage,
                create_buf,
            ),
            r matches Ok(c) ==> c@ == clears_in_order(
                old(self).bind_map.buf_map@.dom(),
                old(self).bind_map.pending_clears@,
                bindings@,
            ),
            new_images_created(
                old(self).bind_map.image_map@,
                final(self).bind_map.image_map@,
                bindings@,
                create_image,
            ),
            final(self).downloads@ == old(self).downloads@,
    {
        let cleared = transient.create_bind_group(
            &mut self.bind_map,
            &mut self.pool,
            bindings,
            usage,
            create_buf,
            create_image,
        );
        if self.bind_map.buf_map.contains_key(&proxy.id) {
            Ok(cleared)
        } else {
            Err(Error::UnavailableBufferUsed(proxy.name, "indirect dispatch"))
        }
    }

    /// Decides a download: the buffer must exist, or the run fails and
    /// nothing changes; otherwise a buffer of its size class for reading back,
    /// named "download", is taken from the pool or created with the usage
    /// given, and kept under the proxy's id; the caller copies into it.
    pub fn download<F: Fn(u64, &'static str, u32) -> B>(
        &mut self,
        proxy: &BufferProxy,
        usage: u32,
        create: &F,
    ) -> (r: Result<(), Error>)
        requires
            old(self).pool.well_formed(),
            proxy.size + pow2((63 - SIZE_CLASS_BITS) as nat) <= pow2(64),
            forall|c: u64, name: &'static str| create.requires((c, name, usage)),
        ensures
            final(self).pool.well_formed(),
            r is Ok <==> old(self).bind_map.buf_map@.contains_key(proxy.id),
            r is Err ==> r == Err::<(), Error>(Error::UnavailableBufferUsed(proxy.name, "download"))
                && *final(self) == *old(self),
            r is Ok ==> exists|b: B|
                takes_buf(old(self).pool, final(self).pool, proxy.size, "download", usage, create, b)
                    && final(self).downloads@ == old(self).downloads@.insert(proxy.id, b),
            final(self).bind_map == old(self).bind_map,
    {
        if !self.bind_map.buf_map.contains_key(&proxy.id) {
            return Err(Error::UnavailableBufferUsed(proxy.name, "download"));
        }
        let buf = self.pool.get_or_create_buf(proxy.size, "download", usage, create);
        let ghost taken = buf;
        self.downloads.insert(proxy.id, buf);
        assert(takes_buf(old(self).pool, self.pool, proxy.size, "download", usage, create, taken));
        Ok(())
    }

    /// Decides a clear: a buffer that exists is cleared now by the caller
    /// (`true`); one that does not yet is cleared when it comes to exist.
    pub fn clear(&mut self, proxy: &BufferProxy) -> (r: bool)
        ensures
            r == old(self).bind_map.buf_map@.contains_key(proxy.id),
            r ==> *final(self) == *old(self),
            !r ==> final(self).bind_map.pending_clears@ == old(self).bind_map.pending_clears@.insert(
                proxy.id,
            ) && final(self).bind_map.buf_map@ == old(self).bind_map.buf_map@
                && final(self).bind_map.image_map@ == old(self).bind_map.image_map@
                && final(self).pool == old(self).pool && final(self).downloads@ == old(
                self,
            ).downloads@,
    {
        if self.bind_map.buf_map.contains_key(&proxy.id) {
            true
        } else {
            self.bind_map.pending_clears.insert(proxy.id);
            false
        }
    }

    /// Frees a buffer at the end of a run: the buffer bound to the id, if
    /// any, is unbound and goes back to the pool under the size and usage that
    /// `props_of` reads from it and under its label.
    pub fn free_buffer<P: Fn(&B) -> (u64, u32)>(&mut self, id: u64, props_of: &P)
        requires
            old(self).pool.well_formed(),
            forall|b: &B| props_of.requires((b,)),
        ensures
            final(self).pool.well_formed(),
            final(self).bind_map.buf_map@ == old(self).bind_map.buf_map@.remove(id),
            !old(self).bind_map.buf_map@.contains_key(id) ==> final(self).pool == old(self).pool,
            old(self).bind_map.buf_map@.contains_key(id) ==> pushed_back(
                old(self).pool,
                final(self).pool,
                old(self).bind_map.buf_map@[id].buffer,
                old(self).bind_map.buf_map@[id].label,
                props_of,
            ),
            final(self).bind_map.image_map@ == old(self).bind_map.image_map@,
            final(self).bind_map.pending_clears@ == old(self).bind_map.pending_clears@,
            final(self).downloads@ == old(self).downloads@,
    {
        match self.bind_map.buf_map.remove(&id) {
            Some(freed) => {
                let BindMapBuffer { buffer, label } = freed;
                let (size, usages) = props_of(&buffer);
                self.pool.return_buf(BufferProperties { size, usages, name: label }, buffer);
            },
            None => {},
        }
    }

    /// Frees an image at the end of a run: the image bound to the id, if any,
    /// is unbound and dropped.
    pub fn free_image(&mut self, id: u64)
        ensures
            final(self).bind_map.image_map@ == old(self).bind_map.image_map@.remove(id),
            final(self).bind_map.buf_map@ == old(self).bind_map.buf_map@,
            final(self).bind_map.pending_clears@ == old(self).bind_map.pending_clears@,
            final(self).pool == old(self).pool,
            final(self).downloads@ == old(self).downloads@,
    {
        let _ = self.bind_map.image_map.remove(&id);
    }

    /// Frees, at the end of a run, the buffers and images that the run freed:
    /// the buffer bound to each freed id goes back to the pool, after what the
    /// pool held, under its label and the size and usage that `props_of` reads
    /// from it (see [`Engine::free_buffer`]); the pool gains no other buffer;
    /// each freed image is dropped. An id freed twice, or never bound, changes
    /// nothing more.
    pub fn free_resources<P: Fn(&B) -> (u64, u32)>(
        &mut self,
        free_bufs: &Vec<u64>,
        free_images: &Vec<u64>,
        props_of: &P,
    )
        requires
            old(self).pool.well_formed(),
            forall|b: &B| props_of.requires((b,)),
        ensures
            final(self).pool.well_formed(),
            final(self).bind_map.buf_map@ == old(self).bind_map.buf_map@.remove_keys(
                free_bufs@.to_set(),
            ),
            final(self).bind_map.image_map@ == old(self).bind_map.image_map@.remove_keys(
                free_images@.to_set(),
            ),
            final(self).bind_map.pending_clears@ == old(self).bind_map.pending_clears@,
            final(self).downloads@ == old(self).downloads@,
            pool_only_returned(old(self).pool, final(self).pool),
            freed_returned(
                old(self).pool,
                final(self).pool,
                old(self).bind_map.buf_map@,
                free_bufs@.to_set(),
                props_of,
            ),
            gained_buffers_freed(
                old(self).pool,
                final(self).pool,
                old(self).bind_map.buf_map@,
                free_bufs@.to_set(),
            ),
    {
        let ghost map0 = self.bind_map.buf_map@;
        let mut i: usize = 0;
        proof {
            lemma_pool_unchanged(self.pool);
            assert(free_bufs@.take(0).to_set() =~= Set::<u64>::empty());
        }
        while i < free_bufs.len()
            invariant
                0 <= i <= free_bufs@.len(),
                self.pool.well_formed(),
                map0 == old(self).bind_map.buf_map@,
                pool_only_returned(old(self).pool, self.pool),
                freed_returned(old(self).pool, self.pool, map0, free_bufs@.take(i as int).to_set(), props_of),
                gained_buffers_freed(old(self).pool, self.pool, map0, free_bufs@.take(i as int).to_set()),
                forall|b: &B| props_of.requires((b,)),
                self.bind_map.buf_map@ == map0.remove_keys(free_bufs@.take(i as int).to_set()),
                self.bind_map.image_map@ == old(self).bind_map.image_map@,
                self.bind_map.pending_clears@ == old(self).bind_map.pending_clears@,
                self.downloads@ == old(self).downloads@,
            decreases free_bufs@.len() - i,
        {
            let ghost pool_before = self.pool;
            let ghost freed = free_bufs@.take(i as int).to_set();
            let id = free_bufs[i];
            self.free_buffer(id, props_of);
            proof {
                lemma_free_step(old(self).pool, pool_before, self.pool, map0, freed, id, props_of);
            }
            i = i + 1;
            proof {
                lemma_take_to_set_push(free_bufs@, i as int);
            }
            assert(self.bind_map.buf_map@ =~= map0.remove_keys(free_bufs@.take(i as int).to_set()));
        }
        assert(free_bufs@.take(free_bufs@.len() as int) =~= free_bufs@);
        let mut j: usize = 0;
        while j < free_images.len()
            invariant
                0 <= j <= free_images@.len(),
                self.pool.well_formed(),
                pool_only_returned(old(self).pool, self.pool),
                map0 == old(self).bind_map.buf_map@,
                freed_returned(old(self).pool, self.pool, map0, free_bufs@.to_set(), props_of),
                gained_buffers_freed(old(self).pool, self.pool, map0, free_bufs@.to_set()),
                self.bind_map.buf_map@ == old(self).bind_map.buf_map@.remove_keys(
                    free_bufs@.to_set(),
                ),
                self.bind_map.image_map@ == old(self).bind_map.image_map@.remove_keys(
                    free_images@.take(j as int).to_set(),
                ),
                self.bind_map.pending_clears@ == old(self).bind_map.pending_clears@,
                self.downloads@ == old(self).downloads@,
            decreases free_images@.len() - j,
        {
            self.free_image(free_images[j]);
            j = j + 1;
            proof {
                lemma_take_to_set_push(free_images@, j as int);
            }
            assert(self.bind_map.image_map@ =~= old(self).bind_map.image_map@.remove_keys(
                free_images@.take(j as int).to_set(),
            ));
        }
        assert(free_images@.take(free_images@.len() as int) =~= free_images@);
    }

    /// The downloaded buffer of a resource id.
    pub fn get_download(&self, id: u64) -> (r: Option<&B>)
        ensures
            self.downloads@.contains_key(id) ==> r == Some(&self.downloads@[id]),
            !self.downloads@.contains_key(id) ==> r is None,
    {
        self.downloads.get(&id)
    }

    /// Drops the downloaded buffer of a resource id.
    pub fn free_download(&mut self, id: u64)
        ensures
            final(self).downloads@ == old(self).downloads@.remove(id),
            final(self).bind_map == old(self).bind_map,
            final(self).pool == old(self).pool,
    {
        let _ = self.downloads.remove(&id);
    }
}

} // verus!
