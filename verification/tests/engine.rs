use vello::engine::{
    BindMap, BufferProxy, Engine, Error, ImageFormat, ImageProxy, ResourceProxy, TransientBindMap,
};

fn buf(id: u64, size: u64, name: &'static str) -> BufferProxy {
    BufferProxy { size, id, name }
}

fn image(id: u64) -> ImageProxy {
    ImageProxy { width: 4, height: 4, format: ImageFormat::Rgba8, id }
}

/// Buffers are the sizes they were created with, tagged by name and usage.
type Buf = (u64, &'static str, u32);

fn create(size: u64, name: &'static str, usage: u32) -> Buf {
    (size, name, usage)
}

#[test]
fn bind_map_binds_buffers_and_images() {
    let mut map: BindMap<u32, u32> = BindMap::new();
    assert!(map.get_gpu_buf(1).is_none());
    map.insert_buf(&buf(1, 16, "a"), 10);
    assert_eq!(map.get_gpu_buf(1), Some(&10));
    assert_eq!(map.get_buf(&buf(1, 16, "a")).map(|b| b.label), Some("a"));
    map.get_or_create_image(image(5), |p| p.width * 100);
    map.get_or_create_image(image(5), |_| 999);
    assert_eq!(map.get_image(5), Some(&400));
    map.insert_image(6, 1);
    assert_eq!(map.get_image(6), Some(&1));
}

#[test]
fn bind_group_creates_missing_resources_and_consumes_pending_clears() {
    let mut engine: Engine<Buf, u32> = Engine::new();
    let transient = TransientBindMap::new(&vec![9]);
    assert!(!engine.clear(&buf(1, 100, "tiles")));
    engine.upload(&buf(2, 10, "config"), 1, &create);
    let bindings = vec![
        ResourceProxy::Buffer(buf(1, 100, "tiles")),
        ResourceProxy::BufferRange { proxy: buf(2, 10, "config"), offset: 0, size: 4 },
        ResourceProxy::Image(image(9)),
        ResourceProxy::Image(image(3)),
    ];
    let cleared = engine
        .dispatch(&transient, (1, 1, 1), &bindings, 7, &create, &|p: ImageProxy| p.id as u32)
        .unwrap();
    assert_eq!(cleared, vec![1]);
    assert_eq!(engine.bind_map.get_gpu_buf(1), Some(&(128, "tiles", 7)));
    assert_eq!(engine.bind_map.get_gpu_buf(2), Some(&(12, "config", 1)));
    assert_eq!(engine.bind_map.get_image(3), Some(&3));
    // The external image is bound by the caller.
    assert!(engine.bind_map.get_image(9).is_none());
    assert!(engine.bind_map.pending_clears.is_empty());
    // A clear of a buffer that exists is done at once.
    assert!(engine.clear(&buf(1, 100, "tiles")));
}

#[test]
fn dispatch_with_a_zero_workgroup_count_is_skipped() {
    let mut engine: Engine<Buf, u32> = Engine::new();
    let transient = TransientBindMap::new(&vec![]);
    let bindings = vec![ResourceProxy::Buffer(buf(1, 8, "x"))];
    let r = engine.dispatch(&transient, (4, 0, 1), &bindings, 7, &create, &|_: ImageProxy| 0u32);
    assert!(r.is_none());
    assert!(engine.bind_map.get_gpu_buf(1).is_none());
}

#[test]
fn indirect_dispatch_needs_its_buffer() {
    let mut engine: Engine<Buf, u32> = Engine::new();
    let transient = TransientBindMap::new(&vec![]);
    let bindings = vec![ResourceProxy::Buffer(buf(1, 8, "x"))];
    let r = engine.dispatch_indirect(&transient, &buf(2, 12, "indirect"), &bindings, 7, &create, &|_: ImageProxy| 0u32);
    assert!(matches!(r, Err(Error::UnavailableBufferUsed("indirect", "indirect dispatch"))));
    // The bindings were made to exist all the same.
    assert!(engine.bind_map.get_gpu_buf(1).is_some());
    let bindings = vec![ResourceProxy::Buffer(buf(2, 12, "indirect"))];
    let r = engine.dispatch_indirect(&transient, &buf(2, 12, "indirect"), &bindings, 7, &create, &|_: ImageProxy| 0u32);
    assert_eq!(r.unwrap(), Vec::<u64>::new());
}

#[test]
fn download_needs_its_buffer_and_takes_a_download_buffer() {
    let mut engine: Engine<Buf, u32> = Engine::new();
    let r = engine.download(&buf(1, 100, "out"), 3, &create);
    assert!(matches!(r, Err(Error::UnavailableBufferUsed("out", "download"))));
    engine.upload(&buf(1, 100, "out"), 1, &create);
    engine.download(&buf(1, 100, "out"), 3, &create).unwrap();
    assert_eq!(engine.get_download(1), Some(&(128, "download", 3)));
    engine.free_download(1);
    assert!(engine.get_download(1).is_none());
}

#[test]
fn freed_buffers_go_back_to_the_pool_under_their_label() {
    let mut engine: Engine<Buf, u32> = Engine::new();
    engine.upload(&buf(1, 100, "tiles"), 5, &create);
    engine.free_buffer(1, &|b: &Buf| (b.0, b.2));
    assert!(engine.bind_map.get_gpu_buf(1).is_none());
    // A second free of the same id does nothing.
    engine.free_buffer(1, &|b: &Buf| (b.0, b.2));
    // The next buffer of that class, name and usage is the pooled one.
    let (size, pooled) = engine.pool.get_buf(120, "tiles", 5);
    assert_eq!((size, pooled), (128, Some((128, "tiles", 5))));
    engine.bind_map.insert_image(4, 1);
    engine.free_image(4);
    assert!(engine.bind_map.get_image(4).is_none());
}

#[test]
fn uploads_reuse_pooled_buffers() {
    let mut engine: Engine<Buf, u32> = Engine::new();
    engine.pool.return_buf(vello::pool::BufferProperties { size: 12, usages: 1, name: "config" }, (12, "pooled", 1));
    engine.upload(&buf(2, 10, "config"), 1, &create);
    assert_eq!(engine.bind_map.get_gpu_buf(2), Some(&(12, "pooled", 1)));
}

#[test]
fn freed_resources_are_unbound_in_order() {
    let mut engine: Engine<Buf, u32> = Engine::new();
    engine.upload(&buf(1, 100, "a"), 5, &create);
    engine.upload(&buf(2, 100, "a"), 5, &create);
    engine.upload(&buf(3, 8, "b"), 5, &create);
    engine.bind_map.insert_image(7, 70);
    engine.free_resources(&vec![1, 2, 1, 9], &vec![7], &|b: &Buf| (b.0, b.2));
    assert!(engine.bind_map.get_gpu_buf(1).is_none() && engine.bind_map.get_gpu_buf(2).is_none());
    assert_eq!(engine.bind_map.get_gpu_buf(3), Some(&(8, "b", 5)));
    assert!(engine.bind_map.get_image(7).is_none());
    // Both freed buffers are pooled; the one freed last comes out first.
    assert_eq!(engine.pool.get_buf(100, "a", 5).0, 128);
    assert_eq!(engine.pool.get_buf(100, "a", 5).1, Some((128, "a", 5)));
    assert_eq!(engine.pool.get_buf(100, "a", 5).1, None);
}

#[test]
fn bind_groups_reuse_pooled_buffers_before_creating() {
    let mut engine: Engine<Buf, u32> = Engine::new();
    let props = vello::pool::BufferProperties { size: 128, usages: 7, name: "tiles" };
    engine.pool.return_buf(props, (128, "pooled", 7));
    let transient = TransientBindMap::new(&vec![]);
    let bindings = vec![
        ResourceProxy::Buffer(buf(1, 100, "tiles")),
        ResourceProxy::Buffer(buf(2, 120, "tiles")),
    ];
    let cleared = engine
        .dispatch(&transient, (1, 1, 1), &bindings, 7, &create, &|_: ImageProxy| 0u32)
        .unwrap();
    assert!(cleared.is_empty());
    // The first binding takes the pooled buffer; the second finds none left
    // and gets a new one.
    assert_eq!(engine.bind_map.get_gpu_buf(1), Some(&(128, "pooled", 7)));
    assert_eq!(engine.bind_map.get_gpu_buf(2), Some(&(128, "tiles", 7)));
    assert_eq!(engine.pool.get_buf(100, "tiles", 7), (128, None));
}

#[test]
fn bind_groups_create_images_from_their_proxies_and_clear_in_binding_order() {
    let mut engine: Engine<Buf, (u32, u32)> = Engine::new();
    let transient = TransientBindMap::new(&vec![]);
    assert!(!engine.clear(&buf(5, 8, "b")));
    assert!(!engine.clear(&buf(3, 8, "a")));
    let wide = ImageProxy { width: 8, height: 2, format: ImageFormat::Bgra8, id: 4 };
    let bindings = vec![
        ResourceProxy::Buffer(buf(3, 8, "a")),
        ResourceProxy::Image(wide),
        ResourceProxy::BufferRange { proxy: buf(3, 8, "a"), offset: 0, size: 4 },
        ResourceProxy::Buffer(buf(5, 8, "b")),
    ];
    let cleared = engine
        .dispatch(&transient, (2, 2, 1), &bindings, 7, &create, &|p: ImageProxy| (p.width, p.height))
        .unwrap();
    assert_eq!(cleared, vec![3, 5]);
    assert_eq!(engine.bind_map.get_image(4), Some(&(8, 2)));
}

#[test]
fn skipped_dispatches_take_any_sizes() {
    let mut engine: Engine<Buf, u32> = Engine::new();
    let transient = TransientBindMap::new(&vec![]);
    let bindings = vec![ResourceProxy::Buffer(buf(1, u64::MAX, "huge"))];
    let r = engine.dispatch(&transient, (0, 1, 1), &bindings, 7, &create, &|_: ImageProxy| 0u32);
    assert!(r.is_none());
}
