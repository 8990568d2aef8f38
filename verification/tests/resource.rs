use hourglass::resource::ResourceMap;

const VIEWPORT: u64 = 0;

#[derive(Debug, Default, PartialEq, Eq, Copy, Clone)]
struct Viewport {
    width: u32,
    height: u32,
}

#[test]
fn resource_resources() {
    let mut resources: ResourceMap<Viewport> = ResourceMap::new();

    resources.insert(VIEWPORT, Viewport::default());
    assert_eq!(resources.get(VIEWPORT), Some(&Viewport::default()));

    let (width, height) = (1920, 1080);
    let viewport = resources.get_mut(VIEWPORT).unwrap();
    viewport.width = width;
    viewport.height = height;
    assert_eq!(
        resources.get(VIEWPORT),
        Some(&Viewport { width, height })
    );

    resources.remove(VIEWPORT);
    assert_eq!(resources.get(VIEWPORT), None);
}
