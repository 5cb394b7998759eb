use vello::atlas::{ImagePlacement, PlacementAction};

#[test]
fn placement_of_no_images_is_done() {
    let (placement, action) = ImagePlacement::new(0);
    assert_eq!(action, PlacementAction::Done);
    assert!(placement.into_places().is_empty());
}

#[test]
fn placement_moves_on_after_each_place() {
    let (mut p, action) = ImagePlacement::new(2);
    assert_eq!(action, PlacementAction::Place(0));
    assert_eq!(p.placed(Some((0, 0))), PlacementAction::Place(1));
    assert_eq!(p.placed(Some((16, 0))), PlacementAction::Done);
    assert_eq!(p.into_places(), vec![Some((0, 0)), Some((16, 0))]);
}

#[test]
fn placement_grows_and_starts_over() {
    let (mut p, _) = ImagePlacement::new(2);
    assert_eq!(p.placed(Some((0, 0))), PlacementAction::Place(1));
    assert_eq!(p.placed(None), PlacementAction::Grow);
    assert_eq!(p.grown(true), PlacementAction::Place(0));
    assert_eq!(p.placed(Some((0, 0))), PlacementAction::Place(1));
    assert_eq!(p.placed(Some((0, 64))), PlacementAction::Done);
    assert_eq!(p.into_places(), vec![Some((0, 0)), Some((0, 64))]);
}

#[test]
fn placement_gives_up_on_an_image_at_the_largest_atlas() {
    let (mut p, _) = ImagePlacement::new(3);
    assert_eq!(p.placed(None), PlacementAction::Grow);
    assert_eq!(p.grown(false), PlacementAction::Place(1));
    assert_eq!(p.placed(Some((1, 2))), PlacementAction::Place(2));
    assert_eq!(p.placed(None), PlacementAction::Grow);
    assert_eq!(p.grown(false), PlacementAction::Done);
    assert_eq!(p.into_places(), vec![None, Some((1, 2)), None]);
}
