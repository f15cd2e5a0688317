use raytracer::trace::{next_step, pick_surface, HitKind, Surface, TraceStep};

#[test]
fn no_hit_anywhere_gives_no_surface() {
    assert_eq!(pick_surface(None, None), None);
}

#[test]
fn a_lone_background_hit_is_taken() {
    assert_eq!(pick_surface(Some(12), None), Some((Surface::Background, 12)));
}

#[test]
fn a_lone_hierarchy_hit_is_taken() {
    assert_eq!(pick_surface(None, Some((4, 9))), Some((Surface::Indexed(4), 9)));
}

#[test]
fn the_nearer_surface_wins() {
    assert_eq!(pick_surface(Some(5), Some((4, 9))), Some((Surface::Background, 5)));
    assert_eq!(pick_surface(Some(50), Some((4, 9))), Some((Surface::Indexed(4), 9)));
}

#[test]
fn a_tie_goes_to_the_hierarchy() {
    assert_eq!(pick_surface(Some(9), Some((2, 9))), Some((Surface::Indexed(2), 9)));
}

#[test]
fn a_spent_path_is_black_whatever_it_meets() {
    for hit in [HitKind::Miss, HitKind::Emissive, HitKind::Scattering] {
        assert_eq!(next_step(-1, hit), TraceStep::Black);
        assert_eq!(next_step(i32::MIN, hit), TraceStep::Black);
    }
}

#[test]
fn a_miss_gives_the_ambient_color() {
    assert_eq!(next_step(0, HitKind::Miss), TraceStep::Ambient);
    assert_eq!(next_step(100, HitKind::Miss), TraceStep::Ambient);
}

#[test]
fn an_emissive_hit_ends_the_path_at_any_depth() {
    for depth in [0, 1, 2, 100, i32::MAX] {
        assert_eq!(next_step(depth, HitKind::Emissive), TraceStep::Emission);
    }
}

#[test]
fn a_scattering_hit_bounces_with_one_less_depth() {
    assert_eq!(next_step(100, HitKind::Scattering), TraceStep::Bounce(99));
    assert_eq!(next_step(0, HitKind::Scattering), TraceStep::Bounce(-1));
}

#[test]
fn a_path_of_scattering_hits_is_spent_after_depth_plus_one_bounces() {
    let mut depth = 5;
    let mut bounces = 0;
    loop {
        match next_step(depth, HitKind::Scattering) {
            TraceStep::Bounce(d) => {
                bounces += 1;
                depth = d;
            }
            step => {
                assert_eq!(step, TraceStep::Black);
                break;
            }
        }
    }
    assert_eq!(bounces, 6);
}
