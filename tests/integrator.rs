use raytracer::integrator::{next_step, Event, Step, MAX_DEPTH};

#[test]
fn miss_gives_background_at_depth_zero() {
    assert_eq!(next_step(0, Event::Miss), Step::Background);
    assert_eq!(next_step(49, Event::Miss), Step::Background);
}

#[test]
fn absorbed_gives_emission_only() {
    assert_eq!(next_step(0, Event::Absorbed), Step::Emitted);
    assert_eq!(next_step(50, Event::Absorbed), Step::Emitted);
}

#[test]
fn scattered_bounces_below_cap() {
    assert_eq!(next_step(0, Event::Scattered), Step::Bounce(1));
    assert_eq!(next_step(49, Event::Scattered), Step::Bounce(50));
}

#[test]
fn scattered_at_cap_stops() {
    assert_eq!(MAX_DEPTH, 50);
    assert_eq!(next_step(50, Event::Scattered), Step::Emitted);
    assert_eq!(next_step(u32::MAX, Event::Scattered), Step::Emitted);
}

#[test]
fn mirror_enclosure_path_ends_after_fifty_bounces() {
    let mut depth = 0u32;
    let mut bounces = 0u32;
    loop {
        match next_step(depth, Event::Scattered) {
            Step::Bounce(d) => {
                assert_eq!(d, depth + 1);
                depth = d;
                bounces += 1;
            }
            end => {
                assert_eq!(end, Step::Emitted);
                break;
            }
        }
    }
    assert_eq!(bounces, 50);
    assert_eq!(depth, 50);
}
