use galaxy::system::ParticleSystem;

/// A gravitating disc in the plane.
#[derive(Clone, Copy, Debug, PartialEq)]
struct Disc {
    x: f64,
    y: f64,
    vx: f64,
    vy: f64,
    mass: f64,
    radius: f64,
}

const G: f64 = 1e-4;
const MIN_DISTANCE: f64 = 1e-6;

fn disc(x: f64, y: f64, mass: f64, radius: f64) -> Disc {
    Disc { x, y, vx: 0.0, vy: 0.0, mass, radius }
}

fn integrate(d: Disc, others: Vec<Disc>) -> Disc {
    let x = d.x + d.vx;
    let y = d.y + d.vy;
    let (mut fx, mut fy) = (0.0, 0.0);
    for o in &others {
        let (dx, dy) = (o.x - x, o.y - y);
        let dist = (dx * dx + dy * dy).sqrt().max(MIN_DISTANCE);
        let f = G * d.mass * o.mass / (dist * dist);
        fx += dx / dist * f;
        fy += dy / dist * f;
    }
    Disc { x, y, vx: d.vx + fx, vy: d.vy + fy, ..d }
}

fn touches(a: Disc, b: Disc) -> bool {
    ((a.x - b.x).powi(2) + (a.y - b.y).powi(2)).sqrt() < a.radius + b.radius
}

fn merge(a: Disc, b: Disc) -> Disc {
    let m = a.mass + b.mass;
    Disc {
        x: (a.x * a.mass + b.x * b.mass) / m,
        y: (a.y * a.mass + b.y * b.mass) / m,
        vx: (a.vx * a.mass + b.vx * b.mass) / m,
        vy: (a.vy * a.mass + b.vy * b.mass) / m,
        mass: m,
        radius: (a.radius * a.mass + b.radius * b.mass) / m,
    }
}

fn system(ds: &[Disc]) -> ParticleSystem<Disc> {
    let mut s = ParticleSystem::new();
    for d in ds {
        s.add_particle(*d);
    }
    s
}

fn tick(s: &mut ParticleSystem<Disc>) {
    s.update(integrate, touches, merge);
}

fn momentum(s: &ParticleSystem<Disc>) -> (f64, f64) {
    s.particles().iter().fold((0.0, 0.0), |(px, py), d| (px + d.mass * d.vx, py + d.mass * d.vy))
}

#[test]
fn lone_disc_feels_no_force() {
    let mut s = system(&[Disc { vx: 0.5, vy: -0.25, ..disc(1.0, 2.0, 10.0, 1.0) }]);
    for _ in 0..10 {
        tick(&mut s);
    }
    let d = s.particles()[0];
    assert_eq!(s.len(), 1);
    assert_eq!((d.vx, d.vy), (0.5, -0.25));
    assert_eq!((d.x, d.y), (6.0, -0.5));
}

#[test]
fn lone_disc_at_rest_stays_put() {
    let mut s = system(&[disc(3.0, 4.0, 1.0, 1.0)]);
    for _ in 0..5 {
        tick(&mut s);
    }
    assert_eq!(s.particles(), &vec![disc(3.0, 4.0, 1.0, 1.0)]);
}

#[test]
fn momentum_is_conserved_without_collisions() {
    // equal masses far apart: the pairwise pulls cancel in the sum
    let mut s = system(&[
        disc(-50.0, 0.0, 10.0, 1.0),
        disc(50.0, 10.0, 10.0, 1.0),
        disc(0.0, 60.0, 10.0, 1.0),
    ]);
    let before = momentum(&s);
    tick(&mut s);
    let after = momentum(&s);
    assert_eq!(s.len(), 3);
    assert!((after.0 - before.0).abs() < 1e-9);
    assert!((after.1 - before.1).abs() < 1e-9);
}

#[test]
fn equal_pair_stays_mirrored() {
    let mut s = system(&[disc(-20.0, 0.0, 50.0, 1.0), disc(20.0, 0.0, 50.0, 1.0)]);
    let mut ticks = 0;
    while s.len() == 2 && ticks < 10_000 {
        let p = s.particles();
        assert!((p[0].x + p[1].x).abs() < 1e-9);
        assert!((p[0].y - p[1].y).abs() < 1e-9);
        assert!(p[0].x < 0.0);
        tick(&mut s);
        ticks += 1;
    }
    assert_eq!(s.len(), 1);
    assert!(ticks > 1);
}

#[test]
fn concrete_pair_merges_into_one() {
    let a = disc(-0.4, 0.0, 10.0, 1.0);
    let b = disc(0.4, 0.0, 10.0, 1.0);
    let mut s = system(&[a, b]);
    tick(&mut s);
    assert_eq!(s.len(), 1);
    let m = s.particles()[0];
    assert_eq!(m.mass, 20.0);
    assert!(m.x.abs() < 1e-12 && m.y.abs() < 1e-12);
    assert!((m.radius - 1.0).abs() < 1e-12);
}

#[test]
fn merge_conserves_mass_and_momentum() {
    let a = Disc { vx: 1.0, vy: 0.5, ..disc(0.0, 0.0, 3.0, 1.0) };
    let b = Disc { vx: -2.0, vy: 0.25, ..disc(0.5, 0.0, 7.0, 2.0) };
    let c = disc(100.0, 100.0, 2.0, 1.0);
    let mut s = system(&[a, b, c]);
    let mass_before: f64 = s.particles().iter().map(|d| d.mass).sum();
    let before = momentum(&s);
    s.update(|d: Disc, _o: Vec<Disc>| d, touches, merge);
    assert_eq!(s.len(), 2);
    let mass_after: f64 = s.particles().iter().map(|d| d.mass).sum();
    assert_eq!(mass_after, mass_before);
    let after = momentum(&s);
    assert!((after.0 - before.0).abs() < 1e-9);
    assert!((after.1 - before.1).abs() < 1e-9);
    // the third disc comes first, the merged one is appended
    assert_eq!(s.particles()[0].x, 100.0);
    let m = s.particles()[1];
    assert_eq!(m.mass, 10.0);
    assert!(!s.particles().iter().any(|d| (d.x, d.mass) == (a.x, a.mass) || (d.x, d.mass) == (b.x, b.mass)));
}

#[test]
fn contact_exactly_at_radii_sum_does_not_merge() {
    let mut s = system(&[disc(0.0, 0.0, 1.0, 1.0), disc(3.0, 0.0, 1.0, 2.0)]);
    s.update(|d: Disc, _o: Vec<Disc>| d, touches, merge);
    assert_eq!(s.len(), 2);
}

#[test]
fn coincident_discs_stay_finite() {
    let mut s = system(&[disc(1.0, 1.0, 1.0, 0.001), disc(1.0, 1.0, 1.0, 0.001)]);
    let r = integrate(s.particles()[0], vec![s.particles()[1]]);
    assert!(r.vx.is_finite() && r.vy.is_finite());
    tick(&mut s);
    assert!(s.particles().iter().all(|d| d.x.is_finite() && d.vx.is_finite()));
}
