use raypix::color::Rgb8;
use raypix::fixed::SCALE;
use raypix::img::Raster;
use raypix::object::Object;
use raypix::render::raytrace;
use raypix::xyz::Xyz;

fn v(x: i64, y: i64, z: i64) -> Xyz {
    Xyz { x, y, z }
}

fn pixel(img: &Raster, x: u32, y: u32) -> Rgb8 {
    img.get_pixel(x, y)
}

#[test]
fn raytrace_output_dimensions_swap_resolution() {
    // The resolution pair is (rows, columns); the raster is column-major
    // sized, so its dimensions come back swapped.
    let objects: Vec<Object> = Vec::new();
    let img = raytrace(&objects, [2, 3], v(0, 0, 0), 1, Rgb8 { r: 1, g: 2, b: 3 });
    assert_eq!(img.dimensions(), (3, 2));
}

#[test]
fn empty_scene_renders_background_everywhere() {
    let objects: Vec<Object> = Vec::new();
    let bgd = Rgb8 { r: 11, g: 22, b: 33 };
    let img = raytrace(&objects, [4, 4], v(0, 0, 0), 3, bgd);
    for y in 0..4u32 {
        for x in 0..4u32 {
            assert_eq!(pixel(&img, x, y), bgd);
        }
    }
}

#[test]
fn single_light_sphere_gives_background_or_light_color_only() {
    let col = Rgb8 { r: 200, g: 100, b: 50 };
    let bgd = Rgb8 { r: 9, g: 9, b: 9 };
    let sphere = Object::new_sphere(v(8 * SCALE, 0, 0), col, 4 * SCALE, SCALE, true);
    let objects = vec![sphere];
    let img = raytrace(&objects, [4, 4], v(0, 0, 0), 2, bgd);
    let mut hits = 0;
    for y in 0..4u32 {
        for x in 0..4u32 {
            let p = pixel(&img, x, y);
            assert!(p == bgd || p == col);
            if p == col {
                hits += 1;
            }
        }
    }
    // The central ray runs straight into the sphere.
    assert_eq!(pixel(&img, 2, 2), col);
    assert!(hits >= 1);
}

#[test]
fn single_plane_no_lights_gives_plane_color_on_hit() {
    // A forward-facing plane with no light in the scene: the light color
    // stays white and the shadow factor stays one, so a hit pixel carries
    // exactly the plane's color.
    let col = Rgb8 { r: 120, g: 60, b: 30 };
    let bgd = Rgb8 { r: 1, g: 2, b: 3 };
    let plane = Object::new_plane(v(SCALE, 0, 0), col, 4 * SCALE, SCALE, false);
    let objects = vec![plane];
    let img = raytrace(&objects, [4, 4], v(0, 0, 0), 3, bgd);
    for y in 0..4u32 {
        for x in 0..4u32 {
            // Every primary ray has a positive x component, so every pixel
            // hits the plane.
            assert_eq!(pixel(&img, x, y), col);
        }
    }
}

#[test]
fn single_plane_behind_camera_renders_background() {
    let col = Rgb8 { r: 120, g: 60, b: 30 };
    let bgd = Rgb8 { r: 1, g: 2, b: 3 };
    let plane = Object::new_plane(v(SCALE, 0, 0), col, -4 * SCALE, SCALE, false);
    let objects = vec![plane];
    let img = raytrace(&objects, [4, 4], v(0, 0, 0), 3, bgd);
    for y in 0..4u32 {
        for x in 0..4u32 {
            assert_eq!(pixel(&img, x, y), bgd);
        }
    }
}

#[test]
fn reflective_sphere_does_not_rehit_itself() {
    // One reflective non-light sphere and several bounces: the reflected
    // ray leaves the surface and must not register the same sphere again,
    // so the accumulated color is the sphere's color exactly once.
    let col = Rgb8 { r: 10, g: 10, b: 10 };
    let bgd = Rgb8 { r: 0, g: 0, b: 0 };
    let sphere = Object::new_sphere(v(8 * SCALE, 0, 0), col, 4 * SCALE, SCALE, false);
    let objects = vec![sphere];
    let img = raytrace(&objects, [4, 4], v(0, 0, 0), 5, bgd);
    assert_eq!(pixel(&img, 2, 2), col);
}

#[test]
fn zero_bounces_renders_background() {
    let col = Rgb8 { r: 200, g: 100, b: 50 };
    let bgd = Rgb8 { r: 7, g: 8, b: 9 };
    let sphere = Object::new_sphere(v(8 * SCALE, 0, 0), col, 4 * SCALE, SCALE, true);
    let objects = vec![sphere];
    let img = raytrace(&objects, [4, 4], v(0, 0, 0), 0, bgd);
    for y in 0..4u32 {
        for x in 0..4u32 {
            assert_eq!(pixel(&img, x, y), bgd);
        }
    }
}

#[test]
fn shadowed_surface_is_dimmed() {
    // A wall behind a blocking sphere, with a light off to the side whose
    // line to the wall's hit point passes through the sphere: the shadow
    // factor halves the accumulated color.
    let wall_col = Rgb8 { r: 200, g: 200, b: 200 };
    let bgd = Rgb8 { r: 0, g: 0, b: 0 };
    let wall = Object::new_plane(v(SCALE, 0, 0), wall_col, 16 * SCALE, SCALE, false);
    // The light sits between camera and wall, straight ahead.
    let light = Object::new_sphere(v(8 * SCALE, 0, 0), Rgb8 { r: 255, g: 255, b: 255 }, SCALE, SCALE, true);
    // A dark sphere centered on the segment from the corner pixel's wall
    // hit toward the light.
    let blocker = Object::new_sphere(
        v(12 * SCALE, -8 * SCALE, 8 * SCALE),
        Rgb8 { r: 1, g: 1, b: 1 },
        2 * SCALE,
        SCALE,
        false,
    );
    let with_blocker = vec![wall, light, blocker];
    let without_blocker = vec![wall, light];
    // Use a corner pixel whose ray misses both spheres but hits the wall.
    let img_a = raytrace(&with_blocker, [4, 4], v(0, 0, 0), 1, bgd);
    let img_b = raytrace(&without_blocker, [4, 4], v(0, 0, 0), 1, bgd);
    let pa = pixel(&img_a, 0, 0);
    let pb = pixel(&img_b, 0, 0);
    // Same geometry and lighting either way; the blocker only casts the
    // shadow, halving each channel.
    assert_eq!(pa.r, pb.r / 2);
    assert_eq!(pa.g, pb.g / 2);
    assert_eq!(pa.b, pb.b / 2);
}

#[test]
fn raster_put_then_get_round_trip() {
    let mut img = Raster::new(3, 2);
    assert_eq!(img.dimensions(), (3, 2));
    assert_eq!(img.get_pixel(2, 1), Rgb8 { r: 0, g: 0, b: 0 });
    img.put_pixel(2, 1, Rgb8 { r: 5, g: 6, b: 7 });
    assert_eq!(img.get_pixel(2, 1), Rgb8 { r: 5, g: 6, b: 7 });
    assert_eq!(img.get_pixel(0, 0), Rgb8 { r: 0, g: 0, b: 0 });
}
