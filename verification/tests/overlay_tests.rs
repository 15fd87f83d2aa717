use space_travel::color::Color;
use space_travel::framebuffer::Framebuffer;
use space_travel::overlay::draw_closed_path;

const WHITE: Color = Color { r: 255, g: 255, b: 255, a: 255 };
const RED: Color = Color { r: 255, g: 0, b: 0, a: 255 };

fn lit(fb: &Framebuffer, color: Color) -> Vec<(i32, i32)> {
    let mut out = Vec::new();
    for y in 0..fb.height() as i32 {
        for x in 0..fb.width() as i32 {
            if fb.get_color(x, y) == Some(color) {
                out.push((x, y));
            }
        }
    }
    out
}

#[test]
fn path_without_points_draws_nothing() {
    let mut fb = Framebuffer::new(4, 4);
    let before = fb.color_buffer().clone();
    draw_closed_path(&mut fb, &Vec::new(), WHITE, 1000);
    assert_eq!(fb.color_buffer(), &before);
}

#[test]
fn path_of_one_point_is_one_pixel() {
    let mut fb = Framebuffer::new(4, 4);
    draw_closed_path(&mut fb, &vec![(2, 3)], WHITE, 1000);
    assert_eq!(lit(&fb, WHITE), vec![(2, 3)]);
    assert_eq!(fb.get_depth(2, 3), Some(1000));
}

#[test]
fn path_of_two_points_is_one_line() {
    let mut fb = Framebuffer::new(5, 2);
    draw_closed_path(&mut fb, &vec![(0, 0), (4, 0)], WHITE, 1000);
    assert_eq!(lit(&fb, WHITE), vec![(0, 0), (1, 0), (2, 0), (3, 0), (4, 0)]);
}

#[test]
fn path_is_closed_from_the_last_point_to_the_first() {
    let mut fb = Framebuffer::new(4, 4);
    draw_closed_path(&mut fb, &vec![(0, 0), (3, 0), (3, 3), (0, 3)], WHITE, 1000);
    assert_eq!(
        lit(&fb, WHITE),
        vec![
            (0, 0),
            (1, 0),
            (2, 0),
            (3, 0),
            (0, 1),
            (3, 1),
            (0, 2),
            (3, 2),
            (0, 3),
            (1, 3),
            (2, 3),
            (3, 3)
        ]
    );
}

#[test]
fn path_stays_behind_nearer_pixels() {
    let mut fb = Framebuffer::new(4, 4);
    fb.point(3, 1, RED, 10);
    fb.point(1, 1, RED, 10);
    draw_closed_path(&mut fb, &vec![(0, 0), (3, 0), (3, 3), (0, 3)], WHITE, 1000);
    assert_eq!(fb.get_color(3, 1), Some(RED));
    assert_eq!(fb.get_color(1, 1), Some(RED));
    assert_eq!(lit(&fb, WHITE).len(), 11);
}

#[test]
fn path_points_outside_the_grid_are_clipped() {
    let mut fb = Framebuffer::new(3, 3);
    draw_closed_path(&mut fb, &vec![(-2, 1), (5, 1), (5, -4)], WHITE, 1000);
    // The side that closes the path, from (5, -4) to (-2, 1), crosses the
    // corner pixel on its way.
    assert_eq!(lit(&fb, WHITE), vec![(0, 0), (0, 1), (1, 1), (2, 1)]);
    let mut fb = Framebuffer::new(3, 3);
    draw_closed_path(&mut fb, &vec![(-2, 1), (5, 1), (5, 9)], WHITE, 1000);
    assert_eq!(lit(&fb, WHITE), vec![(0, 1), (1, 1), (2, 1)]);
}
