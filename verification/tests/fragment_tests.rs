use space_travel::color::Color;
use space_travel::depth::DEPTH_INFINITE;
use space_travel::framebuffer::Framebuffer;
use space_travel::fragment::{write_fragments, Fragment};

const RED: Color = Color { r: 255, g: 0, b: 0, a: 255 };
const GREEN: Color = Color { r: 0, g: 255, b: 0, a: 255 };
const BLUE: Color = Color { r: 0, g: 0, b: 255, a: 255 };

fn grid(fb: &Framebuffer) -> Vec<(Option<Color>, Option<u32>)> {
    let mut out = Vec::new();
    for y in 0..fb.height() as i32 {
        for x in 0..fb.width() as i32 {
            out.push((fb.get_color(x, y), fb.get_depth(x, y)));
        }
    }
    out
}

#[test]
fn writing_no_fragments_changes_nothing() {
    let mut fb = Framebuffer::new(4, 4);
    fb.point(1, 2, GREEN, 17);
    let before = grid(&fb);
    let pixels = fb.color_buffer().clone();
    write_fragments(&mut fb, &Vec::new());
    assert_eq!(grid(&fb), before);
    assert_eq!(fb.color_buffer(), &pixels);
}

#[test]
fn each_fragment_goes_through_the_depth_test() {
    let mut fb = Framebuffer::new(3, 2);
    let fragments = vec![
        Fragment { x: 0, y: 0, color: RED, depth: 5 },
        Fragment { x: 1, y: 0, color: GREEN, depth: 9 },
        Fragment { x: 0, y: 0, color: BLUE, depth: 3 },
        Fragment { x: 1, y: 0, color: BLUE, depth: 9 },
        Fragment { x: 7, y: 7, color: BLUE, depth: 1 },
        Fragment { x: 2, y: 1, color: RED, depth: DEPTH_INFINITE },
    ];
    write_fragments(&mut fb, &fragments);
    assert_eq!(fb.get_color(0, 0), Some(BLUE));
    assert_eq!(fb.get_depth(0, 0), Some(3));
    assert_eq!(fb.get_color(1, 0), Some(GREEN));
    assert_eq!(fb.get_depth(1, 0), Some(9));
    assert_eq!(fb.get_color(2, 1), Some(Color::new(0, 0, 0, 255)));
    assert_eq!(fb.get_depth(2, 1), Some(DEPTH_INFINITE));
    assert_eq!(fb.get_color(2, 0), Some(Color::new(0, 0, 0, 255)));
}

#[test]
fn writes_accumulate_over_draw_calls() {
    let mut fb = Framebuffer::new(2, 1);
    write_fragments(&mut fb, &vec![Fragment { x: 0, y: 0, color: RED, depth: 10 }]);
    write_fragments(
        &mut fb,
        &vec![
            Fragment { x: 0, y: 0, color: GREEN, depth: 20 },
            Fragment { x: 1, y: 0, color: GREEN, depth: 20 },
        ],
    );
    assert_eq!(fb.get_color(0, 0), Some(RED));
    assert_eq!(fb.get_color(1, 0), Some(GREEN));
}

#[test]
fn smallest_depth_stays_with_its_first_color() {
    let mut fb = Framebuffer::new(1, 1);
    let fragments = vec![
        Fragment { x: 0, y: 0, color: RED, depth: 8 },
        Fragment { x: 0, y: 0, color: GREEN, depth: 4 },
        Fragment { x: 0, y: 0, color: BLUE, depth: 4 },
        Fragment { x: 0, y: 0, color: RED, depth: 6 },
    ];
    write_fragments(&mut fb, &fragments);
    assert_eq!(fb.get_depth(0, 0), Some(4));
    assert_eq!(fb.get_color(0, 0), Some(GREEN));
}
