use space_travel::assembly::{assemble, ScreenPoint};
use space_travel::color::Color;
use space_travel::depth::DEPTH_INFINITE;
use space_travel::fragment::{write_fragments, Fragment};
use space_travel::framebuffer::Framebuffer;
use space_travel::raster::rasterize;
use space_travel::shader::ShaderKind;

fn p(x: i32, y: i32) -> ScreenPoint {
    ScreenPoint { x, y }
}

fn draw(fb: &mut Framebuffer, vertices: &Vec<ScreenPoint>, color: Color, depth: u32) -> usize {
    let triangles = assemble(vertices);
    let samples = rasterize(&triangles, fb.width(), fb.height());
    let fragments: Vec<Fragment> =
        samples.iter().map(|s| Fragment { x: s.x, y: s.y, color, depth }).collect();
    write_fragments(fb, &fragments);
    fragments.len()
}

#[test]
fn draw_call_without_vertices_leaves_the_frame_untouched() {
    let mut fb = Framebuffer::new(8, 8);
    fb.set_background_color(Color::new(35, 35, 40, 255));
    fb.clear();
    fb.point(2, 2, Color::new(9, 9, 9, 255), 4);
    let colors = fb.color_buffer().clone();
    let depth = fb.get_depth(2, 2);
    let written = draw(&mut fb, &Vec::new(), Color::new(255, 0, 0, 255), 1);
    assert_eq!(written, 0);
    assert_eq!(fb.color_buffer(), &colors);
    assert_eq!(fb.get_depth(2, 2), depth);
    assert_eq!(fb.get_depth(0, 0), Some(DEPTH_INFINITE));
}

#[test]
fn nearer_mesh_hides_farther_mesh_in_either_order() {
    let red = Color::new(255, 0, 0, 255);
    let blue = Color::new(0, 0, 255, 255);
    let big = vec![p(0, 0), p(2048, 0), p(0, 2048)];
    let small = vec![p(0, 0), p(1024, 0), p(0, 1024)];

    let mut first = Framebuffer::new(8, 8);
    draw(&mut first, &big, blue, 200);
    draw(&mut first, &small, red, 100);
    let mut second = Framebuffer::new(8, 8);
    draw(&mut second, &small, red, 100);
    draw(&mut second, &big, blue, 200);

    assert_eq!(first.color_buffer(), second.color_buffer());
    assert_eq!(first.get_color(0, 0), Some(red));
    assert_eq!(first.get_color(1, 1), Some(red));
    assert_eq!(first.get_color(3, 0), Some(blue));
    assert_eq!(first.get_color(7, 7), Some(Color::new(0, 0, 0, 255)));
}

#[test]
fn overlay_line_stays_behind_the_meshes() {
    let red = Color::new(255, 0, 0, 255);
    let grey = Color::new(200, 200, 200, 50);
    let mut fb = Framebuffer::new(8, 8);
    draw(&mut fb, &vec![p(0, 0), p(1024, 0), p(0, 1024)], red, 100);
    fb.draw_line_with_depth(0, 1, 7, 1, grey, 1000);
    assert_eq!(fb.get_color(0, 1), Some(red));
    assert_eq!(fb.get_color(1, 1), Some(red));
    assert_eq!(fb.get_color(2, 1), Some(grey));
    assert_eq!(fb.get_color(7, 1), Some(grey));
}

#[test]
fn shader_is_chosen_once_per_draw_call() {
    let kinds: Vec<ShaderKind> =
        ["Voidheart", "Nave", "Asteroid"].iter().map(|n| ShaderKind::from_name(n)).collect();
    assert_eq!(kinds, vec![ShaderKind::Umbraleth, ShaderKind::Nave, ShaderKind::Default]);
}
