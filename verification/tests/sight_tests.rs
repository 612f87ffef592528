use sightgfx::Color;
use sightgfx::Point;
use sightgfx::Rect;
use sightgfx::Sight;

fn count_pixels(s: &Sight, packed: u32) -> usize {
    s.buffer().iter().filter(|&&p| p == packed).count()
}

#[test]
fn new_starts_zeroed_and_dirty() {
    let mut s = Sight::new(4, 3);
    assert_eq!(s.width(), 4);
    assert_eq!(s.height(), 3);
    assert_eq!(s.buffer().len(), 12);
    assert!(s.buffer().iter().all(|&p| p == 0));
    assert!(s.present());
}

#[test]
fn clear_writes_every_pixel_and_sets_dirty() {
    let mut s = Sight::new(5, 4);
    s.present();
    let red = Color::rgb(255, 0, 0);
    s.clear(red);
    assert!(s.buffer().iter().all(|&p| p == red.to_u32()));
    assert!(s.present());
}

#[test]
fn put_pixel_inside_writes_and_sets_dirty() {
    let mut s = Sight::new(4, 4);
    s.present();
    let c = Color::rgb(0, 255, 0);
    s.put_pixel(2, 1, c);
    assert_eq!(s.get_pixel(2, 1), c.to_u32());
    assert_eq!(count_pixels(&s, c.to_u32()), 1);
    assert!(s.present());
}

#[test]
fn put_pixel_outside_is_a_silent_no_op() {
    let mut s = Sight::new(4, 4);
    s.present();
    let before = s.buffer().clone();
    let c = Color::rgb(9, 9, 9);
    s.put_pixel(-1, 0, c);
    s.put_pixel(0, -1, c);
    s.put_pixel(4, 0, c);
    s.put_pixel(0, 4, c);
    assert_eq!(s.buffer(), &before);
    // The write capability was never reached: no dirty transition.
    assert!(!s.present());
}

#[test]
fn present_flushes_once_per_dirty_transition() {
    let mut s = Sight::new(2, 2);
    s.clear(Color::rgb(1, 2, 3));
    assert!(s.present());
    assert!(!s.present());
    s.put_pixel(0, 0, Color::rgb(4, 5, 6));
    assert!(s.present());
    assert!(!s.present());
    assert!(s.force_present());
}

#[test]
fn put_pixel_aa_blends_against_existing() {
    let mut s = Sight::new(2, 2);
    s.clear(Color::rgb(0, 0, 0));
    let c = Color::rgb(255, 255, 255);
    s.put_pixel_aa(0, 0, c, 255);
    // Full coverage of an opaque color is an opaque write.
    assert_eq!(s.get_pixel(0, 0), c.to_u32());
    s.put_pixel_aa(1, 0, c, 0);
    // Zero coverage leaves the background.
    assert_eq!(s.get_pixel(1, 0), Color::rgb(0, 0, 0).to_u32());
}

#[test]
fn degenerate_line_writes_exactly_one_pixel() {
    let mut s = Sight::new(8, 8);
    let c = Color::rgb(10, 20, 30);
    s.draw_line(Point::new(3, 4), Point::new(3, 4), c);
    assert_eq!(count_pixels(&s, c.to_u32()), 1);
    assert_eq!(s.get_pixel(3, 4), c.to_u32());
}

#[test]
fn line_is_symmetric_in_its_endpoints() {
    let c = Color::rgb(11, 22, 33);
    let cases = [
        (Point::new(0, 0), Point::new(2, 1)),
        (Point::new(1, 2), Point::new(12, 9)),
        (Point::new(5, 14), Point::new(9, 3)),
        (Point::new(7, 7), Point::new(7, 1)),
        (Point::new(0, 3), Point::new(15, 3)),
        (Point::new(3, 3), Point::new(3, 3)),
    ];
    for (p, q) in cases {
        let mut a = Sight::new(16, 16);
        let mut b = Sight::new(16, 16);
        a.draw_line(p, q, c);
        b.draw_line(q, p, c);
        assert_eq!(a.buffer(), b.buffer());
    }
}

#[test]
fn mark_dirty_restores_the_flush_request() {
    let mut s = Sight::new(2, 2);
    s.clear(Color::rgb(1, 1, 1));
    assert!(s.present());
    // The flush failed: the caller restores the flag and retries.
    s.mark_dirty();
    assert!(s.present());
    assert!(!s.present());
}

#[test]
fn line_endpoints_are_written() {
    let mut s = Sight::new(16, 16);
    let c = Color::rgb(1, 1, 1);
    s.draw_line(Point::new(1, 2), Point::new(12, 9), c);
    assert_eq!(s.get_pixel(1, 2), c.to_u32());
    assert_eq!(s.get_pixel(12, 9), c.to_u32());
}

#[test]
fn thin_thick_line_matches_draw_line() {
    let c = Color::rgb(7, 8, 9);
    for t in [-3, 0, 1] {
        let mut a = Sight::new(16, 16);
        let mut b = Sight::new(16, 16);
        a.draw_line(Point::new(2, 3), Point::new(13, 7), c);
        b.draw_thick_line(Point::new(2, 3), Point::new(13, 7), c, t);
        assert_eq!(a.buffer(), b.buffer());
    }
}

#[test]
fn zero_length_thick_line_is_a_no_op() {
    let mut s = Sight::new(8, 8);
    let before = s.buffer().clone();
    s.draw_thick_line(Point::new(4, 4), Point::new(4, 4), Color::rgb(1, 1, 1), 5);
    assert_eq!(s.buffer(), &before);
}

#[test]
fn thick_line_covers_parallel_rows() {
    let mut s = Sight::new(16, 16);
    let c = Color::rgb(5, 5, 5);
    s.draw_thick_line(Point::new(2, 8), Point::new(13, 8), c, 3);
    // A horizontal line of thickness three covers rows 7, 8 and 9.
    for y in 7..=9 {
        assert_eq!(s.get_pixel(5, y), c.to_u32());
    }
    assert_eq!(s.get_pixel(5, 6), 0);
    assert_eq!(s.get_pixel(5, 10), 0);
}

#[test]
fn fill_rect_on_canvas_writes_width_times_height() {
    let mut s = Sight::new(10, 10);
    let c = Color::rgb(9, 0, 9);
    s.fill_rect(Rect::new(2, 3, 4, 5), c);
    assert_eq!(count_pixels(&s, c.to_u32()), 20);
    assert_eq!(s.get_pixel(2, 3), c.to_u32());
    assert_eq!(s.get_pixel(5, 7), c.to_u32());
    assert_eq!(s.get_pixel(6, 3), 0);
    assert_eq!(s.get_pixel(2, 8), 0);
}

#[test]
fn fill_rect_clipped_writes_fewer_pixels() {
    let mut s = Sight::new(10, 10);
    let c = Color::rgb(9, 0, 9);
    // Half of the 4x5 rectangle hangs off the left edge.
    s.fill_rect(Rect::new(-2, 3, 4, 5), c);
    assert_eq!(count_pixels(&s, c.to_u32()), 10);
}

#[test]
fn fill_rect_fully_off_canvas_stays_clean() {
    let mut s = Sight::new(10, 10);
    s.present();
    s.fill_rect(Rect::new(20, 20, 4, 5), Color::rgb(1, 1, 1));
    assert!(!s.present());
}

#[test]
fn draw_rect_strokes_the_border() {
    let mut s = Sight::new(10, 10);
    let c = Color::rgb(3, 3, 3);
    s.draw_rect(Rect::new(1, 1, 5, 4), c);
    assert_eq!(s.get_pixel(1, 1), c.to_u32());
    assert_eq!(s.get_pixel(5, 1), c.to_u32());
    assert_eq!(s.get_pixel(5, 4), c.to_u32());
    assert_eq!(s.get_pixel(1, 4), c.to_u32());
    assert_eq!(s.get_pixel(3, 2), 0);
}

#[test]
fn fill_circle_matches_squared_distance() {
    let mut s = Sight::new(16, 16);
    let c = Color::rgb(0, 0, 255);
    s.fill_circle(8, 8, 4, c);
    for y in 0..16i64 {
        for x in 0..16i64 {
            let inside = (x - 8) * (x - 8) + (y - 8) * (y - 8) <= 16;
            let p = s.get_pixel(x as u32, y as u32);
            if inside {
                assert_eq!(p, c.to_u32());
            } else {
                assert_eq!(p, 0);
            }
        }
    }
}

#[test]
fn zero_radius_circles_are_no_ops() {
    let mut s = Sight::new(8, 8);
    s.present();
    s.fill_circle(4, 4, 0, Color::rgb(1, 1, 1));
    s.draw_circle(4, 4, 0, Color::rgb(1, 1, 1));
    s.fill_circle(4, 4, -3, Color::rgb(1, 1, 1));
    assert!(!s.present());
}

#[test]
fn draw_circle_writes_the_cardinal_points() {
    let mut s = Sight::new(16, 16);
    let c = Color::rgb(2, 4, 6);
    s.draw_circle(8, 8, 5, c);
    assert_eq!(s.get_pixel(13, 8), c.to_u32());
    assert_eq!(s.get_pixel(3, 8), c.to_u32());
    assert_eq!(s.get_pixel(8, 13), c.to_u32());
    assert_eq!(s.get_pixel(8, 3), c.to_u32());
    assert_eq!(s.get_pixel(8, 8), 0);
}

#[test]
fn flat_point_triangle_writes_nothing() {
    let mut s = Sight::new(8, 8);
    s.present();
    let p = Point::new(3, 3);
    s.fill_triangle(p, p, p, Color::rgb(1, 1, 1));
    assert!(!s.present());
}

#[test]
fn flat_triangle_writes_one_row_span() {
    let mut s = Sight::new(10, 10);
    let c = Color::rgb(8, 8, 8);
    s.fill_triangle(Point::new(1, 5), Point::new(6, 5), Point::new(3, 5), c);
    assert_eq!(count_pixels(&s, c.to_u32()), 6);
    for x in 1..=6 {
        assert_eq!(s.get_pixel(x, 5), c.to_u32());
    }
}

#[test]
fn fill_triangle_covers_its_vertices() {
    let mut s = Sight::new(20, 20);
    let c = Color::rgb(1, 2, 3);
    s.fill_triangle(Point::new(3, 2), Point::new(16, 8), Point::new(5, 15), c);
    assert_eq!(s.get_pixel(3, 2), c.to_u32());
    assert_eq!(s.get_pixel(16, 8), c.to_u32());
    assert_eq!(s.get_pixel(5, 15), c.to_u32());
    // An interior point.
    assert_eq!(s.get_pixel(8, 8), c.to_u32());
    // A point well outside.
    assert_eq!(s.get_pixel(18, 18), 0);
}

#[test]
fn draw_triangle_strokes_three_lines() {
    let mut s = Sight::new(16, 16);
    let c = Color::rgb(4, 4, 4);
    s.draw_triangle(Point::new(2, 2), Point::new(12, 2), Point::new(2, 12), c);
    assert_eq!(s.get_pixel(2, 2), c.to_u32());
    assert_eq!(s.get_pixel(12, 2), c.to_u32());
    assert_eq!(s.get_pixel(2, 12), c.to_u32());
    assert_eq!(s.get_pixel(7, 2), c.to_u32());
    assert_eq!(s.get_pixel(2, 7), c.to_u32());
}

#[test]
fn gradient_h_interpolates_by_column() {
    let mut s = Sight::new(10, 4);
    let c1 = Color::rgb(0, 0, 0);
    let c2 = Color::rgb(200, 100, 50);
    s.fill_gradient_h(Rect::new(0, 0, 10, 4), c1, c2);
    for x in 0..10u32 {
        let expect = c1.lerp(c2, x, 10).to_u32();
        for y in 0..4u32 {
            assert_eq!(s.get_pixel(x, y), expect);
        }
    }
}

#[test]
fn gradient_v_interpolates_by_row() {
    let mut s = Sight::new(4, 10);
    let c1 = Color::rgb(10, 20, 30);
    let c2 = Color::rgb(210, 120, 60);
    s.fill_gradient_v(Rect::new(0, 0, 4, 10), c1, c2);
    for y in 0..10u32 {
        let expect = c1.lerp(c2, y, 10).to_u32();
        for x in 0..4u32 {
            assert_eq!(s.get_pixel(x, y), expect);
        }
    }
}

#[test]
fn zero_size_gradients_are_no_ops() {
    let mut s = Sight::new(8, 8);
    s.present();
    s.fill_gradient_h(Rect::new(1, 1, 0, 5), Color::rgb(1, 1, 1), Color::rgb(2, 2, 2));
    s.fill_gradient_v(Rect::new(1, 1, 5, 0), Color::rgb(1, 1, 1), Color::rgb(2, 2, 2));
    assert!(!s.present());
}

#[test]
fn rounded_rect_fill_covers_center_and_skips_corners() {
    let mut s = Sight::new(20, 20);
    let c = Color::rgb(6, 6, 6);
    s.fill_rounded_rect(Rect::new(2, 2, 12, 10), 4, c);
    // The center is filled.
    assert_eq!(s.get_pixel(8, 7), c.to_u32());
    // The extreme corner pixel stays empty: it lies outside the corner disk.
    assert_eq!(s.get_pixel(2, 2), 0);
}

#[test]
fn draw_points_writes_each_listed_pixel() {
    let mut s = Sight::new(8, 8);
    let c = Color::rgb(1, 9, 1);
    let pts = vec![Point::new(0, 0), Point::new(3, 5), Point::new(-2, 1), Point::new(7, 7)];
    s.draw_points(&pts, c);
    assert_eq!(s.get_pixel(0, 0), c.to_u32());
    assert_eq!(s.get_pixel(3, 5), c.to_u32());
    assert_eq!(s.get_pixel(7, 7), c.to_u32());
    assert_eq!(count_pixels(&s, c.to_u32()), 3);
}

#[test]
fn rect_contains_is_half_open() {
    let r = Rect::new(2, 3, 4, 5);
    assert!(r.contains(Point::new(2, 3)));
    assert!(r.contains(Point::new(5, 7)));
    assert!(!r.contains(Point::new(6, 3)));
    assert!(!r.contains(Point::new(2, 8)));
    assert!(!r.contains(Point::new(1, 3)));
}
