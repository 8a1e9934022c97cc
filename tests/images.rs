use prism::blur3::{blur3_inline, blur3_inline_traced, blur3_intermediate, blur3_local_intermediate, blur3_split_y, blur3_tiled};
use prism::image::{flatten, gray_to_rgb, BufferFactory, GrayImage, RgbImage};
use prism::replay::{
    compute_tint, create_gif_palette, layout, palette_index, replay, upscale, GifPalette,
};
use prism::symbol_table::{global_buffer_string_name, height_symbol_name, width_symbol_name, SymbolTable};
use prism::trace::{Action, ActiveRegion, Trace, TraceId, TraceImage, TraceImageFactory};

fn test_image(width: usize, height: usize) -> GrayImage {
    let mut i = GrayImage::new(width, height);
    for y in 0..height {
        for x in 0..width {
            i.set(x, y, ((x + y) % 17) as u8);
        }
    }
    i
}

fn blur3_reference(image: &GrayImage) -> GrayImage {
    let mut result = GrayImage::new(image.width(), image.height());
    for y in 1..image.height() - 1 {
        for x in 1..image.width() - 1 {
            let g = |x: usize, y: usize| image.get(x, y) as u32;
            let t = (g(x - 1, y - 1) + g(x, y - 1) + g(x + 1, y - 1)) / 3;
            let m = (g(x - 1, y) + g(x, y) + g(x + 1, y)) / 3;
            let b = (g(x - 1, y + 1) + g(x, y + 1) + g(x + 1, y + 1)) / 3;
            result.set(x, y, ((t + m + b) / 3) as u8);
        }
    }
    result
}

fn pixels(img: &GrayImage) -> Vec<u8> {
    img.data()[..img.width() * img.height()].to_vec()
}

#[test]
fn blur3_variants_match_reference() {
    let i = test_image(10, 10);
    let expected = pixels(&blur3_reference(&i));
    assert_eq!(pixels(&blur3_inline(&i)), expected);
    assert_eq!(pixels(&blur3_intermediate(&i)), expected);
    assert_eq!(pixels(&blur3_local_intermediate(&i)), expected);
    assert_eq!(pixels(&blur3_split_y(&i, 5)), expected);
    assert_eq!(pixels(&blur3_split_y(&i, 2)), expected);
    assert_eq!(pixels(&blur3_tiled(&i, 5, 5)), expected);
}

#[test]
fn blur3_of_bright_image() {
    let mut i = GrayImage::new(4, 4);
    for y in 0..4 {
        for x in 0..4 {
            i.set(x, y, 255);
        }
    }
    let r = blur3_inline(&i);
    assert_eq!(r.get(1, 1), 255);
    assert_eq!(r.get(0, 1), 0);
}

#[test]
fn tint_and_palette() {
    assert_eq!(compute_tint(0), 85);
    assert_eq!(compute_tint(255), 0);
    assert_eq!(compute_tint(100), 51);
    let p = create_gif_palette();
    assert_eq!(p.palette.len(), 768);
    assert_eq!(&p.palette[0..3], &[0, 0, 0]);
    assert_eq!(&p.palette[3 * 125..3 * 126], &[250, 250, 250]);
    assert_eq!(&p.palette[3 * 127..3 * 128], &[2, 2, 86]);
    assert_eq!(&p.palette[3 * 252..], &[255, 0, 0, 0, 255, 0, 0, 255, 255, 255, 255, 0]);
    assert_eq!(palette_index([255, 0, 0]), Some(252));
    assert_eq!(palette_index([0, 255, 0]), Some(253));
    assert_eq!(palette_index([0, 0, 255]), Some(254));
    assert_eq!(palette_index([255, 255, 0]), Some(255));
    assert_eq!(palette_index([100, 100, 100]), Some(50));
    assert_eq!(palette_index([100, 100, 151]), Some(176));
    assert_eq!(palette_index([1, 2, 3]), None);
    assert_eq!(palette_index([252, 252, 252]), None);
    let g = GifPalette::new(&[1, 2, 3]);
    assert_eq!(g.palette, vec![1, 2, 3]);
    assert_eq!(g.index_of([4, 4, 4]), Some(2));
}

#[test]
fn upscale_repeats_pixels() {
    let mut i = GrayImage::new(2, 1);
    i.set(0, 0, 7);
    i.set(1, 0, 9);
    let u = upscale(&i, 2);
    assert_eq!((u.width(), u.height()), (4, 2));
    assert_eq!(pixels(&u), vec![7, 7, 9, 9, 7, 7, 9, 9]);
}

#[test]
fn gray_to_rgb_and_flatten() {
    let mut i = GrayImage::new(2, 1);
    i.set(0, 0, 3);
    i.set(1, 0, 200);
    let rgb: RgbImage = gray_to_rgb(&i);
    assert_eq!(rgb.get(1, 0), [200, 200, 200]);
    assert_eq!(flatten(rgb.data()), vec![3, 3, 3, 200, 200, 200]);
}

#[test]
fn layout_places_images_side_by_side() {
    let l = layout(&[(3, 2), (4, 5), (1, 1)], 1);
    assert_eq!((l.width, l.height), (12, 7));
    assert_eq!(l.offsets, vec![(1, 1), (5, 1), (10, 1)]);
}

#[test]
fn replay_frames() {
    let mut f = TraceImageFactory::new();
    let input = f.create_from_image(&test_image(2, 2));
    let mut out = f.create_image(2, 2);
    let v = input.get(&mut f.trace, 1, 1);
    out.set(&mut f.trace, 0, 0, v);
    out.active(&mut f.trace, 0, 0, 1, 1);
    out.set(&mut f.trace, 0, 0, 4);
    out.clear(&mut f.trace);
    assert_eq!(
        f.trace.actions().to_vec(),
        vec![
            Action::Read(TraceId(0), 1, 1),
            Action::Write(TraceId(1), 0, 0, 2),
            Action::Active(TraceId(1), ActiveRegion { x: 0, y: 0, width: 1, height: 1 }),
            Action::Write(TraceId(1), 0, 0, 4),
            Action::Clear(TraceId(1)),
        ]
    );
    assert_eq!(out.image().get(0, 0), 0);
    let frames = replay(&f.trace);
    assert_eq!(frames.len(), 1 + 2 + 2 + 1 + 2 + 2);
    // The canvas holds both 2x2 images with a margin of 1.
    assert_eq!((frames[0].width(), frames[0].height()), (7, 4));
    assert_eq!(frames[0].get(0, 0), [120, 120, 120]);
    assert_eq!(frames[0].get(2, 2), [2, 2, 2]);
    // A read flashes green, then restores.
    assert_eq!(frames[1].get(2, 2), [0, 255, 0]);
    assert_eq!(frames[2].get(2, 2), [2, 2, 2]);
    // A write flashes red, then shows the value.
    assert_eq!(frames[3].get(4, 1), [255, 0, 0]);
    assert_eq!(frames[4].get(4, 1), [2, 2, 2]);
    // Activating tints the region blue.
    assert_eq!(frames[5].get(4, 1), [2, 2, 2 + compute_tint(2)]);
    // A write inside the active region is tinted.
    assert_eq!(frames[7].get(4, 1), [4, 4, 4 + compute_tint(4)]);
    // A clear flashes red, then black.
    assert_eq!(frames[8].get(5, 2), [255, 0, 0]);
    assert_eq!(frames[9].get(5, 2), [0, 0, 0]);
}

#[test]
fn trace_ids_are_dense() {
    let mut t = Trace::new();
    let a = TraceImage::new(&mut t, 1, 1);
    let b = TraceImage::from_image(&mut t, &test_image(3, 2));
    assert_eq!(a.trace_id(), TraceId(0));
    assert_eq!(b.trace_id(), TraceId(1));
    assert_eq!(t.initial_images()[1].width(), 3);
    assert_eq!((b.width(), b.height()), (3, 2));
    t.trace_clear(TraceId(0));
    t.trace_active(TraceId(1), 0, 0, 2, 2);
    assert_eq!(t.actions().len(), 2);
}

#[test]
fn buffer_factory_makes_blank_images() {
    let mut f = BufferFactory::new();
    let i = f.create_image(3, 2);
    assert_eq!(pixels(&i), vec![0; 6]);
}

#[test]
fn symbol_table_add_get_remove() {
    let mut s: SymbolTable<i32> = SymbolTable::new();
    s.add("a", 1);
    s.add("b", 2);
    s.add("a", 3);
    assert!(s.contains("a"));
    assert_eq!(s.get("a"), 3);
    assert_eq!(s.get("b"), 2);
    s.remove("a");
    assert!(!s.contains("a"));
    assert!(s.contains("b"));
    assert_eq!(global_buffer_string_name("in"), "in_name");
    assert_eq!(width_symbol_name("in"), "in_width");
    assert_eq!(height_symbol_name("in"), "in_height");
}

#[test]
fn traced_blur_matches_and_replays() {
    let i = test_image(5, 4);
    let mut f = TraceImageFactory::new();
    let traced = f.create_from_image(&i);
    let r = blur3_inline_traced(&mut f, &traced);
    assert_eq!(pixels(r.image()), pixels(&blur3_reference(&i)));
    // Interior pixels: 3 x 2, each one active mark, 9 reads and a write.
    assert_eq!(f.trace.actions().len(), 6 * 11);
    assert_eq!(f.trace.actions()[0], Action::Active(TraceId(1), ActiveRegion { x: 1, y: 1, width: 1, height: 1 }));
    let frames = replay(&f.trace);
    assert_eq!(frames.len(), 1 + 6 * (1 + 9 * 2 + 2));
}
