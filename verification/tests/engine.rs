use ascii_video_renderer::engine::{split_output_lines, RenderAlgorithm};
use ascii_video_renderer::engine::RenderAlgorithm::{
    ContextShape, ContextShapeColor, HalfBlock, LocalShape, Sextant, SextantRgb, Shade, ShadeRgb,
};

#[test]
fn algorithm_names_and_cycle() {
    let cycle = [LocalShape, ContextShape, ContextShapeColor, HalfBlock, Sextant, SextantRgb, Shade, ShadeRgb];
    let labels = ["Local", "Context", "Color", "HalfBlk", "Sextant", "SextRGB", "Shade", "ShdRGB"];
    let ids = [
        "local_shape",
        "context_shape",
        "context_shape_color",
        "half_block",
        "sextant",
        "sextant_rgb",
        "shade",
        "shade_rgb",
    ];
    for (i, a) in cycle.iter().enumerate() {
        assert_eq!(a.label(), labels[i]);
        assert_eq!(a.id(), ids[i]);
        assert_eq!(a.next(), cycle[(i + 1) % 8]);
        let mut b = *a;
        for _ in 0..8 {
            b = b.next();
        }
        assert_eq!(b, *a);
    }
    assert_eq!(ContextShapeColor.next().label(), "HalfBlk");
    assert_eq!(ShadeRgb.next(), LocalShape);
    let rgb: Vec<RenderAlgorithm> = cycle.iter().copied().filter(|a| a.needs_rgb_frames()).collect();
    assert_eq!(rgb, vec![ContextShapeColor, HalfBlock, SextantRgb, ShadeRgb]);
}

#[test]
fn output_lines_split_on_newlines() {
    assert!(split_output_lines("").is_empty());
    assert_eq!(split_output_lines("abc"), vec!["abc".to_string()]);
    assert_eq!(split_output_lines("a\nb"), vec!["a".to_string(), "b".to_string()]);
    assert_eq!(split_output_lines("a\n"), vec!["a".to_string(), String::new()]);
    assert_eq!(split_output_lines("\n\n"), vec![String::new(), String::new(), String::new()]);
    assert_eq!(
        split_output_lines("\x1b[38;5;1m█\x1b[0m\n▒"),
        vec!["\x1b[38;5;1m█\x1b[0m".to_string(), "▒".to_string()]
    );
}
