use floating_layer::canvas::{BlendMode, Canvas, ClipOp, DrawCommand};
use floating_layer::geometry::PixelRect;
use floating_layer::grouping::group_windows;
use floating_layer::layer::{
    FloatingLayer, SHADOW_AMBIENT_COLOR, SHADOW_LIGHT_RADIUS, SHADOW_SPOT_COLOR,
};
use floating_layer::window::{GridSize, RendererSettings, Window, WindowDrawDetails, WindowType};

fn window(id: u64, region: PixelRect, window_type: WindowType, has_transparency: bool) -> Window {
    Window { id, region, grid_size: GridSize { width: 80, height: 24 }, window_type, has_transparency }
}

fn editor(id: u64, region: PixelRect) -> Window {
    window(id, region, WindowType::Editor, false)
}

fn settings(floating_shadow: bool, floating_blur: bool) -> RendererSettings {
    RendererSettings { floating_shadow, floating_blur }
}

fn depth(commands: &[DrawCommand]) -> i64 {
    let mut depth = 0;
    for command in commands {
        match command {
            DrawCommand::Save | DrawCommand::SaveLayer { .. } => depth += 1,
            DrawCommand::Restore => {
                depth -= 1;
                assert!(depth >= 0);
            }
            _ => {}
        }
    }
    depth
}

fn shadow(path: usize) -> Vec<DrawCommand> {
    vec![
        DrawCommand::Save,
        DrawCommand::ClipPath { path, op: ClipOp::Difference, anti_alias: false },
        DrawCommand::DrawShadow {
            path,
            light_radius: 5,
            ambient_color: 0x0700_0000,
            spot_color: 0x5900_0000,
            directional_light: true,
        },
        DrawCommand::Restore,
    ]
}

#[test]
fn shadow_constants() {
    assert_eq!(SHADOW_LIGHT_RADIUS, 5);
    assert_eq!(SHADOW_AMBIENT_COLOR >> 24, (0.03 * 255.0) as u32);
    assert_eq!(SHADOW_SPOT_COLOR >> 24, (0.35 * 255.0) as u32);
    assert_eq!(SHADOW_AMBIENT_COLOR & 0x00ff_ffff, 0);
    assert_eq!(SHADOW_SPOT_COLOR & 0x00ff_ffff, 0);
}

#[test]
fn draws_one_window_with_shadow_and_no_blur() {
    let region = PixelRect::new(10, 20, 110, 220);
    let arena = vec![editor(7, region)];
    let layer = FloatingLayer { windows: vec![0] };
    let mut canvas = Canvas::new();
    let details = layer.draw(&arena, &mut canvas, &settings(true, false), 0xff10_2030, true);
    assert_eq!(
        details,
        vec![WindowDrawDetails { id: 7, region, grid_size: GridSize { width: 80, height: 24 } }]
    );
    assert_eq!(canvas.paths.len(), 1);
    assert_eq!(canvas.paths[0].regions, vec![region]);
    assert_eq!(canvas.paths[0].bounds, region);
    let mut expected = shadow(0);
    expected.extend([
        DrawCommand::Save,
        DrawCommand::ClipPath { path: 0, op: ClipOp::Intersect, anti_alias: false },
        DrawCommand::SaveLayer {
            bounds: region,
            blend_mode: BlendMode::SrcOver,
            anti_alias: false,
            backdrop_blur: false,
        },
        DrawCommand::DrawPath { path: 0, color: 0xff10_2030 },
        DrawCommand::DrawBackground { window: 0, region },
        DrawCommand::DrawForeground { window: 0, region },
        DrawCommand::Restore,
        DrawCommand::Restore,
    ]);
    assert_eq!(canvas.commands, expected);
}

#[test]
fn draws_two_windows_with_blur_and_no_shadow() {
    let first = PixelRect::new(0, 0, 10, 10);
    let second = PixelRect::new(10, 5, 30, 40);
    let arena = vec![editor(1, PixelRect::new(500, 500, 600, 600)), editor(2, first), editor(3, second)];
    let layer = FloatingLayer { windows: vec![1, 2] };
    let mut canvas = Canvas::new();
    let details = layer.draw(&arena, &mut canvas, &settings(false, true), 0x8000_0000, true);
    assert_eq!(details.len(), 2);
    assert_eq!(details[0].id, 2);
    assert_eq!(details[0].region, first);
    assert_eq!(details[1].id, 3);
    assert_eq!(details[1].region, second);
    let bounds = PixelRect::new(0, 0, 30, 40);
    assert_eq!(canvas.paths[0].regions, vec![first, second]);
    assert_eq!(canvas.paths[0].bounds, bounds);
    assert_eq!(
        canvas.commands,
        vec![
            DrawCommand::Save,
            DrawCommand::ClipPath { path: 0, op: ClipOp::Intersect, anti_alias: false },
            DrawCommand::SaveLayer {
                bounds,
                blend_mode: BlendMode::Src,
                anti_alias: false,
                backdrop_blur: true,
            },
            DrawCommand::Restore,
            DrawCommand::SaveLayer {
                bounds,
                blend_mode: BlendMode::SrcOver,
                anti_alias: false,
                backdrop_blur: false,
            },
            DrawCommand::DrawPath { path: 0, color: 0x8000_0000 },
            DrawCommand::DrawBackground { window: 1, region: first },
            DrawCommand::DrawForeground { window: 1, region: first },
            DrawCommand::DrawBackground { window: 2, region: second },
            DrawCommand::DrawForeground { window: 2, region: second },
            DrawCommand::Restore,
            DrawCommand::Restore,
        ]
    );
}

#[test]
fn transparency_asks_for_blur_when_blur_is_off() {
    let region = PixelRect::new(0, 0, 10, 10);
    let arena = vec![editor(1, region), window(2, region, WindowType::Editor, true)];
    let opaque = FloatingLayer { windows: vec![0] };
    let mixed = FloatingLayer { windows: vec![0, 1] };
    assert!(!opaque.has_transparency(&arena));
    assert!(mixed.has_transparency(&arena));
    assert!(!opaque.needs_blur(&arena, &settings(true, false)));
    assert!(opaque.needs_blur(&arena, &settings(true, true)));
    assert!(mixed.needs_blur(&arena, &settings(true, false)));
    let mut canvas = Canvas::new();
    mixed.draw(&arena, &mut canvas, &settings(false, false), 0, true);
    assert!(canvas
        .commands
        .iter()
        .any(|c| matches!(c, DrawCommand::SaveLayer { backdrop_blur: true, .. })));
    let mut canvas = Canvas::new();
    opaque.draw(&arena, &mut canvas, &settings(false, false), 0, true);
    assert!(!canvas
        .commands
        .iter()
        .any(|c| matches!(c, DrawCommand::SaveLayer { backdrop_blur: true, .. })));
}

#[test]
fn blur_is_left_out_when_no_filter_could_be_made() {
    let region = PixelRect::new(0, 0, 10, 10);
    let arena = vec![window(2, region, WindowType::Editor, true)];
    let layer = FloatingLayer { windows: vec![0] };
    let mut canvas = Canvas::new();
    let details = layer.draw(&arena, &mut canvas, &settings(false, true), 1, false);
    assert_eq!(details.len(), 1);
    assert_eq!(
        canvas.commands,
        vec![
            DrawCommand::Save,
            DrawCommand::ClipPath { path: 0, op: ClipOp::Intersect, anti_alias: false },
            DrawCommand::SaveLayer {
                bounds: region,
                blend_mode: BlendMode::SrcOver,
                anti_alias: false,
                backdrop_blur: false,
            },
            DrawCommand::DrawPath { path: 0, color: 1 },
            DrawCommand::DrawBackground { window: 0, region },
            DrawCommand::DrawForeground { window: 0, region },
            DrawCommand::Restore,
            DrawCommand::Restore,
        ]
    );
}

#[test]
fn lone_unscrolled_message_casts_no_shadow() {
    let region = PixelRect::new(0, 0, 10, 10);
    let arena = vec![window(1, region, WindowType::Message { scrolled: false }, false)];
    let layer = FloatingLayer { windows: vec![0] };
    assert!(layer.is_lone_unscrolled_message(&arena));
    for shadow_on in [false, true] {
        let mut canvas = Canvas::new();
        layer.draw(&arena, &mut canvas, &settings(shadow_on, false), 0, true);
        assert!(!canvas.commands.iter().any(|c| matches!(c, DrawCommand::DrawShadow { .. })));
        assert_eq!(canvas.commands.len(), 8);
    }
}

#[test]
fn lone_scrolled_message_casts_a_shadow_when_shadows_are_on() {
    let region = PixelRect::new(0, 0, 10, 10);
    let arena = vec![window(1, region, WindowType::Message { scrolled: true }, false)];
    let layer = FloatingLayer { windows: vec![0] };
    assert!(!layer.is_lone_unscrolled_message(&arena));
    let mut canvas = Canvas::new();
    layer.draw(&arena, &mut canvas, &settings(true, false), 0, true);
    assert_eq!(canvas.commands[..4], shadow(0)[..]);
    let mut canvas = Canvas::new();
    layer.draw(&arena, &mut canvas, &settings(false, false), 0, true);
    assert!(!canvas.commands.iter().any(|c| matches!(c, DrawCommand::DrawShadow { .. })));
}

#[test]
fn unscrolled_message_among_others_casts_a_shadow() {
    let region = PixelRect::new(0, 0, 10, 10);
    let arena = vec![
        window(1, region, WindowType::Message { scrolled: false }, false),
        editor(2, region),
    ];
    let layer = FloatingLayer { windows: vec![0, 1] };
    assert!(!layer.is_lone_unscrolled_message(&arena));
    let mut canvas = Canvas::new();
    layer.draw(&arena, &mut canvas, &settings(true, false), 0, true);
    assert_eq!(canvas.commands[..4], shadow(0)[..]);
}

#[test]
fn draw_shadow_alone_records_the_shadow_frame() {
    let region = PixelRect::new(0, 0, 10, 10);
    let arena = vec![editor(1, region)];
    let layer = FloatingLayer { windows: vec![0] };
    let mut canvas = Canvas::new();
    let path = canvas.add_path(floating_layer::silhouette::build_silhouette(&vec![region]));
    layer.draw_shadow(&arena, &mut canvas, path, &settings(true, false));
    assert_eq!(canvas.commands, shadow(0));
    layer.draw_shadow(&arena, &mut canvas, path, &settings(false, false));
    assert_eq!(canvas.commands, shadow(0));
}

#[test]
fn state_stack_is_balanced_for_every_combination() {
    let region = PixelRect::new(0, 0, 10, 10);
    for shadow_on in [false, true] {
        for blur_on in [false, true] {
            for transparent in [false, true] {
                for filter in [false, true] {
                    for message in [false, true] {
                        let kind = if message {
                            WindowType::Message { scrolled: false }
                        } else {
                            WindowType::Editor
                        };
                        let arena = vec![window(1, region, kind, transparent), editor(2, region)];
                        for windows in [vec![0], vec![0, 1]] {
                            let layer = FloatingLayer { windows };
                            let mut canvas = Canvas::new();
                            canvas.save();
                            layer.draw(&arena, &mut canvas, &settings(shadow_on, blur_on), 0, filter);
                            assert_eq!(depth(&canvas.commands), 1);
                            assert_eq!(depth(&canvas.commands[1..]), 0);
                            let pushes = canvas.commands[1..]
                                .iter()
                                .filter(|c| {
                                    matches!(c, DrawCommand::Save | DrawCommand::SaveLayer { .. })
                                })
                                .count();
                            let pops = canvas.commands[1..]
                                .iter()
                                .filter(|c| matches!(c, DrawCommand::Restore))
                                .count();
                            assert_eq!(pushes, pops);
                            let expected = 2
                                + usize::from(shadow_on && !(message && layer.windows.len() == 1))
                                + usize::from((blur_on || transparent) && filter);
                            assert_eq!(pushes, expected);
                        }
                    }
                }
            }
        }
    }
}

#[test]
fn second_layer_draws_after_the_first_and_names_its_own_path() {
    let a = PixelRect::new(0, 0, 10, 10);
    let b = PixelRect::new(100, 100, 110, 110);
    let arena = vec![editor(1, a), editor(2, b)];
    let mut canvas = Canvas::new();
    FloatingLayer { windows: vec![0] }.draw(&arena, &mut canvas, &settings(false, false), 0, true);
    let first = canvas.commands.clone();
    FloatingLayer { windows: vec![1] }.draw(&arena, &mut canvas, &settings(false, false), 0, true);
    assert_eq!(canvas.commands[..first.len()], first[..]);
    assert_eq!(canvas.paths.len(), 2);
    assert_eq!(canvas.paths[1].regions, vec![b]);
    assert_eq!(
        canvas.commands[first.len() + 1],
        DrawCommand::ClipPath { path: 1, op: ClipOp::Intersect, anti_alias: false }
    );
}

#[test]
fn disjoint_windows_end_to_end() {
    let a = PixelRect::new(0, 0, 10, 10);
    let b = PixelRect::new(100, 100, 110, 110);
    let arena = vec![editor(1, a), editor(2, b)];
    let groups = group_windows(&arena);
    assert_eq!(groups, vec![vec![0], vec![1]]);
    let mut canvas = Canvas::new();
    let mut details = Vec::new();
    for group in groups {
        let layer = FloatingLayer { windows: group };
        details.extend(layer.draw(&arena, &mut canvas, &settings(true, false), 0, true));
    }
    assert_eq!(details.len(), 2);
    assert_eq!(details[0].region, a);
    assert_eq!(details[1].region, b);
    assert_eq!(canvas.paths.len(), 2);
    let fills = canvas.commands.iter().filter(|c| matches!(c, DrawCommand::DrawPath { .. })).count();
    assert_eq!(fills, 2);
    assert_eq!(depth(&canvas.commands), 0);
}

#[test]
fn touching_windows_end_to_end() {
    let a = PixelRect::new(0, 0, 10, 10);
    let b = PixelRect::new(10, 0, 20, 10);
    let arena = vec![editor(1, a), editor(2, b)];
    let groups = group_windows(&arena);
    assert_eq!(groups, vec![vec![0, 1]]);
    let mut canvas = Canvas::new();
    let mut details = Vec::new();
    for group in groups {
        let layer = FloatingLayer { windows: group };
        details.extend(layer.draw(&arena, &mut canvas, &settings(true, false), 0, true));
    }
    assert_eq!(details.len(), 2);
    assert_eq!(canvas.paths.len(), 1);
    assert_eq!(canvas.paths[0].regions, vec![a, b]);
    assert_eq!(canvas.paths[0].bounds, PixelRect::new(0, 0, 20, 10));
    let fills = canvas.commands.iter().filter(|c| matches!(c, DrawCommand::DrawPath { .. })).count();
    assert_eq!(fills, 1);
}
