//! Drawing one group of windows as a layer: its shadow, the blur of what
//! lies beneath it, its background, and the windows themselves.

use crate::canvas::{
    is_balanced, lemma_balanced_concat, lemma_balanced_frame, lemma_depth_of_concat,
    lemma_flat_is_balanced, save_depth, BlendMode, Canvas, ClipOp, DrawCommand,
};
use crate::geometry::PixelRect;
use crate::silhouette::{bounding_rect, build_silhouette};
use crate::window::{RendererSettings, Window, WindowDrawDetails, WindowType};
use vstd::prelude::*;

verus! {

/// The apparent radius of the light that casts the shadow of a layer.
pub const SHADOW_LIGHT_RADIUS: u32 = 5;

/// The colour of the ambient part of a shadow: black, three hundredths
/// opaque.
pub const SHADOW_AMBIENT_COLOR: u32 = 0x0700_0000;

/// The colour of the spot part of a shadow: black, thirty-five hundredths
/// opaque.
pub const SHADOW_SPOT_COLOR: u32 = 0x5900_0000;

/// A group of windows that is drawn as one: the places of its windows among
/// the windows of the frame, in the order in which they are drawn.
#[derive(Debug)]
pub struct FloatingLayer {
    pub windows: Vec<usize>,
}

/// Every window of the layer is one of `arena`.
pub open spec fn in_arena(windows: Seq<usize>, arena: Seq<Window>) -> bool {
    forall|k: int| 0 <= k < windows.len() ==> #[trigger] windows[k] < arena.len()
}

/// The regions of the windows of a layer, in their order.
pub open spec fn layer_regions(windows: Seq<usize>, arena: Seq<Window>) -> Seq<PixelRect> {
    Seq::new(windows.len(), |k: int| arena[windows[k] as int].region)
}

/// The one kind of layer that never casts a shadow: a message window that
/// is not scrolled, alone in its layer.
pub open spec fn is_lone_unscrolled_message(windows: Seq<usize>, arena: Seq<Window>) -> bool {
    windows.len() == 1 && arena[windows[0] as int].window_type == (WindowType::Message {
        scrolled: false,
    })
}

/// Whether a layer casts a shadow: shadows are switched on, and the layer
/// is not the one kind that never casts one.
pub open spec fn casts_shadow(
    windows: Seq<usize>,
    arena: Seq<Window>,
    settings: RendererSettings,
) -> bool {
    settings.floating_shadow && !is_lone_unscrolled_message(windows, arena)
}

/// Some window of the layer is transparent.
pub open spec fn has_transparency(windows: Seq<usize>, arena: Seq<Window>) -> bool {
    exists|k: int| 0 <= k < windows.len() && (#[trigger] arena[windows[k] as int]).has_transparency
}

/// Whether what lies beneath a layer is to be blurred: a window of the
/// layer is transparent, or blur is switched on.
pub open spec fn needs_blur(
    windows: Seq<usize>,
    arena: Seq<Window>,
    settings: RendererSettings,
) -> bool {
    has_transparency(windows, arena) || settings.floating_blur
}

/// The records of the windows of a layer, in their order.
pub open spec fn layer_details(windows: Seq<usize>, arena: Seq<Window>) -> Seq<WindowDrawDetails> {
    Seq::new(
        windows.len(),
        |k: int|
            WindowDrawDetails {
                id: arena[windows[k] as int].id,
                region: arena[windows[k] as int].region,
                grid_size: arena[windows[k] as int].grid_size,
            },
    )
}

/// The commands that cast the shadow of the path, if it casts one: clipped
/// to what lies outside the path, between a push and a pop.
pub open spec fn shadow_commands(path: usize, casts: bool) -> Seq<DrawCommand> {
    if casts {
        seq![DrawCommand::Save] + seq![
            DrawCommand::ClipPath { path, op: ClipOp::Difference, anti_alias: false },
            DrawCommand::DrawShadow {
                path,
                light_radius: SHADOW_LIGHT_RADIUS,
                ambient_color: SHADOW_AMBIENT_COLOR,
                spot_color: SHADOW_SPOT_COLOR,
                directional_light: true,
            },
        ] + seq![DrawCommand::Restore]
    } else {
        Seq::empty()
    }
}

/// The commands that blur what lies beneath the layer, if it is blurred: a
/// layer that replaces what lies within `bounds` by its blur, closed at
/// once.
pub open spec fn blur_commands(bounds: PixelRect, blurs: bool) -> Seq<DrawCommand> {
    if blurs {
        seq![
            DrawCommand::SaveLayer {
                bounds,
                blend_mode: BlendMode::Src,
                anti_alias: false,
                backdrop_blur: true,
            },
        ] + Seq::empty() + seq![DrawCommand::Restore]
    } else {
        Seq::empty()
    }
}

/// The commands by which the windows draw themselves: each its background
/// and then its foreground, into its region.
pub open spec fn window_commands(windows: Seq<usize>, arena: Seq<Window>) -> Seq<DrawCommand> {
    Seq::new(
        2 * windows.len(),
        |k: int|
            if k % 2 == 0 {
                DrawCommand::DrawBackground {
                    window: windows[k / 2],
                    region: arena[windows[k / 2] as int].region,
                }
            } else {
                DrawCommand::DrawForeground {
                    window: windows[k / 2],
                    region: arena[windows[k / 2] as int].region,
                }
            },
    )
}

/// What is drawn inside the layer that holds the background and the
/// windows: the path filled with the colour, then the windows.
pub open spec fn content_commands(
    path: usize,
    color: u32,
    windows: Seq<usize>,
    arena: Seq<Window>,
) -> Seq<DrawCommand> {
    seq![DrawCommand::DrawPath { path, color }] + window_commands(windows, arena)
}

/// What is drawn inside the clip to the path: the blur of what lies
/// beneath, then the layer of the background and the windows.
pub open spec fn clipped_commands(
    path: usize,
    bounds: PixelRect,
    blurs: bool,
    color: u32,
    windows: Seq<usize>,
    arena: Seq<Window>,
) -> Seq<DrawCommand> {
    seq![DrawCommand::ClipPath { path, op: ClipOp::Intersect, anti_alias: false }] + blur_commands(
        bounds,
        blurs,
    ) + (seq![
        DrawCommand::SaveLayer {
            bounds,
            blend_mode: BlendMode::SrcOver,
            anti_alias: false,
            backdrop_blur: false,
        },
    ] + content_commands(path, color, windows, arena) + seq![DrawCommand::Restore])
}

/// All the commands that draw a layer, in order: the shadow; then, between
/// a push and a pop, the clip to the path and what is drawn inside it.
pub open spec fn layer_commands(
    path: usize,
    bounds: PixelRect,
    casts: bool,
    blurs: bool,
    color: u32,
    windows: Seq<usize>,
    arena: Seq<Window>,
) -> Seq<DrawCommand> {
    shadow_commands(path, casts) + (seq![DrawCommand::Save] + clipped_commands(
        path,
        bounds,
        blurs,
        color,
        windows,
        arena,
    ) + seq![DrawCommand::Restore])
}

/// Whatever the settings, the commands that draw a layer pop exactly the
/// states that they push.
pub proof fn lemma_layer_commands_balanced(
    path: usize,
    bounds: PixelRect,
    casts: bool,
    blurs: bool,
    color: u32,
    windows: Seq<usize>,
    arena: Seq<Window>,
)
    ensures
        is_balanced(layer_commands(path, bounds, casts, blurs, color, windows, arena)),
        save_depth(layer_commands(path, bounds, casts, blurs, color, windows, arena)) == 0,
{
    let none = Seq::<DrawCommand>::empty();
    lemma_flat_is_balanced(none);
    // the shadow
    let shadow = shadow_commands(path, casts);
    if casts {
        let inner = seq![
            DrawCommand::ClipPath { path, op: ClipOp::Difference, anti_alias: false },
            DrawCommand::DrawShadow {
                path,
                light_radius: SHADOW_LIGHT_RADIUS,
                ambient_color: SHADOW_AMBIENT_COLOR,
                spot_color: SHADOW_SPOT_COLOR,
                directional_light: true,
            },
        ];
        lemma_flat_is_balanced(inner);
        lemma_balanced_frame(DrawCommand::Save, inner);
    }
    assert(is_balanced(shadow));
    // the blur
    let blur = blur_commands(bounds, blurs);
    if blurs {
        lemma_balanced_frame(
            DrawCommand::SaveLayer {
                bounds,
                blend_mode: BlendMode::Src,
                anti_alias: false,
                backdrop_blur: true,
            },
            none,
        );
    }
    assert(is_balanced(blur));
    // the background and the windows
    let content = content_commands(path, color, windows, arena);
    lemma_flat_is_balanced(content);
    let open = DrawCommand::SaveLayer {
        bounds,
        blend_mode: BlendMode::SrcOver,
        anti_alias: false,
        backdrop_blur: false,
    };
    lemma_balanced_frame(open, content);
    let clip = seq![DrawCommand::ClipPath { path, op: ClipOp::Intersect, anti_alias: false }];
    lemma_flat_is_balanced(clip);
    lemma_balanced_concat(clip, blur);
    lemma_balanced_concat(clip + blur, seq![open] + content + seq![DrawCommand::Restore]);
    let clipped = clipped_commands(path, bounds, blurs, color, windows, arena);
    assert(is_balanced(clipped));
    lemma_balanced_frame(DrawCommand::Save, clipped);
    lemma_balanced_concat(shadow, seq![DrawCommand::Save] + clipped + seq![DrawCommand::Restore]);
}

/// The commands that draw the layer of `windows` under `settings`, where
/// `blur_filter` says whether a blur filter could be made.
pub open spec fn drawn_commands(
    path: usize,
    windows: Seq<usize>,
    arena: Seq<Window>,
    settings: RendererSettings,
    color: u32,
    blur_filter: bool,
) -> Seq<DrawCommand> {
    layer_commands(
        path,
        bounding_rect(layer_regions(windows, arena)),
        casts_shadow(windows, arena, settings),
        needs_blur(windows, arena, settings) && blur_filter,
        color,
        windows,
        arena,
    )
}

/// A message window that is not scrolled, alone in its layer, has no shadow
/// drawn, whatever the settings.
pub proof fn lemma_lone_message_has_no_shadow(
    path: usize,
    windows: Seq<usize>,
    arena: Seq<Window>,
    settings: RendererSettings,
    color: u32,
    blur_filter: bool,
)
    requires
        windows.len() == 1,
        arena[windows[0] as int].window_type == (WindowType::Message { scrolled: false }),
    ensures
        !casts_shadow(windows, arena, settings),
        forall|k: int|
            0 <= k < drawn_commands(path, windows, arena, settings, color, blur_filter).len() ==> !(
            #[trigger] drawn_commands(path, windows, arena, settings, color, blur_filter)[k]
                is DrawShadow),
{
}

/// A scrolled message window, alone in its layer, has its shadow drawn when
/// shadows are switched on: the third command casts it.
pub proof fn lemma_scrolled_message_has_shadow(
    path: usize,
    windows: Seq<usize>,
    arena: Seq<Window>,
    settings: RendererSettings,
    color: u32,
    blur_filter: bool,
)
    requires
        windows.len() == 1,
        arena[windows[0] as int].window_type == (WindowType::Message { scrolled: true }),
        settings.floating_shadow,
    ensures
        casts_shadow(windows, arena, settings),
        drawn_commands(path, windows, arena, settings, color, blur_filter)[2] is DrawShadow,
{
}

impl FloatingLayer {
    /// Tells whether the layer is the one kind that never casts a shadow.
    pub fn is_lone_unscrolled_message(&self, arena: &Vec<Window>) -> (lone: bool)
        requires
            in_arena(self.windows@, arena@),
        ensures
            lone == is_lone_unscrolled_message(self.windows@, arena@),
    {
        if self.windows.len() != 1 {
            return false;
        }
        match arena[self.windows[0]].window_type {
            WindowType::Message { scrolled } => !scrolled,
            WindowType::Editor => false,
        }
    }

    /// Tells whether some window of the layer is transparent.
    pub fn has_transparency(&self, arena: &Vec<Window>) -> (any: bool)
        requires
            in_arena(self.windows@, arena@),
        ensures
            any == has_transparency(self.windows@, arena@),
    {
        let mut k: usize = 0;
        while k < self.windows.len()
            invariant
                k <= self.windows.len(),
                in_arena(self.windows@, arena@),
                forall|j: int| 0 <= j < k ==> !(#[trigger] arena@[self.windows@[j] as int]).has_transparency,
            decreases self.windows.len() - k,
        {
            if arena[self.windows[k]].has_transparency {
                return true;
            }
            k = k + 1;
        }
        false
    }

    /// Tells whether what lies beneath the layer is to be blurred, so that
    /// a blur filter is wanted for drawing it.
    pub fn needs_blur(&self, arena: &Vec<Window>, settings: &RendererSettings) -> (blur: bool)
        requires
            in_arena(self.windows@, arena@),
        ensures
            blur == needs_blur(self.windows@, arena@, *settings),
    {
        self.has_transparency(arena) || settings.floating_blur
    }

    /// Casts the shadow of the layer, whose outline is `path`, unless
    /// shadows are switched off or the layer never casts one.
    pub fn draw_shadow(
        &self,
        arena: &Vec<Window>,
        root_canvas: &mut Canvas,
        path: usize,
        settings: &RendererSettings,
    )
        requires
            in_arena(self.windows@, arena@),
            old(root_canvas).well_formed(),
            path < old(root_canvas).paths@.len(),
        ensures
            final(root_canvas).paths@ == old(root_canvas).paths@,
            final(root_canvas).commands@ == old(root_canvas).commands@ + shadow_commands(
                path,
                casts_shadow(self.windows@, arena@, *settings),
            ),
            final(root_canvas).well_formed(),
    {
        if !settings.floating_shadow {
            assert(root_canvas.commands@ + Seq::<DrawCommand>::empty() =~= root_canvas.commands@);
            return ;
        }
        if self.is_lone_unscrolled_message(arena) {
            assert(root_canvas.commands@ + Seq::<DrawCommand>::empty() =~= root_canvas.commands@);
            return ;
        }
        root_canvas.save();
        root_canvas.record(DrawCommand::ClipPath { path, op: ClipOp::Difference, anti_alias: false });
        root_canvas.record(
            DrawCommand::DrawShadow {
                path,
                light_radius: SHADOW_LIGHT_RADIUS,
                ambient_color: SHADOW_AMBIENT_COLOR,
                spot_color: SHADOW_SPOT_COLOR,
                directional_light: true,
            },
        );
        root_canvas.restore();
        assert(root_canvas.commands@ =~= old(root_canvas).commands@ + shadow_commands(path, true));
    }

    /// Draws the layer: its shadow, the blur of what lies beneath it, its
    /// background and its windows, in this order.
    ///
    /// `blur_filter` says whether a blur filter could be made; it is asked
    /// for only where the layer needs one. Returns the record of each
    /// window, in the order of the layer.
    pub fn draw(
        &self,
        arena: &Vec<Window>,
        root_canvas: &mut Canvas,
        settings: &RendererSettings,
        default_background: u32,
        blur_filter: bool,
    ) -> (details: Vec<WindowDrawDetails>)
        requires
            self.windows@.len() > 0,
            in_arena(self.windows@, arena@),
            old(root_canvas).well_formed(),
        ensures
            details@ == layer_details(self.windows@, arena@),
            final(root_canvas).paths@.len() == old(root_canvas).paths@.len() + 1,
            final(root_canvas).paths@.subrange(0, old(root_canvas).paths@.len() as int) == old(
                root_canvas,
            ).paths@,
            final(root_canvas).paths@.last().regions@ == layer_regions(self.windows@, arena@),
            final(root_canvas).paths@.last().bounds == bounding_rect(
                layer_regions(self.windows@, arena@),
            ),
            final(root_canvas).commands@ == old(root_canvas).commands@ + drawn_commands(
                old(root_canvas).paths.len(),
                self.windows@,
                arena@,
                *settings,
                default_background,
                blur_filter,
            ),
            is_balanced(
                drawn_commands(
                    old(root_canvas).paths.len(),
                    self.windows@,
                    arena@,
                    *settings,
                    default_background,
                    blur_filter,
                ),
            ),
            final(root_canvas).depth() == old(root_canvas).depth(),
            final(root_canvas).well_formed(),
    {
        let count: usize = self.windows.len();
        let mut pixel_regions: Vec<PixelRect> = Vec::new();
        let mut k: usize = 0;
        while k < count
            invariant
                count == self.windows.len(),
                k <= count,
                in_arena(self.windows@, arena@),
                pixel_regions@ == layer_regions(self.windows@, arena@).subrange(0, k as int),
            decreases count - k,
        {
            pixel_regions.push(arena[self.windows[k]].region);
            k = k + 1;
            assert(pixel_regions@ =~= layer_regions(self.windows@, arena@).subrange(0, k as int));
        }
        assert(pixel_regions@ =~= layer_regions(self.windows@, arena@));
        let silhouette = build_silhouette(&pixel_regions);
        let bound_rect = silhouette.bounds;
        let need_blur = self.needs_blur(arena, settings);
        let path = root_canvas.add_path(silhouette);
        let ghost blurs = need_blur && blur_filter;
        let ghost casts = casts_shadow(self.windows@, arena@, *settings);

        self.draw_shadow(arena, root_canvas, path, settings);

        root_canvas.save();
        root_canvas.record(DrawCommand::ClipPath { path, op: ClipOp::Intersect, anti_alias: false });
        if need_blur {
            if blur_filter {
                root_canvas.record(
                    DrawCommand::SaveLayer {
                        bounds: bound_rect,
                        blend_mode: BlendMode::Src,
                        anti_alias: false,
                        backdrop_blur: true,
                    },
                );
                root_canvas.restore();
            }
        }
        root_canvas.record(
            DrawCommand::SaveLayer {
                bounds: bound_rect,
                blend_mode: BlendMode::SrcOver,
                anti_alias: false,
                backdrop_blur: false,
            },
        );
        root_canvas.record(DrawCommand::DrawPath { path, color: default_background });
        let ghost before_windows = root_canvas.commands@;
        assert(before_windows =~= old(root_canvas).commands@ + shadow_commands(path, casts) + seq![
            DrawCommand::Save,
        ] + seq![DrawCommand::ClipPath { path, op: ClipOp::Intersect, anti_alias: false }]
            + blur_commands(bound_rect, blurs) + seq![
            DrawCommand::SaveLayer {
                bounds: bound_rect,
                blend_mode: BlendMode::SrcOver,
                anti_alias: false,
                backdrop_blur: false,
            },
        ] + seq![DrawCommand::DrawPath { path, color: default_background }]);

        let mut ret: Vec<WindowDrawDetails> = Vec::new();
        let mut i: usize = 0;
        while i < count
            invariant
                count == self.windows.len(),
                i <= count,
                in_arena(self.windows@, arena@),
                root_canvas.well_formed(),
                root_canvas.paths@.len() == old(root_canvas).paths@.len() + 1,
                root_canvas.paths@.subrange(0, old(root_canvas).paths@.len() as int) == old(
                    root_canvas,
                ).paths@,
                root_canvas.paths@.last().regions@ == layer_regions(self.windows@, arena@),
                root_canvas.paths@.last().bounds == bound_rect,
                pixel_regions@ == layer_regions(self.windows@, arena@),
                ret@ == layer_details(self.windows@, arena@).subrange(0, i as int),
                root_canvas.commands@ == before_windows + window_commands(
                    self.windows@,
                    arena@,
                ).subrange(0, 2 * i),
            decreases count - i,
        {
            let window = self.windows[i];
            let region = pixel_regions[i];
            root_canvas.record(DrawCommand::DrawBackground { window, region });
            root_canvas.record(DrawCommand::DrawForeground { window, region });
            ret.push(
                WindowDrawDetails { id: arena[window].id, region, grid_size: arena[window].grid_size },
            );
            i = i + 1;
            proof {
                let all = window_commands(self.windows@, arena@);
                assert(all[2 * i - 2] == (DrawCommand::DrawBackground { window, region }));
                assert(all[2 * i - 1] == (DrawCommand::DrawForeground { window, region }));
                assert(root_canvas.commands@ =~= before_windows + all.subrange(0, 2 * i));
                assert(ret@ =~= layer_details(self.windows@, arena@).subrange(0, i as int));
            }
        }
        root_canvas.restore();
        root_canvas.restore();
        proof {
            let all = window_commands(self.windows@, arena@);
            assert(all.subrange(0, 2 * count) =~= all);
            assert(ret@ =~= layer_details(self.windows@, arena@));
            let drawn = drawn_commands(
                path,
                self.windows@,
                arena@,
                *settings,
                default_background,
                blur_filter,
            );
            assert(root_canvas.commands@ =~= old(root_canvas).commands@ + drawn);
            lemma_layer_commands_balanced(
                path,
                bound_rect,
                casts,
                blurs,
                default_background,
                self.windows@,
                arena@,
            );
            lemma_depth_of_concat(old(root_canvas).commands@, drawn);
        }
        ret
    }
}

} // verus!
