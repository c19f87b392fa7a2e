//! A canvas that records what is drawn on it: the paths it was given and
//! the commands it received, in order.

use crate::geometry::PixelRect;
use crate::silhouette::Silhouette;
use vstd::prelude::*;

verus! {

/// How a clip combines with the clip already in force.
#[derive(Clone, Copy, Debug, PartialEq, Eq, Structural)]
pub enum ClipOp {
    /// Keep what lies outside the path.
    Difference,
    /// Keep what lies inside the path.
    Intersect,
}

/// How a layer is blended onto what lies beneath it.
#[derive(Clone, Copy, Debug, PartialEq, Eq, Structural)]
pub enum BlendMode {
    /// The layer replaces what lies beneath.
    Src,
    /// The layer is laid over what lies beneath.
    SrcOver,
}

/// One command to a canvas. A path is named by its place among the paths
/// of the canvas, a window by its place among the windows of the frame, a
/// colour by its alpha, red, green and blue, eight bits each.
#[derive(Clone, Copy, Debug, PartialEq, Eq, Structural)]
pub enum DrawCommand {
    /// Push the state of the canvas.
    Save,
    /// Pop the state of the canvas.
    Restore,
    /// Clip to a path.
    ClipPath { path: usize, op: ClipOp, anti_alias: bool },
    /// Cast the shadow of a path.
    DrawShadow {
        path: usize,
        light_radius: u32,
        ambient_color: u32,
        spot_color: u32,
        directional_light: bool,
    },
    /// Push the state of the canvas and open a layer within `bounds`; with
    /// `backdrop_blur` the layer starts from what lies beneath it, blurred.
    SaveLayer { bounds: PixelRect, blend_mode: BlendMode, anti_alias: bool, backdrop_blur: bool },
    /// Fill a path with a colour.
    DrawPath { path: usize, color: u32 },
    /// Let a window draw its background into a region.
    DrawBackground { window: usize, region: PixelRect },
    /// Let a window draw its foreground into a region.
    DrawForeground { window: usize, region: PixelRect },
}

/// What a command does to the depth of the state stack.
pub open spec fn depth_change(command: DrawCommand) -> int {
    match command {
        DrawCommand::Save => 1,
        DrawCommand::SaveLayer { .. } => 1,
        DrawCommand::Restore => -1,
        _ => 0,
    }
}

/// The depth of the state stack after `commands`, counted from where it
/// stood before them: the pushes less the pops.
pub open spec fn save_depth(commands: Seq<DrawCommand>) -> int
    decreases commands.len(),
{
    if commands.len() == 0 {
        0
    } else {
        save_depth(commands.drop_last()) + depth_change(commands.last())
    }
}

/// At no point have `commands` popped more states than they pushed.
pub open spec fn is_nested(commands: Seq<DrawCommand>) -> bool {
    forall|k: int| 0 <= k <= commands.len() ==> save_depth(#[trigger] commands.subrange(0, k)) >= 0
}

/// `commands` pop exactly the states that they pushed, each after it was
/// pushed.
pub open spec fn is_balanced(commands: Seq<DrawCommand>) -> bool {
    is_nested(commands) && save_depth(commands) == 0
}

/// The path that a command names, if it names one.
pub open spec fn path_of(command: DrawCommand) -> Option<usize> {
    match command {
        DrawCommand::ClipPath { path, .. } => Some(path),
        DrawCommand::DrawShadow { path, .. } => Some(path),
        DrawCommand::DrawPath { path, .. } => Some(path),
        _ => None,
    }
}

/// Every command of `commands` that names a path names one below `paths`.
pub open spec fn paths_known(commands: Seq<DrawCommand>, paths: int) -> bool {
    forall|k: int|
        0 <= k < commands.len() ==> (path_of(#[trigger] commands[k]) matches Some(p) ==> p < paths)
}

/// The depth after one command is what that command does to it.
pub proof fn lemma_depth_of_one(command: DrawCommand)
    ensures
        save_depth(seq![command]) == depth_change(command),
{
    reveal_with_fuel(save_depth, 2);
    assert(seq![command].drop_last() =~= Seq::<DrawCommand>::empty());
}

/// The depth after two runs of commands is the sum of their depths.
pub proof fn lemma_depth_of_concat(a: Seq<DrawCommand>, b: Seq<DrawCommand>)
    ensures
        save_depth(a + b) == save_depth(a) + save_depth(b),
    decreases b.len(),
{
    if b.len() == 0 {
        assert(a + b =~= a);
    } else {
        assert((a + b).drop_last() =~= a + b.drop_last());
        lemma_depth_of_concat(a, b.drop_last());
    }
}

/// Nested commands followed by nested commands are nested.
pub proof fn lemma_nested_concat(a: Seq<DrawCommand>, b: Seq<DrawCommand>)
    requires
        is_nested(a),
        is_nested(b),
    ensures
        is_nested(a + b),
{
    assert forall|k: int| 0 <= k <= (a + b).len() implies save_depth(
        #[trigger] (a + b).subrange(0, k),
    ) >= 0 by {
        if k <= a.len() {
            assert((a + b).subrange(0, k) =~= a.subrange(0, k));
        } else {
            let rest = b.subrange(0, k - a.len());
            assert((a + b).subrange(0, k) =~= a + rest);
            lemma_depth_of_concat(a, rest);
            assert(a.subrange(0, a.len() as int) =~= a);
        }
    }
}

/// Balanced commands followed by balanced commands are balanced.
pub proof fn lemma_balanced_concat(a: Seq<DrawCommand>, b: Seq<DrawCommand>)
    requires
        is_balanced(a),
        is_balanced(b),
    ensures
        is_balanced(a + b),
{
    lemma_nested_concat(a, b);
    lemma_depth_of_concat(a, b);
}

/// Balanced commands between a push and a pop are balanced.
pub proof fn lemma_balanced_frame(open: DrawCommand, inner: Seq<DrawCommand>)
    requires
        depth_change(open) == 1,
        is_balanced(inner),
    ensures
        is_balanced(seq![open] + inner + seq![DrawCommand::Restore]),
{
    let first = seq![open];
    let last = seq![DrawCommand::Restore];
    let whole = first + inner + last;
    lemma_depth_of_one(open);
    lemma_depth_of_one(DrawCommand::Restore);
    lemma_depth_of_concat(first, inner);
    lemma_depth_of_concat(first + inner, last);
    assert forall|k: int| 0 <= k <= whole.len() implies save_depth(
        #[trigger] whole.subrange(0, k),
    ) >= 0 by {
        if k == 0 {
            assert(whole.subrange(0, 0) =~= Seq::<DrawCommand>::empty());
        } else if k <= 1 + inner.len() {
            let part = inner.subrange(0, k - 1);
            assert(whole.subrange(0, k) =~= first + part);
            lemma_depth_of_concat(first, part);
        } else {
            assert(whole.subrange(0, k) =~= whole);
        }
    }
}

/// Commands that neither push nor pop are balanced.
pub proof fn lemma_flat_is_balanced(commands: Seq<DrawCommand>)
    requires
        forall|k: int| 0 <= k < commands.len() ==> depth_change(#[trigger] commands[k]) == 0,
    ensures
        is_balanced(commands),
{
    assert forall|k: int| 0 <= k <= commands.len() implies save_depth(
        #[trigger] commands.subrange(0, k),
    ) == 0 by {
        lemma_flat_depth(commands, k);
    }
    assert(commands.subrange(0, commands.len() as int) =~= commands);
}

proof fn lemma_flat_depth(commands: Seq<DrawCommand>, k: int)
    requires
        forall|i: int| 0 <= i < commands.len() ==> depth_change(#[trigger] commands[i]) == 0,
        0 <= k <= commands.len(),
    ensures
        save_depth(commands.subrange(0, k)) == 0,
    decreases k,
{
    if k > 0 {
        lemma_flat_depth(commands, k - 1);
        let part = commands.subrange(0, k);
        assert(part.drop_last() =~= commands.subrange(0, k - 1));
        assert(part.last() == commands[k - 1]);
    }
}

/// A canvas that records the paths it is given and the commands it
/// receives.
#[derive(Debug)]
pub struct Canvas {
    pub paths: Vec<Silhouette>,
    pub commands: Vec<DrawCommand>,
}

impl Canvas {
    /// Every command names a path that the canvas holds.
    pub open spec fn well_formed(&self) -> bool {
        paths_known(self.commands@, self.paths@.len() as int)
    }

    /// The depth of the state stack, counted from where it stood when the
    /// recording began.
    pub open spec fn depth(&self) -> int {
        save_depth(self.commands@)
    }

    /// A canvas on which nothing was drawn yet.
    pub fn new() -> (canvas: Canvas)
        ensures
            canvas.paths@.len() == 0,
            canvas.commands@.len() == 0,
            canvas.well_formed(),
    {
        Canvas { paths: Vec::new(), commands: Vec::new() }
    }

    /// Hands a path to the canvas, and returns the place by which commands
    /// name it.
    pub fn add_path(&mut self, path: Silhouette) -> (id: usize)
        requires
            old(self).well_formed(),
        ensures
            id == old(self).paths@.len(),
            final(self).paths@ == old(self).paths@.push(path),
            final(self).commands@ == old(self).commands@,
            final(self).well_formed(),
    {
        let id = self.paths.len();
        self.paths.push(path);
        id
    }

    /// Records one command.
    pub fn record(&mut self, command: DrawCommand)
        requires
            old(self).well_formed(),
            path_of(command) matches Some(p) ==> p < old(self).paths@.len(),
        ensures
            final(self).paths@ == old(self).paths@,
            final(self).commands@ == old(self).commands@.push(command),
            final(self).well_formed(),
    {
        self.commands.push(command);
    }

    /// Pushes the state of the canvas.
    pub fn save(&mut self)
        requires
            old(self).well_formed(),
        ensures
            final(self).paths@ == old(self).paths@,
            final(self).commands@ == old(self).commands@.push(DrawCommand::Save),
            final(self).well_formed(),
    {
        self.record(DrawCommand::Save);
    }

    /// Pops the state of the canvas.
    pub fn restore(&mut self)
        requires
            old(self).well_formed(),
        ensures
            final(self).paths@ == old(self).paths@,
            final(self).commands@ == old(self).commands@.push(DrawCommand::Restore),
            final(self).well_formed(),
    {
        self.record(DrawCommand::Restore);
    }
}

} // verus!
