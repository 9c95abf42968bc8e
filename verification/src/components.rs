//! Components: typed data and tags attached to entities.

use vstd::prelude::*;
use vstd::string::StringExecFns;

verus! {

/// Grid coordinates of an entity in `[0, width) x [0, height)`, plus a
/// draw-order layer `z` (used only for rendering, never by the simulation).
#[derive(Clone, Copy, Debug, PartialEq, Eq, Structural)]
pub struct Position {
    pub x: u8,
    pub y: u8,
    pub z: u8,
}

/// An ordered, non-empty sequence of asset references. One reference means
/// the entity is drawn statically; several mean it is animated and the active
/// reference is chosen from elapsed time.
pub struct Renderable {
    paths: Vec<String>,
}

/// Whether a renderable is a single still image or an animation.
#[derive(Clone, Copy, Debug, PartialEq, Eq, Structural)]
pub enum RenderableKind {
    Static,
    Animated,
}

impl View for Renderable {
    type V = Seq<Seq<char>>;

    closed spec fn view(&self) -> Seq<Seq<char>> {
        self.paths.deep_view()
    }
}

impl Renderable {
    /// A renderable always holds at least one asset reference; constructing
    /// one with none is rejected at construction time.
    #[verifier::type_invariant]
    pub closed spec fn inv(&self) -> bool {
        self@.len() >= 1
    }

    /// A renderable with a single still image.
    pub fn new_static(path: String) -> (r: Self)
        ensures
            r@ == seq![path@],
    {
        let r = Self { paths: vec![path] };
        proof {
            assert(r@ =~= seq![path@]);
        }
        r
    }

    /// An animated renderable cycling through the given asset references,
    /// which must not be empty.
    pub fn new_animated(paths: Vec<String>) -> (r: Self)
        requires
            paths@.len() >= 1,
        ensures
            r@ == paths.deep_view(),
    {
        Self { paths }
    }

    pub open spec fn spec_kind(&self) -> RenderableKind {
        if self@.len() == 1 {
            RenderableKind::Static
        } else {
            RenderableKind::Animated
        }
    }

    /// Whether this renderable is static or animated.
    pub fn kind(&self) -> (k: RenderableKind)
        ensures
            k == self.spec_kind(),
    {
        proof {
            use_type_invariant(self);
        }
        if self.paths.len() == 1 {
            RenderableKind::Static
        } else {
            RenderableKind::Animated
        }
    }

    /// The asset reference at `path_index`, wrapping around the sequence.
    pub fn path(&self, path_index: usize) -> (r: String)
        ensures
            r@ == self@[path_index as int % self@.len() as int],
    {
        proof {
            use_type_invariant(self);
        }
        let i = path_index % self.paths.len();
        self.paths[i].clone()
    }

    /// The frame shown after `delta_ms` elapsed milliseconds: a static
    /// renderable always shows frame 0, an animated one advances one frame
    /// every 250 ms within a 1000 ms cycle (four phases).
    pub open spec fn spec_frame_index(&self, delta_ms: u64) -> int {
        if self.spec_kind() is Static {
            0
        } else {
            (delta_ms as int % 1000) / 250
        }
    }

    /// Frame selection policy for the host's renderer.
    pub fn frame_index(&self, delta_ms: u64) -> (i: usize)
        ensures
            i == self.spec_frame_index(delta_ms),
    {
        match self.kind() {
            RenderableKind::Static => 0,
            RenderableKind::Animated => ((delta_ms % 1000) / 250) as usize,
        }
    }
}

/// Tag: blocks pushes; always paired with `Immovable`.
#[derive(Clone, Copy, Debug, PartialEq, Eq, Structural)]
pub struct Wall {}

/// Tag: the player-controlled entity; always paired with `Movable`.
#[derive(Clone, Copy, Debug, PartialEq, Eq, Structural)]
pub struct Player {}

/// A pushable piece with a color; always paired with `Movable`.
#[derive(Clone, Copy, Debug, PartialEq, Eq, Structural)]
pub struct Box {
    pub color: BoxColor,
}

/// A stationary target cell with a color; neither movable nor immovable, so
/// pieces may pass over or rest on it.
#[derive(Clone, Copy, Debug, PartialEq, Eq, Structural)]
pub struct BoxSpot {
    pub color: BoxColor,
}

/// Tag: the entity can be pushed by (or is) the player.
#[derive(Clone, Copy, Debug, PartialEq, Eq, Structural)]
pub struct Movable;

/// Tag: the entity blocks a push chain.
#[derive(Clone, Copy, Debug, PartialEq, Eq, Structural)]
pub struct Immovable;

/// The closed set of piece and spot colors.
#[derive(Clone, Copy, Debug, PartialEq, Eq, Structural)]
pub enum BoxColor {
    Red,
    Blue,
}

impl BoxColor {
    pub open spec fn spec_name(&self) -> Seq<char> {
        match *self {
            BoxColor::Red => "red"@,
            BoxColor::Blue => "blue"@,
        }
    }

    /// The lower-case color name, for the host's display.
    pub fn name(&self) -> (s: String)
        ensures
            s@ == self.spec_name(),
    {
        match *self {
            BoxColor::Red => String::from_str("red"),
            BoxColor::Blue => String::from_str("blue"),
        }
    }
}

} // verus!
