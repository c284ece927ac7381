//! Options for the distance-map and heat-map renderers that consume the
//! library's distance data: which color channels a renderer blends and what
//! text it labels each cell with. The pixel work itself lives outside the
//! library; these types only carry the choices.

use vstd::prelude::*;

verus! {

/// Which color channels a distance-map renderer blends, and the alpha value
/// it writes.
#[derive(Clone, Copy, Debug, PartialEq, Eq, Structural)]
pub struct DistMask {
    pub r: bool,
    pub g: bool,
    pub b: bool,
    pub a: u8,
}

impl DistMask {
    /// The default mask: only the red channel, fully opaque.
    pub fn new() -> (r: Self)
        ensures
            r.r == true,
            r.g == false,
            r.b == false,
            r.a == 255,
    {
        Self { r: true, g: false, b: false, a: 255 }
    }

    /// A mask with every color channel off, fully opaque.
    pub fn none() -> (r: Self)
        ensures
            r.r == false,
            r.g == false,
            r.b == false,
            r.a == 255,
    {
        Self { r: false, g: false, b: false, a: 255 }
    }

    /// Turns the red channel on or off.
    pub fn use_red(&mut self, value: bool)
        ensures
            *final(self) == (DistMask { r: value, ..*old(self) }),
    {
        self.r = value;
    }

    /// A mask with only the red channel on.
    pub fn only_red() -> (r: Self)
        ensures
            r.r == true,
            r.g == false,
            r.b == false,
            r.a == 255,
    {
        Self { r: true, ..Self::none() }
    }

    /// Turns the green channel on or off.
    pub fn use_green(&mut self, value: bool)
        ensures
            *final(self) == (DistMask { g: value, ..*old(self) }),
    {
        self.g = value;
    }

    /// A mask with only the green channel on.
    pub fn only_green() -> (r: Self)
        ensures
            r.r == false,
            r.g == true,
            r.b == false,
            r.a == 255,
    {
        Self { g: true, ..Self::none() }
    }

    /// Turns the blue channel on or off.
    pub fn use_blue(&mut self, value: bool)
        ensures
            *final(self) == (DistMask { b: value, ..*old(self) }),
    {
        self.b = value;
    }

    /// A mask with only the blue channel on.
    pub fn only_blue() -> (r: Self)
        ensures
            r.r == false,
            r.g == false,
            r.b == true,
            r.a == 255,
    {
        Self { b: true, ..Self::none() }
    }

    /// Sets the alpha channel.
    pub fn set_alpha(&mut self, value: u8)
        ensures
            *final(self) == (DistMask { a: value, ..*old(self) }),
    {
        self.a = value;
    }

    /// Reads one color channel of the mask.
    pub fn channel(&self, index: RgbChannel) -> (r: bool)
        ensures
            index == RgbChannel::R ==> r == self.r,
            index == RgbChannel::G ==> r == self.g,
            index == RgbChannel::B ==> r == self.b,
    {
        match index {
            RgbChannel::R => self.r,
            RgbChannel::G => self.g,
            RgbChannel::B => self.b,
        }
    }
}

impl Default for DistMask {
    /// The default mask: only the red channel, fully opaque.
    fn default() -> (r: Self)
        ensures
            r.r == true,
            r.g == false,
            r.b == false,
            r.a == 255,
    {
        Self::new()
    }
}

/// One of the three color channels of a distance mask.
#[derive(Clone, Copy, Debug, PartialEq, Eq, Structural)]
pub enum RgbChannel {
    R,
    G,
    B,
}

/// What text a distance-map renderer writes into each cell.
#[derive(Clone, Copy, Debug, PartialEq, Eq, Structural)]
pub enum DistText {
    Id,
    Dist,
}

impl DistText {
    /// Label each cell with its index.
    pub fn id() -> (r: Self)
        ensures
            r == DistText::Id,
    {
        Self::Id
    }

    /// Label each cell with its distance from the root.
    pub fn dist() -> (r: Self)
        ensures
            r == DistText::Dist,
    {
        Self::Dist
    }
}

impl Default for DistText {
    /// By default each cell shows its distance.
    fn default() -> (r: Self)
        ensures
            r == DistText::Dist,
    {
        Self::Dist
    }
}

/// All the options of a distance-map renderer.
#[derive(Clone, Copy, Debug, PartialEq, Eq, Structural)]
pub struct DistMapOpts {
    pub mask: DistMask,
    pub text: DistText,
}

impl DistMapOpts {
    /// The channel mask.
    pub fn mask(&self) -> (r: &DistMask)
        ensures
            r == &self.mask,
    {
        &self.mask
    }

    /// The channel mask, for changing it in place.
    pub fn mask_mut(&mut self) -> (r: &mut DistMask)
        ensures
            *r == old(self).mask,
            *final(self) == (DistMapOpts { mask: *final(r), ..*old(self) }),
    {
        &mut self.mask
    }

    /// Label each cell with its index.
    pub fn show_id(&mut self)
        ensures
            *final(self) == (DistMapOpts { text: DistText::Id, ..*old(self) }),
    {
        self.text = DistText::Id;
    }

    /// Label each cell with its distance from the root.
    pub fn show_dist(&mut self)
        ensures
            *final(self) == (DistMapOpts { text: DistText::Dist, ..*old(self) }),
    {
        self.text = DistText::Dist;
    }
}

impl Default for DistMapOpts {
    /// The default options: red mask, distance labels.
    fn default() -> (r: Self)
        ensures
            r.mask.r == true,
            r.mask.g == false,
            r.mask.b == false,
            r.mask.a == 255,
            r.text == DistText::Dist,
    {
        Self { mask: DistMask::new(), text: DistText::Dist }
    }
}

/// Which channels a heat-map renderer blends; here alpha is a switch too.
#[derive(Clone, Copy, Debug, PartialEq, Eq, Structural)]
pub struct HeatMask {
    pub r: bool,
    pub g: bool,
    pub b: bool,
    pub a: bool,
}

impl HeatMask {
    /// The default mask: only the red channel.
    pub fn new() -> (r: Self)
        ensures
            r.r == true,
            r.g == false,
            r.b == false,
            r.a == false,
    {
        Self { r: true, g: false, b: false, a: false }
    }

    /// Turns the red channel on or off, in builder style.
    pub fn red(self, value: bool) -> (r: Self)
        ensures
            r == (HeatMask { r: value, ..self }),
    {
        Self { r: value, ..self }
    }

    /// Turns the green channel on or off, in builder style.
    pub fn green(self, value: bool) -> (r: Self)
        ensures
            r == (HeatMask { g: value, ..self }),
    {
        Self { g: value, ..self }
    }

    /// Turns the blue channel on or off, in builder style.
    pub fn blue(self, value: bool) -> (r: Self)
        ensures
            r == (HeatMask { b: value, ..self }),
    {
        Self { b: value, ..self }
    }

    /// Turns the alpha channel on or off, in builder style.
    pub fn alpha(self, value: bool) -> (r: Self)
        ensures
            r == (HeatMask { a: value, ..self }),
    {
        Self { a: value, ..self }
    }

    /// Reads one channel of the mask.
    pub fn channel(&self, index: RgbaChannel) -> (r: bool)
        ensures
            index == RgbaChannel::R ==> r == self.r,
            index == RgbaChannel::G ==> r == self.g,
            index == RgbaChannel::B ==> r == self.b,
            index == RgbaChannel::A ==> r == self.a,
    {
        match index {
            RgbaChannel::R => self.r,
            RgbaChannel::G => self.g,
            RgbaChannel::B => self.b,
            RgbaChannel::A => self.a,
        }
    }
}

impl Default for HeatMask {
    /// The default mask: only the red channel.
    fn default() -> (r: Self)
        ensures
            r.r == true,
            r.g == false,
            r.b == false,
            r.a == false,
    {
        Self::new()
    }
}

/// One of the four channels of a heat mask.
#[derive(Clone, Copy, Debug, PartialEq, Eq, Structural)]
pub enum RgbaChannel {
    R,
    G,
    B,
    A,
}

/// What text a heat-map renderer writes into each cell.
#[derive(Clone, Copy, Debug, PartialEq, Eq, Structural)]
pub enum HeatText {
    Id,
    Dist,
}

impl Default for HeatText {
    /// By default each cell shows its distance.
    fn default() -> (r: Self)
        ensures
            r == HeatText::Dist,
    {
        Self::Dist
    }
}

/// All the options of a heat-map renderer.
#[derive(Clone, Copy, Debug, PartialEq, Eq, Structural)]
pub struct HeatMapOpts {
    pub mask: HeatMask,
    pub text: HeatText,
}

impl Default for HeatMapOpts {
    /// The default options: red mask, distance labels.
    fn default() -> (r: Self)
        ensures
            r.mask.r == true,
            r.mask.g == false,
            r.mask.b == false,
            r.mask.a == false,
            r.text == HeatText::Dist,
    {
        Self { mask: HeatMask::new(), text: HeatText::Dist }
    }
}

} // verus!
