use vstd::prelude::*;
use crate::color::{Color, color_diff, valid_shift};
use crate::grid::{JoinRule, KeyingAction};
use crate::clusters::{BuildConfig, Clusters};
use crate::builder::{Builder, IncrementalBuilder, Phase};
use crate::image::ColorImage;

verus! {

/// The metric used for the deepening color gate.
#[derive(Clone, Copy, Debug, PartialEq, Eq, Structural)]
pub enum ColorSpace {
    /// Sum of absolute RGB channel differences.
    RGB,
    /// Scaled squared distance in the Oklab perceptual space.
    Oklab,
}

impl Default for ColorSpace {
    fn default() -> (c: ColorSpace)
        ensures
            c == ColorSpace::RGB,
    {
        ColorSpace::RGB
    }
}

/// The largest refinement depth.
pub const HIERARCHICAL_MAX: u32 = u32::MAX;

/// Everything a run can be configured with.
#[derive(Clone, Copy, Debug, PartialEq, Eq, Structural)]
pub struct RunnerConfig {
    /// Diagonal pixels are adjacent too.
    pub diagonal: bool,
    /// The largest refinement depth.
    pub hierarchical: u32,
    /// Units of work per step.
    pub batch_size: i32,
    /// Clusters of area at most this are never split.
    pub good_min_area: usize,
    /// Clusters of area at least this are never split.
    pub good_max_area: usize,
    /// Quantization shift of the same-color test.
    pub is_same_color_a: i32,
    /// Tolerance of the same-color test.
    pub is_same_color_b: i32,
    /// A cluster is split only if it differs from its first neighbour by more.
    pub deepen_diff: i32,
    /// A cluster with at most this many neighbours is hollow.
    pub hollow_neighbours: usize,
    pub key_color: Color,
    pub keying_action: KeyingAction,
    pub color_space: ColorSpace,
}

impl Default for RunnerConfig {
    fn default() -> (c: RunnerConfig)
        ensures
            c == RunnerConfig::spec_default(),
    {
        RunnerConfig {
            diagonal: false,
            hierarchical: HIERARCHICAL_MAX,
            batch_size: 25600,
            good_min_area: 16,
            good_max_area: 256 * 256,
            is_same_color_a: 4,
            is_same_color_b: 1,
            deepen_diff: 64,
            hollow_neighbours: 1,
            key_color: Color { r: 0, g: 0, b: 0 },
            keying_action: KeyingAction::Keep,
            color_space: ColorSpace::RGB,
        }
    }
}

impl RunnerConfig {
    pub open spec fn spec_default() -> RunnerConfig {
        RunnerConfig {
            diagonal: false,
            hierarchical: HIERARCHICAL_MAX,
            batch_size: 25600,
            good_min_area: 16,
            good_max_area: 65536,
            is_same_color_a: 4,
            is_same_color_b: 1,
            deepen_diff: 64,
            hollow_neighbours: 1,
            key_color: Color { r: 0, g: 0, b: 0 },
            keying_action: KeyingAction::Keep,
            color_space: ColorSpace::RGB,
        }
    }

    /// The quantization shift leaves at least one significant bit.
    pub open spec fn valid(&self) -> bool {
        valid_shift(self.is_same_color_a as int)
    }

    /// The settings handed to the builder.
    pub open spec fn build_config(&self) -> BuildConfig {
        BuildConfig {
            diagonal: self.diagonal,
            max_depth: self.hierarchical,
            batch_size: self.batch_size as u32,
            good_min_area: self.good_min_area,
            good_max_area: self.good_max_area,
            rule: JoinRule {
                shift: self.is_same_color_a,
                tolerance: self.is_same_color_b,
                key: self.key_color,
                keying: self.keying_action,
            },
            deepen_diff: self.deepen_diff,
            hollow_neighbours: self.hollow_neighbours,
            color_space: self.color_space,
        }
    }
}

/// A configuration together with the image it is applied to.
pub struct Runner {
    pub config: RunnerConfig,
    pub image: ColorImage,
}

impl Default for Runner {
    fn default() -> (r: Runner)
        ensures
            r.config == RunnerConfig::spec_default(),
            r.image.width == 0,
            r.image.height == 0,
            r.image.wf(),
    {
        Runner { config: RunnerConfig::default(), image: ColorImage::new() }
    }
}

impl Runner {
    pub fn new(config: RunnerConfig, image: ColorImage) -> (r: Runner)
        ensures
            r.config == config,
            r.image == image,
    {
        Runner { config, image }
    }

    /// Replaces the image.
    pub fn init(&mut self, image: ColorImage)
        ensures
            final(self).image == image,
            final(self).config == old(self).config,
    {
        self.image = image;
    }

    /// A builder bound to this configuration and image.
    pub fn builder(self) -> (b: Builder)
        requires
            self.config.valid(),
            self.image.wf(),
        ensures
            b.wf(),
            b.config == self.config.build_config(),
            b.image == self.image,
    {
        let c = self.config;
        let config = BuildConfig {
            diagonal: c.diagonal,
            max_depth: c.hierarchical,
            batch_size: c.batch_size as u32,
            good_min_area: c.good_min_area,
            good_max_area: c.good_max_area,
            rule: JoinRule {
                shift: c.is_same_color_a,
                tolerance: c.is_same_color_b,
                key: c.key_color,
                keying: c.keying_action,
            },
            deepen_diff: c.deepen_diff,
            hollow_neighbours: c.hollow_neighbours,
            color_space: c.color_space,
        };
        Builder::new(self.image, config)
    }

    /// Starts construction and returns the handle to step it.
    pub fn start(self) -> (b: IncrementalBuilder)
        requires
            self.config.valid(),
            self.image.wf(),
        ensures
            b.wf(),
            b.config == self.config.build_config(),
            b.width == self.image.width,
            b.height == self.image.height,
            b.pixels@ == self.image.pixels@,
            b.phase == (Phase::Partition { next: 0 }),
            forall|p: int|
                0 <= p < b.labels@.len() ==> #[trigger] b.labels@[p] == (if self.config.keying_action
                    == KeyingAction::Background && b.pixels@[p] == self.config.key_color {
                    Some(0usize)
                } else {
                    None
                }),
            b.clusters@.len() <= 1,
            b.clusters@.len() == 1 ==> b.clusters@[0].reserved,
    {
        self.builder().start()
    }

    /// Constructs to completion under the raw RGB metric.
    pub fn run(self) -> (r: Clusters)
        requires
            self.config.valid(),
            self.image.wf(),
            self.config.color_space == ColorSpace::RGB,
        ensures
            r.wf(),
            r.config == self.config.build_config(),
            r.width == self.image.width,
            r.height == self.image.height,
            r.pixels@ == self.image.pixels@,
    {
        self.builder().run()
    }

    /// Constructs to completion, with `perceptual` as the metric where the
    /// configuration asks for the perceptual one.
    pub fn run_with<F: Fn(Color, Color) -> i32>(self, perceptual: &F) -> (r: Clusters)
        requires
            self.config.valid(),
            self.image.wf(),
            forall|a: Color, b: Color| perceptual.requires((a, b)),
        ensures
            r.wf(),
            r.config == self.config.build_config(),
            r.width == self.image.width,
            r.height == self.image.height,
            r.pixels@ == self.image.pixels@,
    {
        self.builder().run_with(perceptual)
    }
}

} // verus!
