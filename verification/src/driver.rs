//! The progressive path-tracing driver: per-dispatch sample accounting,
//! accumulation weight, invalidation, and the output-image sizing rule.
//!
//! The driver owns only the host-side state; the host program creates the
//! GPU pipeline, output texture and bind groups from the dimensions and
//! per-dispatch values computed here. The accumulated image stays unbiased
//! because the `k`-th dispatch after an invalidation carries blend weight
//! `1 / k`: the kernel computes `out = lerp(out, contribution, weight)`, so
//! the first dispatch overwrites and later ones average.

use vstd::prelude::*;

verus! {

/// Compute kernel workgroup size on both axes.
pub const COMPUTE_SIZE: u32 = 8;

/// Default resolution factor, in thousandths of the surface size.
pub const DEFAULT_RESOLUTION_PERMILLE: u32 = 300;

/// Default ray-bounce budget per sample.
pub const DEFAULT_BOUNCES: u32 = 8;

/// Largest bounce budget the driver accepts.
pub const MAX_BOUNCES: u32 = 32;

/// Default sample budget per accumulation run.
pub const DEFAULT_MAX_SAMPLES: u32 = 1024;

/// IEEE 754 single-precision bit pattern of the default contribution clamp
/// (0.01); the clamp travels through the driver as an opaque bit pattern.
pub const DEFAULT_CONTRIBUTION_CLAMP_BITS: u32 = 0x3C23_D70A;

/// Output image side in texels: `floor(surface * permille / 1000 / 8) * 8`,
/// so the image is covered by whole workgroups and needs no bounds check in
/// the kernel.
pub open spec fn spec_out_dim(surface: int, permille: int) -> int {
    ((surface * permille / 1000) / 8) * 8
}

/// One dispatch's parameters: what the host writes as push constants and
/// the workgroup grid it dispatches.
#[derive(Clone, Copy, PartialEq, Eq, Structural, Debug)]
pub struct Dispatch {
    /// 1-based index of this dispatch since the last invalidation.
    pub sample: u32,
    /// The kernel's blend weight is exactly `1 / weight_denominator`.
    pub weight_denominator: u32,
    pub bounces: u32,
    pub contribution_clamp_bits: u32,
    pub groups_x: u32,
    pub groups_y: u32,
}

/// Host-side state of the progressive path tracer.
#[derive(Clone, Copy, PartialEq, Eq, Structural, Debug)]
pub struct Pathtracer {
    pub sample: u32,
    pub bounces: u32,
    pub contribution_clamp_bits: u32,
    pub max_sample_count: u32,
    pub resolution_factor_permille: u32,
    pub surface_width: u32,
    pub surface_height: u32,
    pub out_width: u32,
    pub out_height: u32,
}

/// The resolution factor is in range and the output dimensions follow from
/// the surface dimensions and the factor.
pub open spec fn driver_wf(s: Pathtracer) -> bool {
    &&& 100 <= s.resolution_factor_permille <= 1000
    &&& s.bounces <= MAX_BOUNCES
    &&& s.out_width as int == spec_out_dim(
        s.surface_width as int,
        s.resolution_factor_permille as int,
    )
    &&& s.out_height as int == spec_out_dim(
        s.surface_height as int,
        s.resolution_factor_permille as int,
    )
}

/// State after an invalidation: only the accumulation counter resets.
pub open spec fn spec_invalidate(s: Pathtracer) -> Pathtracer {
    Pathtracer { sample: 0, ..s }
}

/// State and result of one dispatch: a no-op at the sample budget, else the
/// counter pre-increments and the weight denominator equals it.
pub open spec fn spec_dispatch(s: Pathtracer) -> (Pathtracer, Option<Dispatch>) {
    if s.sample >= s.max_sample_count {
        (s, None)
    } else {
        let s2 = Pathtracer { sample: (s.sample + 1) as u32, ..s };
        (
            s2,
            Some(
                Dispatch {
                    sample: s2.sample,
                    weight_denominator: s2.sample,
                    bounces: s.bounces,
                    contribution_clamp_bits: s.contribution_clamp_bits,
                    groups_x: (s.out_width / COMPUTE_SIZE) as u32,
                    groups_y: (s.out_height / COMPUTE_SIZE) as u32,
                },
            ),
        )
    }
}

/// The state after `k` dispatches.
pub open spec fn spec_dispatch_k(s: Pathtracer, k: int) -> Pathtracer
    decreases k,
{
    if k <= 0 {
        s
    } else {
        spec_dispatch(spec_dispatch_k(s, k - 1)).0
    }
}

/// Output side length for one axis, computed in `u64`.
fn out_dim(surface: u32, permille: u32) -> (r: u32)
    requires
        permille <= 1000,
    ensures
        r as int == spec_out_dim(surface as int, permille as int),
{
    proof {
        crate::geom::lemma_mul_magnitude(surface as int, permille as int, u32::MAX as int, 1000);
    }
    let scaled = (surface as u64) * (permille as u64) / 1000;
    proof {
        vstd::arithmetic::div_mod::lemma_div_is_ordered(
            (surface as int) * (permille as int),
            (u32::MAX as int) * 1000,
            1000,
        );
        vstd::arithmetic::div_mod::lemma_div_multiples_vanish(u32::MAX as int, 1000);
        vstd::arithmetic::div_mod::lemma_div_is_ordered(scaled as int, u32::MAX as int, 8);
        vstd::arithmetic::div_mod::lemma_div_nonincreasing(u32::MAX as int, 8);
    }
    let blocks = scaled / 8;
    ((blocks * 8) as u32)
}

impl Pathtracer {
    /// Fresh driver state for a surface of the given size, with the default
    /// configuration and an empty accumulator.
    pub fn new(surface_width: u32, surface_height: u32) -> (r: Pathtracer)
        ensures
            driver_wf(r),
            r.sample == 0,
            r.bounces == DEFAULT_BOUNCES,
            r.contribution_clamp_bits == DEFAULT_CONTRIBUTION_CLAMP_BITS,
            r.max_sample_count == DEFAULT_MAX_SAMPLES,
            r.resolution_factor_permille == DEFAULT_RESOLUTION_PERMILLE,
            r.surface_width == surface_width,
            r.surface_height == surface_height,
    {
        let out_width = out_dim(surface_width, DEFAULT_RESOLUTION_PERMILLE);
        let out_height = out_dim(surface_height, DEFAULT_RESOLUTION_PERMILLE);
        Pathtracer {
            sample: 0,
            bounces: DEFAULT_BOUNCES,
            contribution_clamp_bits: DEFAULT_CONTRIBUTION_CLAMP_BITS,
            max_sample_count: DEFAULT_MAX_SAMPLES,
            resolution_factor_permille: DEFAULT_RESOLUTION_PERMILLE,
            surface_width,
            surface_height,
            out_width,
            out_height,
        }
    }

    pub fn sample_count(&self) -> (r: u32)
        ensures
            r == self.sample,
    {
        self.sample
    }

    /// Reset progressive accumulation: the next dispatch overwrites the
    /// output image (its weight denominator is one).
    pub fn invalidate(&mut self)
        ensures
            *final(self) == spec_invalidate(*old(self)),
    {
        self.sample = 0;
    }

    /// Recompute the output dimensions for the current surface size and
    /// resolution factor and reset accumulation; the host must then
    /// recreate the output texture and its bind group at these dimensions.
    pub fn update(&mut self)
        requires
            100 <= old(self).resolution_factor_permille <= 1000,
        ensures
            old(self).bounces <= MAX_BOUNCES ==> driver_wf(*final(self)),
            final(self).sample == 0,
            final(self).out_width as int == spec_out_dim(
                old(self).surface_width as int,
                old(self).resolution_factor_permille as int,
            ),
            final(self).out_height as int == spec_out_dim(
                old(self).surface_height as int,
                old(self).resolution_factor_permille as int,
            ),
            final(self).bounces == old(self).bounces,
            final(self).contribution_clamp_bits == old(self).contribution_clamp_bits,
            final(self).max_sample_count == old(self).max_sample_count,
            final(self).resolution_factor_permille == old(self).resolution_factor_permille,
            final(self).surface_width == old(self).surface_width,
            final(self).surface_height == old(self).surface_height,
    {
        self.out_width = out_dim(self.surface_width, self.resolution_factor_permille);
        self.out_height = out_dim(self.surface_height, self.resolution_factor_permille);
        self.invalidate();
    }

    /// React to a surface resize. Resizing to the current dimensions is a
    /// no-op (explicit early return): nothing changes and accumulation is
    /// kept. A real change stores the new surface size, resizes the output
    /// and resets accumulation.
    pub fn resize(&mut self, surface_width: u32, surface_height: u32)
        requires
            100 <= old(self).resolution_factor_permille <= 1000,
        ensures
            surface_width == old(self).surface_width && surface_height == old(
                self,
            ).surface_height ==> *final(self) == *old(self),
            !(surface_width == old(self).surface_width && surface_height == old(
                self,
            ).surface_height) ==> {
                &&& final(self).sample == 0
                &&& final(self).surface_width == surface_width
                &&& final(self).surface_height == surface_height
                &&& final(self).out_width as int == spec_out_dim(
                    surface_width as int,
                    old(self).resolution_factor_permille as int,
                )
                &&& final(self).out_height as int == spec_out_dim(
                    surface_height as int,
                    old(self).resolution_factor_permille as int,
                )
                &&& final(self).bounces == old(self).bounces
                &&& final(self).max_sample_count == old(self).max_sample_count
                &&& final(self).resolution_factor_permille == old(
                    self,
                ).resolution_factor_permille
            },
    {
        if surface_width == self.surface_width && surface_height == self.surface_height {
            return ;
        }
        self.surface_width = surface_width;
        self.surface_height = surface_height;
        self.update();
    }

    /// Change the resolution factor (clamped to `[100, 1000]` thousandths)
    /// and rebuild the output accordingly.
    pub fn set_resolution_factor_permille(&mut self, permille: u32)
        ensures
            final(self).resolution_factor_permille == if permille < 100 {
                100u32
            } else if permille > 1000 {
                1000u32
            } else {
                permille
            },
            final(self).sample == 0,
            old(self).bounces <= MAX_BOUNCES ==> driver_wf(*final(self)),
            final(self).surface_width == old(self).surface_width,
            final(self).surface_height == old(self).surface_height,
            final(self).bounces == old(self).bounces,
            final(self).max_sample_count == old(self).max_sample_count,
    {
        self.resolution_factor_permille = if permille < 100 {
            100
        } else if permille > 1000 {
            1000
        } else {
            permille
        };
        self.update();
    }

    /// Change the bounce budget (clamped to `[0, 32]`) and reset
    /// accumulation, since the reconstructed signal changes.
    pub fn set_bounces(&mut self, bounces: u32)
        ensures
            final(self).bounces == if bounces > MAX_BOUNCES {
                MAX_BOUNCES
            } else {
                bounces
            },
            final(self).sample == 0,
            final(self).out_width == old(self).out_width,
            final(self).out_height == old(self).out_height,
            final(self).max_sample_count == old(self).max_sample_count,
            final(self).resolution_factor_permille == old(self).resolution_factor_permille,
            final(self).surface_width == old(self).surface_width,
            final(self).surface_height == old(self).surface_height,
            final(self).contribution_clamp_bits == old(self).contribution_clamp_bits,
    {
        self.bounces = if bounces > MAX_BOUNCES {
            MAX_BOUNCES
        } else {
            bounces
        };
        self.invalidate();
    }

    /// Change the contribution clamp (an opaque float bit pattern) and
    /// reset accumulation.
    pub fn set_contribution_clamp_bits(&mut self, bits: u32)
        ensures
            final(self).contribution_clamp_bits == bits,
            final(self).sample == 0,
            *final(self) == (Pathtracer {
                sample: 0,
                contribution_clamp_bits: bits,
                ..*old(self)
            }),
    {
        self.contribution_clamp_bits = bits;
        self.invalidate();
    }

    /// Decide one frame's compute dispatch. A no-op exactly when the sample
    /// budget is exhausted; otherwise the sample counter pre-increments and
    /// the returned parameters carry weight `1 / sample` and the workgroup
    /// grid covering the output image.
    pub fn dispatch(&mut self) -> (r: Option<Dispatch>)
        ensures
            (*final(self), r) == spec_dispatch(*old(self)),
            r is None <==> old(self).sample >= old(self).max_sample_count,
            r is None ==> *final(self) == *old(self),
            r matches Some(d) ==> {
                &&& final(self).sample == old(self).sample + 1
                &&& d.sample == final(self).sample
                &&& d.weight_denominator == final(self).sample
                &&& d.bounces == old(self).bounces
                &&& d.groups_x == old(self).out_width / COMPUTE_SIZE
                &&& d.groups_y == old(self).out_height / COMPUTE_SIZE
            },
    {
        if self.sample >= self.max_sample_count {
            return None;
        }
        self.sample = self.sample + 1;
        Some(
            Dispatch {
                sample: self.sample,
                weight_denominator: self.sample,
                bounces: self.bounces,
                contribution_clamp_bits: self.contribution_clamp_bits,
                groups_x: self.out_width / COMPUTE_SIZE,
                groups_y: self.out_height / COMPUTE_SIZE,
            },
        )
    }
}

/// Invalidation followed by one dispatch blends with weight exactly one:
/// the dispatch is taken (any positive budget allows it), its sample index
/// is 1 and its weight denominator is 1, so the kernel's `1 / 1` overwrite
/// discards all stale content.
pub proof fn lemma_invalidate_then_dispatch(s: Pathtracer)
    requires
        s.max_sample_count >= 1,
    ensures
        spec_dispatch(spec_invalidate(s)).1 is Some,
        spec_dispatch(spec_invalidate(s)).1->Some_0.sample == 1,
        spec_dispatch(spec_invalidate(s)).1->Some_0.weight_denominator == 1,
{
}

/// Progressive accumulation: starting from an empty accumulator, after `k`
/// dispatches (within the sample budget) the host-side counter equals `k`,
/// and the `k`-th dispatch carried weight denominator `k`.
pub proof fn lemma_progressive_accumulation(s: Pathtracer, k: int)
    requires
        s.sample == 0,
        0 <= k <= s.max_sample_count,
    ensures
        spec_dispatch_k(s, k) == (Pathtracer { sample: k as u32, ..s }),
        spec_dispatch_k(s, k).sample == k,
        k >= 1 ==> (spec_dispatch(spec_dispatch_k(s, k - 1)).1 matches Some(d)
            && d.weight_denominator == k && d.sample == k),
    decreases k,
{
    if k > 0 {
        lemma_progressive_accumulation(s, k - 1);
    } else {
        assert(spec_dispatch_k(s, 0) == s);
        assert(s == (Pathtracer { sample: 0u32, ..s }));
    }
}

/// A dispatch is a no-op exactly when the accumulator has reached the
/// sample budget; otherwise it advances the counter by one.
pub proof fn lemma_dispatch_no_op(s: Pathtracer)
    ensures
        spec_dispatch(s).1 is None <==> s.sample >= s.max_sample_count,
        spec_dispatch(s).1 is None ==> spec_dispatch(s).0 == s,
        spec_dispatch(s).1 is Some ==> spec_dispatch(s).0.sample == s.sample + 1,
{
}

} // verus!
