use vstd::prelude::*;

verus! {

// The reaction-diffusion rates of the local update, each in hundredths
// (`ALPHA == 12` is the rate 0.12).

/// φ self-activation.
pub const ALPHA: u32 = 12;

/// φ inhibition by τ.
pub const BETA: u32 = 8;

/// τ production by φ².
pub const GAMMA: u32 = 10;

/// τ decay.
pub const DELTA: u32 = 5;

/// φ diffusion.
pub const D_PHI: u32 = 15;

/// τ diffusion.
pub const D_TAU: u32 = 30;

/// ω diffusion.
pub const D_OMEGA: u32 = 5;

/// The denominator of every rate above.
pub const RATE_SCALE: u32 = 100;

/// Turing instability needs the inhibitor τ to diffuse faster than the
/// activator φ; the rates above meet that.
pub proof fn lemma_turing_diffusion_asymmetry()
    ensures
        D_TAU > D_PHI,
{
}

} // verus!
