use vstd::prelude::*;
use rand::seq::SliceRandom;

verus! {

/// What a ray met on its way through the scene.
#[derive(Clone, Copy, Debug, PartialEq, Eq, Structural)]
pub enum Surface {
    /// The ray left the scene without hitting anything.
    Missed,
    /// The material at the hit scatters nothing: it only emits.
    Emitter,
    /// The material scatters into a single direction (a mirror, clear glass).
    Specular,
    /// The material scatters with a density over directions.
    Diffuse,
}

/// The distribution that the next direction of a path is drawn from.
#[derive(Clone, Copy, Debug, PartialEq, Eq, Structural)]
pub enum Sampler {
    /// The material's own scattering distribution.
    Material,
    /// The distribution of directions towards the chosen light.
    Light,
    /// The material's distribution and the uniform hemisphere round the
    /// normal, mixed in equal parts.
    MaterialAndHemisphere,
}

/// What the contribution of a bounce is divided by.
#[derive(Clone, Copy, Debug, PartialEq, Eq, Structural)]
pub enum Divisor {
    /// Nothing: a single direction has no density to divide by.
    One,
    /// The density of the sampler at the direction drawn.
    Density,
}

/// How the radiance along a ray is estimated.
#[derive(Clone, Copy, Debug, PartialEq, Eq, Structural)]
pub enum Estimate {
    /// The path has used up its depth and carries no light.
    Black,
    /// The value of the background along the ray.
    Background,
    /// The light that the surface emits, and nothing else.
    Emission,
    /// The emitted light and one bounce, followed with `depth` bounces left.
    /// Where `redraw` is set, a direction that points into the surface is
    /// thrown away and drawn again.
    Bounce { sampler: Sampler, divisor: Divisor, redraw: bool, depth: i32 },
    /// The emitted light and two bounces weighted against each other by the
    /// power heuristic: one drawn from the material, one towards the light.
    Weighted { material_depth: i32, light_depth: i32 },
}

/// What an integrator does once it knows what the ray met.
#[derive(Debug)]
pub enum Step<'a, L> {
    /// The estimate is settled.
    Settled(Estimate),
    /// The estimate depends on whether this light is in sight from the hit.
    TryLight(&'a L),
}

/// Picks one of the lights with rand's `SliceRandom::choose` on the thread's
/// generator. Trusted: nothing is picked from an empty list, and what is
/// picked from another is one of its elements.
#[verifier::external_body]
fn pick<'a, L>(lights: &'a Vec<L>) -> (picked: Option<&'a L>)
    ensures
        picked is None <==> lights@.len() == 0,
        picked matches Some(light) ==> lights@.contains(*light),
{
    lights.choose(&mut rand::thread_rng())
}

/// The estimate that every integrator makes without drawing a direction, if
/// there is one: black at depth zero or below, the background for a miss,
/// the emission alone for a surface that does not scatter.
pub open spec fn ends_path(depth: i32, surface: Surface) -> Option<Estimate> {
    if depth <= 0 {
        Some(Estimate::Black)
    } else {
        match surface {
            Surface::Missed => Some(Estimate::Background),
            Surface::Emitter => Some(Estimate::Emission),
            _ => None,
        }
    }
}

/// The bounce off a surface that scatters into one direction only.
pub open spec fn specular_bounce(depth: i32, redraw: bool) -> Estimate {
    Estimate::Bounce {
        sampler: Sampler::Material,
        divisor: Divisor::One,
        redraw,
        depth: (depth - 1) as i32,
    }
}

/// A bounce drawn from `sampler` and divided by its density.
pub open spec fn density_bounce(sampler: Sampler, depth: i32, redraw: bool) -> Estimate {
    Estimate::Bounce { sampler, divisor: Divisor::Density, redraw, depth: (depth - 1) as i32 }
}

fn path_end(depth: i32, surface: Surface) -> (end: Option<Estimate>)
    ensures
        end == ends_path(depth, surface),
{
    if depth <= 0 {
        return Some(Estimate::Black);
    }
    match surface {
        Surface::Missed => Some(Estimate::Background),
        Surface::Emitter => Some(Estimate::Emission),
        Surface::Specular => None,
        Surface::Diffuse => None,
    }
}

/// Path tracing that weighs a direction drawn from the material against a
/// direction towards a light.
#[derive(Clone, Copy, Debug, Default)]
pub struct MultipleImportanceSampleIntegrator {}

/// Path tracing that aims at a light wherever there is one.
#[derive(Clone, Copy, Debug, Default)]
pub struct ImportanceSampleLightIntegrator {}

/// Path tracing that follows the material's own distribution.
#[derive(Clone, Copy, Debug, Default)]
pub struct BRDFSampledPathIntegrator {}

/// Path tracing that mixes the material's distribution with the uniform
/// hemisphere.
#[derive(Clone, Copy, Debug, Default)]
pub struct UniformSampledPathIntegrator {}

impl MultipleImportanceSampleIntegrator {
    /// The estimate that is settled without trying a light, if there is
    /// one, for a ray with `depth` bounces left that met `surface` in a
    /// scene with `lights` lights.
    pub open spec fn settles(depth: i32, surface: Surface, lights: nat) -> Option<Estimate> {
        match ends_path(depth, surface) {
            Some(estimate) => Some(estimate),
            None => if surface == Surface::Specular {
                Some(specular_bounce(depth, false))
            } else if lights == 0 {
                Some(density_bounce(Sampler::Material, depth, false))
            } else {
                None
            },
        }
    }

    /// The estimate on a diffuse surface once a light was tried: both
    /// strategies where the light is in sight, the material's alone where
    /// it is not. The path towards the light is followed for one step only.
    pub open spec fn spec_with_light(depth: i32, visible: bool) -> Estimate {
        if visible {
            Estimate::Weighted { material_depth: (depth - 1) as i32, light_depth: 1 }
        } else {
            density_bounce(Sampler::Material, depth, false)
        }
    }

    /// What to do for a ray with `depth` bounces left that met `surface`.
    /// On a diffuse surface one of the lights is picked at random and has
    /// to be tried; without lights the material alone is sampled.
    pub fn step<'a, L>(&self, depth: i32, surface: Surface, lights: &'a Vec<L>) -> (step: Step<
        'a,
        L,
    >)
        ensures
            Self::settles(depth, surface, lights@.len()) matches Some(estimate) ==> step
                == Step::<L>::Settled(estimate),
            Self::settles(depth, surface, lights@.len()) is None ==> step is TryLight,
            step matches Step::TryLight(light) ==> lights@.contains(*light),
    {
        match path_end(depth, surface) {
            Some(estimate) => Step::Settled(estimate),
            None => match surface {
                Surface::Specular => Step::Settled(
                    Estimate::Bounce {
                        sampler: Sampler::Material,
                        divisor: Divisor::One,
                        redraw: false,
                        depth: depth - 1,
                    },
                ),
                _ => match pick(lights) {
                    Some(light) => Step::TryLight(light),
                    None => Step::Settled(
                        Estimate::Bounce {
                            sampler: Sampler::Material,
                            divisor: Divisor::Density,
                            redraw: false,
                            depth: depth - 1,
                        },
                    ),
                },
            },
        }
    }

    /// The estimate on a diffuse surface, given whether the light that was
    /// picked is in sight from the hit.
    pub fn with_light(&self, depth: i32, visible: bool) -> (estimate: Estimate)
        requires
            depth > 0,
        ensures
            estimate == Self::spec_with_light(depth, visible),
    {
        if visible {
            Estimate::Weighted { material_depth: depth - 1, light_depth: 1 }
        } else {
            Estimate::Bounce {
                sampler: Sampler::Material,
                divisor: Divisor::Density,
                redraw: false,
                depth: depth - 1,
            }
        }
    }
}

impl ImportanceSampleLightIntegrator {
    /// The estimate for a ray with `depth` bounces left that met `surface`
    /// in a scene with `lights` lights. Every direction that points into
    /// the surface is drawn again.
    pub open spec fn spec_estimate(depth: i32, surface: Surface, lights: nat) -> Estimate {
        match ends_path(depth, surface) {
            Some(estimate) => estimate,
            None => if surface == Surface::Specular {
                specular_bounce(depth, true)
            } else if lights == 0 {
                density_bounce(Sampler::Material, depth, true)
            } else {
                density_bounce(Sampler::Light, depth, true)
            },
        }
    }

    /// The estimate for a ray with `depth` bounces left that met `surface`,
    /// and the light to aim at, picked at random, where the estimate samples
    /// one: on a diffuse surface in a scene that has lights.
    pub fn estimate<'a, L>(&self, depth: i32, surface: Surface, lights: &'a Vec<L>) -> (result: (
        Estimate,
        Option<&'a L>,
    ))
        ensures
            result.0 == Self::spec_estimate(depth, surface, lights@.len()),
            result.1 is Some <==> depth > 0 && surface == Surface::Diffuse && lights@.len() > 0,
            result.1 matches Some(light) ==> lights@.contains(*light),
    {
        match path_end(depth, surface) {
            Some(estimate) => (estimate, None),
            None => match surface {
                Surface::Specular => (
                    Estimate::Bounce {
                        sampler: Sampler::Material,
                        divisor: Divisor::One,
                        redraw: true,
                        depth: depth - 1,
                    },
                    None,
                ),
                _ => {
                    let picked = pick(lights);
                    let sampler = match picked {
                        Some(_) => Sampler::Light,
                        None => Sampler::Material,
                    };
                    (
                        Estimate::Bounce {
                            sampler,
                            divisor: Divisor::Density,
                            redraw: true,
                            depth: depth - 1,
                        },
                        picked,
                    )
                },
            },
        }
    }
}

impl BRDFSampledPathIntegrator {
    /// The estimate for a ray with `depth` bounces left that met `surface`.
    pub open spec fn spec_estimate(depth: i32, surface: Surface) -> Estimate {
        match ends_path(depth, surface) {
            Some(estimate) => estimate,
            None => if surface == Surface::Specular {
                specular_bounce(depth, false)
            } else {
                density_bounce(Sampler::Material, depth, false)
            },
        }
    }

    /// The estimate for a ray with `depth` bounces left that met `surface`:
    /// every bounce is drawn from the material.
    pub fn estimate(&self, depth: i32, surface: Surface) -> (estimate: Estimate)
        ensures
            estimate == Self::spec_estimate(depth, surface),
    {
        match path_end(depth, surface) {
            Some(estimate) => estimate,
            None => {
                let divisor = match surface {
                    Surface::Specular => Divisor::One,
                    _ => Divisor::Density,
                };
                Estimate::Bounce {
                    sampler: Sampler::Material,
                    divisor,
                    redraw: false,
                    depth: depth - 1,
                }
            },
        }
    }
}

impl UniformSampledPathIntegrator {
    /// The estimate for a ray with `depth` bounces left that met `surface`.
    pub open spec fn spec_estimate(depth: i32, surface: Surface) -> Estimate {
        match ends_path(depth, surface) {
            Some(estimate) => estimate,
            None => if surface == Surface::Specular {
                specular_bounce(depth, false)
            } else {
                density_bounce(Sampler::MaterialAndHemisphere, depth, false)
            },
        }
    }

    /// The estimate for a ray with `depth` bounces left that met `surface`:
    /// a diffuse bounce is drawn from the material and the hemisphere in
    /// equal parts.
    pub fn estimate(&self, depth: i32, surface: Surface) -> (estimate: Estimate)
        ensures
            estimate == Self::spec_estimate(depth, surface),
    {
        match path_end(depth, surface) {
            Some(estimate) => estimate,
            None => match surface {
                Surface::Specular => Estimate::Bounce {
                    sampler: Sampler::Material,
                    divisor: Divisor::One,
                    redraw: false,
                    depth: depth - 1,
                },
                _ => Estimate::Bounce {
                    sampler: Sampler::MaterialAndHemisphere,
                    divisor: Divisor::Density,
                    redraw: false,
                    depth: depth - 1,
                },
            },
        }
    }
}

/// Whether every path that the estimate follows has fewer bounces left
/// than the ray had, and none below zero, and the path towards a light has
/// one at most.
pub open spec fn shortens(estimate: Estimate, depth: i32) -> bool {
    match estimate {
        Estimate::Bounce { sampler, divisor, redraw, depth: next } => 0 <= next < depth,
        Estimate::Weighted { material_depth, light_depth } => {
            &&& 0 <= material_depth < depth
            &&& 0 <= light_depth <= 1
        },
        _ => true,
    }
}

/// Whether the estimate divides by a density what was drawn from a single
/// direction.
pub open spec fn divides_specular(estimate: Estimate, surface: Surface) -> bool {
    surface == Surface::Specular && match estimate {
        Estimate::Bounce { sampler, divisor, redraw, depth } => divisor == Divisor::Density,
        _ => false,
    }
}

/// Every estimate follows its paths with fewer bounces left than the ray
/// had, so a path ends after at most as many bounces as it was given, and a
/// path towards a light is followed for one step.
pub proof fn lemma_paths_get_shorter(depth: i32, surface: Surface, lights: nat, visible: bool)
    ensures
        shortens(BRDFSampledPathIntegrator::spec_estimate(depth, surface), depth),
        shortens(UniformSampledPathIntegrator::spec_estimate(depth, surface), depth),
        shortens(ImportanceSampleLightIntegrator::spec_estimate(depth, surface, lights), depth),
        MultipleImportanceSampleIntegrator::settles(depth, surface, lights) matches Some(e)
            ==> shortens(e, depth),
        depth > 0 ==> shortens(
            MultipleImportanceSampleIntegrator::spec_with_light(depth, visible),
            depth,
        ),
{
}

/// A surface that scatters into a single direction is never sampled towards
/// a light, and what it reflects is never divided by a density.
pub proof fn lemma_specular_is_not_divided(depth: i32, surface: Surface, lights: nat)
    ensures
        !divides_specular(BRDFSampledPathIntegrator::spec_estimate(depth, surface), surface),
        !divides_specular(UniformSampledPathIntegrator::spec_estimate(depth, surface), surface),
        !divides_specular(
            ImportanceSampleLightIntegrator::spec_estimate(depth, surface, lights),
            surface,
        ),
        surface == Surface::Specular ==> MultipleImportanceSampleIntegrator::settles(
            depth,
            surface,
            lights,
        ) is Some,
        MultipleImportanceSampleIntegrator::settles(depth, surface, lights) matches Some(e)
            ==> !divides_specular(e, surface),
{
}

} // verus!
