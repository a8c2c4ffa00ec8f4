use renderer::integrator::{Divisor, Estimate, Sampler, Step, Surface};
use renderer::{
    BRDFSampledPathIntegrator, ImportanceSampleLightIntegrator,
    MultipleImportanceSampleIntegrator, UniformSampledPathIntegrator,
};

const SURFACES: [Surface; 4] =
    [Surface::Missed, Surface::Emitter, Surface::Specular, Surface::Diffuse];

fn settled(step: Step<&str>) -> Estimate {
    match step {
        Step::Settled(estimate) => estimate,
        Step::TryLight(light) => panic!("asks for the light {}", light),
    }
}

fn bounce(sampler: Sampler, divisor: Divisor, redraw: bool, depth: i32) -> Estimate {
    Estimate::Bounce { sampler, divisor, redraw, depth }
}

#[test]
fn no_depth_left_is_black() {
    let lights = vec!["sun", "lamp"];
    for surface in SURFACES {
        for depth in [0, -1, i32::MIN] {
            assert_eq!(
                settled(MultipleImportanceSampleIntegrator {}.step(depth, surface, &lights)),
                Estimate::Black
            );
            assert_eq!(
                ImportanceSampleLightIntegrator {}.estimate(depth, surface, &lights),
                (Estimate::Black, None)
            );
            assert_eq!(BRDFSampledPathIntegrator {}.estimate(depth, surface), Estimate::Black);
            assert_eq!(UniformSampledPathIntegrator {}.estimate(depth, surface), Estimate::Black);
        }
    }
}

#[test]
fn a_miss_shows_the_background() {
    let lights = vec!["sun"];
    assert_eq!(
        settled(MultipleImportanceSampleIntegrator {}.step(5, Surface::Missed, &lights)),
        Estimate::Background
    );
    assert_eq!(
        ImportanceSampleLightIntegrator {}.estimate(5, Surface::Missed, &lights),
        (Estimate::Background, None)
    );
    assert_eq!(BRDFSampledPathIntegrator {}.estimate(5, Surface::Missed), Estimate::Background);
    assert_eq!(UniformSampledPathIntegrator {}.estimate(5, Surface::Missed), Estimate::Background);
}

#[test]
fn an_emitter_only_emits() {
    let lights = vec!["sun"];
    assert_eq!(
        settled(MultipleImportanceSampleIntegrator {}.step(1, Surface::Emitter, &lights)),
        Estimate::Emission
    );
    assert_eq!(
        ImportanceSampleLightIntegrator {}.estimate(1, Surface::Emitter, &lights),
        (Estimate::Emission, None)
    );
    assert_eq!(BRDFSampledPathIntegrator {}.estimate(1, Surface::Emitter), Estimate::Emission);
    assert_eq!(UniformSampledPathIntegrator {}.estimate(1, Surface::Emitter), Estimate::Emission);
}

#[test]
fn a_specular_bounce_is_not_divided() {
    let lights = vec!["sun"];
    let plain = bounce(Sampler::Material, Divisor::One, false, 9);
    assert_eq!(
        settled(MultipleImportanceSampleIntegrator {}.step(10, Surface::Specular, &lights)),
        plain
    );
    assert_eq!(
        ImportanceSampleLightIntegrator {}.estimate(10, Surface::Specular, &lights),
        (bounce(Sampler::Material, Divisor::One, true, 9), None)
    );
    assert_eq!(BRDFSampledPathIntegrator {}.estimate(10, Surface::Specular), plain);
    assert_eq!(UniformSampledPathIntegrator {}.estimate(10, Surface::Specular), plain);
}

#[test]
fn a_diffuse_surface_tries_one_of_the_lights() {
    let lights = vec!["sun", "lamp", "candle"];
    let mut seen = [false; 3];
    for _ in 0..400 {
        let mis = MultipleImportanceSampleIntegrator {};
        match mis.step(10, Surface::Diffuse, &lights) {
            Step::TryLight(light) => {
                let place = lights.iter().position(|l| l == light).unwrap();
                seen[place] = true;
            }
            Step::Settled(estimate) => panic!("settled on {:?}", estimate),
        }
    }
    assert_eq!(seen, [true, true, true]);
}

#[test]
fn without_lights_the_material_is_sampled() {
    let none: Vec<&str> = Vec::new();
    assert_eq!(
        settled(MultipleImportanceSampleIntegrator {}.step(10, Surface::Diffuse, &none)),
        bounce(Sampler::Material, Divisor::Density, false, 9)
    );
    assert_eq!(
        ImportanceSampleLightIntegrator {}.estimate(10, Surface::Diffuse, &none),
        (bounce(Sampler::Material, Divisor::Density, true, 9), None)
    );
}

#[test]
fn a_visible_light_is_weighed_against_the_material() {
    let mis = MultipleImportanceSampleIntegrator {};
    assert_eq!(
        mis.with_light(10, true),
        Estimate::Weighted { material_depth: 9, light_depth: 1 }
    );
    assert_eq!(mis.with_light(1, true), Estimate::Weighted { material_depth: 0, light_depth: 1 });
    assert_eq!(mis.with_light(10, false), bounce(Sampler::Material, Divisor::Density, false, 9));
    assert_eq!(
        mis.with_light(i32::MAX, false),
        bounce(Sampler::Material, Divisor::Density, false, i32::MAX - 1)
    );
}

#[test]
fn a_chosen_light_replaces_the_material() {
    let lights = vec!["sun", "lamp"];
    for _ in 0..50 {
        let (estimate, light) =
            ImportanceSampleLightIntegrator {}.estimate(4, Surface::Diffuse, &lights);
        assert_eq!(estimate, bounce(Sampler::Light, Divisor::Density, true, 3));
        assert!(lights.contains(light.unwrap()));
    }
}

#[test]
fn diffuse_bounces_divide_by_their_density() {
    assert_eq!(
        BRDFSampledPathIntegrator {}.estimate(3, Surface::Diffuse),
        bounce(Sampler::Material, Divisor::Density, false, 2)
    );
    assert_eq!(
        UniformSampledPathIntegrator {}.estimate(3, Surface::Diffuse),
        bounce(Sampler::MaterialAndHemisphere, Divisor::Density, false, 2)
    );
}

#[test]
fn followed_paths_have_less_depth() {
    let lights = vec!["sun"];
    for depth in 1..60 {
        for surface in SURFACES {
            for estimate in [
                BRDFSampledPathIntegrator {}.estimate(depth, surface),
                UniformSampledPathIntegrator {}.estimate(depth, surface),
                ImportanceSampleLightIntegrator {}.estimate(depth, surface, &lights).0,
                MultipleImportanceSampleIntegrator {}.with_light(depth, false),
                MultipleImportanceSampleIntegrator {}.with_light(depth, true),
            ] {
                match estimate {
                    Estimate::Bounce { depth: next, .. } => assert!(0 <= next && next < depth),
                    Estimate::Weighted { material_depth, light_depth } => {
                        assert!(0 <= material_depth && material_depth < depth);
                        assert_eq!(light_depth, 1);
                    }
                    _ => {}
                }
            }
        }
    }
}

#[test]
fn specular_surfaces_never_divide_by_a_density() {
    let lights = vec!["sun"];
    for depth in -2..20 {
        for estimate in [
            BRDFSampledPathIntegrator {}.estimate(depth, Surface::Specular),
            UniformSampledPathIntegrator {}.estimate(depth, Surface::Specular),
            ImportanceSampleLightIntegrator {}.estimate(depth, Surface::Specular, &lights).0,
            settled(MultipleImportanceSampleIntegrator {}.step(depth, Surface::Specular, &lights)),
        ] {
            if let Estimate::Bounce { divisor, sampler, .. } = estimate {
                assert_eq!(divisor, Divisor::One);
                assert_eq!(sampler, Sampler::Material);
            }
        }
    }
}
