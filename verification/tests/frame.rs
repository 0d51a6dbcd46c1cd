use bevy::render::render_resource::{TextureFormat, TextureSampleType, TextureUsages};
use bevy::render::texture::BevyDefault;
use bevy_jfa::dimensions::{Dimensions, MAX_EXTENT};
use bevy_jfa::error::OutlineError;
use bevy_jfa::graph::{outline, plan_frame, FrameAction, Pass, Readiness, Resource};
use bevy_jfa::mask::Fragment;
use bevy_jfa::outline::{
    blend, composite, isqrt, mix, opacity, opacity_at, scale, OutlineParams, HALF_BAND, SUBPIXEL,
};
use bevy_jfa::pingpong::Slot;
use bevy_jfa::pipeline_key::{
    FormatTraits, OutlinePipelineKey, SampleKind, BLENDABLE, RENDER_ATTACHMENT,
};
use bevy_jfa::resources::{plan_resize, recreate_outline_resources, OutlineResources, ResizeAction};
use bevy_jfa::seed::{SeedBuffer, Texel};
use bevy_jfa::settings::OutlineSettings;
use bevy_jfa::target::{ColorTarget, Rgba8};

const LILAC: Rgba8 = Rgba8 { r: 0xb4, g: 0xa2, b: 0xc8, a: 255 };
const NIGHT: Rgba8 = Rgba8 { r: 10, g: 20, b: 30, a: 255 };

fn column(x: u32, height: u32) -> Vec<Fragment> {
    (0..height).map(|y| Fragment { x, y }).collect()
}

#[test]
fn integer_square_root_rounds_down() {
    assert_eq!(isqrt(0), 0);
    assert_eq!(isqrt(1), 1);
    assert_eq!(isqrt(3), 1);
    assert_eq!(isqrt(4), 2);
    assert_eq!(isqrt(15), 3);
    assert_eq!(isqrt(16), 4);
    assert_eq!(isqrt(524_288), 724);
    assert_eq!(isqrt(u64::MAX as u128), u32::MAX as u64);
    assert_eq!(isqrt(u128::MAX), u64::MAX);
    for n in 0..5000u128 {
        let r = isqrt(n) as u128;
        assert!(r * r <= n && n < (r + 1) * (r + 1));
    }
}

#[test]
fn opacity_is_full_inside_and_zero_beyond_the_band() {
    let weight = 3 * SUBPIXEL;
    assert_eq!(opacity_at(weight, 0), 255);
    assert_eq!(opacity_at(weight, (weight - HALF_BAND) as u64), 255);
    assert_eq!(opacity_at(weight, weight as u64), 127);
    assert_eq!(opacity_at(weight, 724), 190);
    assert_eq!(opacity_at(weight, (weight + HALF_BAND) as u64), 0);
    assert_eq!(opacity_at(weight, (weight + HALF_BAND) as u64 - 1), 0);
    assert_eq!(opacity_at(weight, u64::MAX), 0);
    assert_eq!(opacity_at(0, 0), 127);
    assert_eq!(opacity_at(0, 128), 0);
    assert_eq!(opacity_at(u32::MAX, u32::MAX as u64 - 128), 255);
}

#[test]
fn opacity_never_grows_with_distance() {
    for weight in [0u32, 100, 256, 768, 5000] {
        let mut previous = 255u8;
        for dist in 0..7000u64 {
            let now = opacity_at(weight, dist);
            assert!(now <= previous);
            if dist + 128 <= weight as u64 {
                assert_eq!(now, 255);
            }
            if dist >= weight as u64 + 128 {
                assert_eq!(now, 0);
            }
            previous = now;
        }
    }
}

#[test]
fn opacity_follows_the_distance_to_the_stored_seed() {
    let weight = 3 * SUBPIXEL;
    let seed = Texel::Seed { x: 0, y: 0 };
    assert_eq!(opacity(weight, 0, 0, seed), 255);
    assert_eq!(opacity(weight, 2, 0, seed), 255);
    assert_eq!(opacity(weight, 3, 0, seed), 127);
    assert_eq!(opacity(weight, 0, 3, seed), 127);
    assert_eq!(opacity(weight, 2, 2, seed), 190);
    assert_eq!(opacity(weight, 4, 0, seed), 0);
    assert_eq!(opacity(weight, 3, 3, seed), 0);
    assert_eq!(opacity(weight, 0, 0, Texel::Sentinel), 0);
    assert_eq!(opacity(u32::MAX, 9, 9, Texel::Sentinel), 0);
    assert_eq!(opacity(weight, u32::MAX, u32::MAX, seed), 0);
}

#[test]
fn channels_blend_source_over() {
    assert_eq!(scale(255, 255), 255);
    assert_eq!(scale(0, 255), 0);
    assert_eq!(scale(128, 255), 128);
    assert_eq!(scale(127, 128), 64);
    assert_eq!(mix(255, 0, 128), 128);
    assert_eq!(mix(10, 200, 0), 200);
    assert_eq!(mix(10, 200, 255), 10);
    assert_eq!(mix(0, 255, 255), 0);
    assert_eq!(mix(255, 255, 77), 255);
    assert_eq!(blend(LILAC, 255, NIGHT), LILAC);
    assert_eq!(blend(LILAC, 0, NIGHT), Rgba8 { r: 10, g: 20, b: 30, a: 0 });
    assert_eq!(blend(LILAC, 127, NIGHT), Rgba8 { r: 95, g: 91, b: 115, a: 127 });
    let glass = Rgba8 { r: 255, g: 0, b: 0, a: 128 };
    assert_eq!(blend(glass, 255, NIGHT), Rgba8 { r: 133, g: 10, b: 15, a: 128 });
}

#[test]
fn params_keep_what_they_are_given() {
    let params = OutlineParams::new(LILAC, 32 * SUBPIXEL);
    assert_eq!(params.color, LILAC);
    assert_eq!(params.weight, 8192);
}

#[test]
fn composite_blends_over_the_existing_target() {
    let dims = Dimensions::new(6, 1);
    let mut seeds = SeedBuffer::new(dims).unwrap();
    for x in 0..6 {
        seeds.store(x, 0, Texel::Seed { x: 0, y: 0 });
    }
    let mut target = ColorTarget::new(dims, NIGHT).unwrap();
    target.put(1, 0, Rgba8 { r: 1, g: 2, b: 3, a: 4 });
    let params = OutlineParams::new(LILAC, 3 * SUBPIXEL);
    assert_eq!(composite(&seeds, &params, &mut target), Ok(()));
    assert_eq!(target.get(0, 0), Some(LILAC));
    assert_eq!(target.get(1, 0), Some(LILAC));
    assert_eq!(target.get(2, 0), Some(LILAC));
    assert_eq!(target.get(3, 0), Some(Rgba8 { r: 95, g: 91, b: 115, a: 127 }));
    assert_eq!(target.get(4, 0), Some(Rgba8 { r: 10, g: 20, b: 30, a: 0 }));
    assert_eq!(target.get(5, 0), Some(Rgba8 { r: 10, g: 20, b: 30, a: 0 }));
    assert_eq!(target.get(6, 0), None);
}

#[test]
fn composite_refuses_a_target_of_another_size() {
    let seeds = SeedBuffer::new(Dimensions::new(4, 4)).unwrap();
    let mut target = ColorTarget::new(Dimensions::new(4, 3), NIGHT).unwrap();
    let params = OutlineParams::new(LILAC, SUBPIXEL);
    assert_eq!(composite(&seeds, &params, &mut target), Err(OutlineError::ResourceMismatch));
    for y in 0..3 {
        for x in 0..4 {
            assert_eq!(target.get(x, y), Some(NIGHT));
        }
    }
    assert_eq!(target.dimensions(), Dimensions::new(4, 3));
    assert!(ColorTarget::new(Dimensions::new(MAX_EXTENT + 1, MAX_EXTENT + 1), NIGHT).is_none());
}

#[test]
fn empty_mask_contributes_nothing() {
    let mut resources = OutlineResources::new();
    assert_eq!(recreate_outline_resources(&mut resources, 9, 6), Ok(true));
    let mut target = ColorTarget::new(Dimensions::new(9, 6), NIGHT).unwrap();
    target.put(3, 3, Rgba8 { r: 200, g: 100, b: 50, a: 255 });
    let params = OutlineParams::new(LILAC, 100 * SUBPIXEL);
    assert_eq!(resources.render(&Vec::new(), &params, &mut target), Ok(()));
    for y in 0..6 {
        for x in 0..9 {
            let texel = resources.jfa_output().current_buffer().get(x, y);
            assert_eq!(texel, Texel::Sentinel);
            let seen = target.get(x, y).unwrap();
            let before = if (x, y) == (3, 3) { (200, 100, 50) } else { (10, 20, 30) };
            assert_eq!((seen.r, seen.g, seen.b), before);
            assert_eq!(seen.a, 0);
        }
    }
}

#[test]
fn straight_edge_has_an_outline_of_the_style_width() {
    let mut resources = OutlineResources::new();
    assert_eq!(recreate_outline_resources(&mut resources, 12, 5), Ok(true));
    let mut target = ColorTarget::new(Dimensions::new(12, 5), NIGHT).unwrap();
    let params = OutlineParams::new(LILAC, 3 * SUBPIXEL);
    assert_eq!(resources.render(&column(0, 5), &params, &mut target), Ok(()));
    for y in 0..5 {
        for x in 0..12 {
            let expected = if x < 3 {
                LILAC
            } else if x == 3 {
                Rgba8 { r: 95, g: 91, b: 115, a: 127 }
            } else {
                Rgba8 { r: 10, g: 20, b: 30, a: 0 }
            };
            assert_eq!(target.get(x, y), Some(expected));
            assert_eq!(resources.mask_output().is_covered(x, y), x == 0);
        }
    }
}

#[test]
fn distant_shapes_are_outlined_independently() {
    let width = 40;
    let height = 9;
    let params = OutlineParams::new(LILAC, 3 * SUBPIXEL);
    let left = vec![Fragment { x: 4, y: 4 }, Fragment { x: 5, y: 4 }];
    let right = vec![Fragment { x: 30, y: 4 }, Fragment { x: 30, y: 5 }];
    let both: Vec<Fragment> = left.iter().chain(right.iter()).copied().collect();
    let mut images = Vec::new();
    for fragments in [&left, &right, &both] {
        let mut resources = OutlineResources::new();
        assert_eq!(recreate_outline_resources(&mut resources, width, height), Ok(true));
        let mut target = ColorTarget::new(Dimensions::new(width, height), NIGHT).unwrap();
        assert_eq!(resources.render(fragments, &params, &mut target), Ok(()));
        images.push(target);
    }
    for y in 0..height {
        for x in 0..width {
            let alone = if x < 17 { &images[0] } else { &images[1] };
            assert_eq!(images[2].get(x, y), alone.get(x, y));
            if (9..=26).contains(&x) {
                assert_eq!(images[2].get(x, y), Some(Rgba8 { r: 10, g: 20, b: 30, a: 0 }));
            }
        }
    }
    assert_eq!(images[2].get(7, 4), Some(LILAC));
    assert_eq!(images[2].get(28, 5), Some(LILAC));
    assert_eq!(images[2].get(8, 4).unwrap().a, 127);
    assert_eq!(images[2].get(27, 4).unwrap().a, 127);
}

#[test]
fn a_frame_without_pixels_runs() {
    let mut resources = OutlineResources::new();
    assert_eq!(recreate_outline_resources(&mut resources, 0, 0), Ok(true));
    assert_eq!(recreate_outline_resources(&mut resources, 0, 7), Ok(true));
    let mut target = ColorTarget::new(Dimensions::new(0, 7), NIGHT).unwrap();
    let params = OutlineParams::new(LILAC, SUBPIXEL);
    let fragments = vec![Fragment { x: 0, y: 0 }];
    assert_eq!(resources.render(&fragments, &params, &mut target), Ok(()));
    assert_eq!(target.get(0, 0), None);
    assert!(!resources.mask_output().is_covered(0, 0));
    assert_eq!(outline(Dimensions::new(0, 7)).len(), 6);
}

#[test]
fn outlines_of_column_shapes_combine_by_the_larger_opacity() {
    let width = 48;
    let height = 6;
    let weight = 3 * SUBPIXEL;
    let params = OutlineParams::new(LILAC, weight);
    let columns = |chosen: &[u32]| -> Vec<Fragment> {
        chosen.iter().flat_map(|&x| column(x, height)).collect()
    };
    for (first, second) in [
        (vec![3u32, 4], vec![30u32]),
        (vec![10], vec![14, 15]),
        (vec![0, 47], vec![23]),
        (vec![5], vec![]),
        (vec![], vec![]),
    ] {
        let union: Vec<u32> = first.iter().chain(second.iter()).copied().collect();
        let mut opacities = Vec::new();
        let mut images = Vec::new();
        for chosen in [&first, &second, &union] {
            let mut resources = OutlineResources::new();
            assert_eq!(recreate_outline_resources(&mut resources, width, height), Ok(true));
            let mut target = ColorTarget::new(Dimensions::new(width, height), NIGHT).unwrap();
            assert_eq!(resources.render(&columns(chosen), &params, &mut target), Ok(()));
            let mut row = Vec::new();
            for y in 0..height {
                for x in 0..width {
                    let texel = resources.jfa_output().current_buffer().get(x, y);
                    let nearest = chosen.iter().map(|&c| c.abs_diff(x)).min();
                    match nearest {
                        Some(d) => {
                            match texel {
                                Texel::Seed { x: sx, y: sy } => {
                                    assert_eq!(sy, y);
                                    assert!(chosen.contains(&sx));
                                    assert_eq!(sx.abs_diff(x), d);
                                }
                                Texel::Sentinel => panic!("pixel ({x}, {y}) found no seed"),
                            }
                            assert_eq!(opacity(weight, x, y, texel), opacity_at(weight, 256 * d as u64));
                        }
                        None => assert_eq!(texel, Texel::Sentinel),
                    }
                    row.push(opacity(weight, x, y, texel));
                }
            }
            opacities.push(row);
            images.push(target);
        }
        for i in 0..opacities[2].len() {
            assert_eq!(opacities[2][i], opacities[0][i].max(opacities[1][i]));
        }
        let far_apart = first
            .iter()
            .all(|&a| second.iter().all(|&b| 256 * a.abs_diff(b) >= 2 * (weight + HALF_BAND)));
        if far_apart {
            for y in 0..height {
                for x in 0..width {
                    let i = (y * width + x) as usize;
                    if opacities[0][i] > 0 {
                        assert_eq!(opacities[1][i], 0);
                        assert_eq!(images[2].get(x, y), images[0].get(x, y));
                    }
                    if opacities[1][i] > 0 {
                        assert_eq!(opacities[0][i], 0);
                        assert_eq!(images[2].get(x, y), images[1].get(x, y));
                    }
                }
            }
        }
    }
}

#[test]
fn resources_start_at_one_pixel() {
    let resources = OutlineResources::new();
    assert_eq!(resources.dimensions(), Dimensions::new(1, 1));
    assert_eq!(resources.mask_output().dimensions(), Dimensions::new(1, 1));
    assert_eq!(resources.jfa_output().dimensions(), Dimensions::new(1, 1));
    assert!(!resources.mask_output().is_covered(0, 0));
}

#[test]
fn resize_replaces_every_buffer_together() {
    let mut resources = OutlineResources::new();
    assert_eq!(recreate_outline_resources(&mut resources, 1, 1), Ok(false));
    assert_eq!(recreate_outline_resources(&mut resources, 8, 4), Ok(true));
    let dims = Dimensions::new(8, 4);
    assert_eq!(resources.dimensions(), dims);
    assert_eq!(resources.mask_output().dimensions(), dims);
    assert_eq!(resources.jfa_output().dimensions(), dims);
    assert_eq!(resources.jfa_output().buffer(Slot::Primary).dimensions(), dims);
    assert_eq!(resources.jfa_output().buffer(Slot::Secondary).dimensions(), dims);
    let params = OutlineParams::new(LILAC, SUBPIXEL);
    let mut target = ColorTarget::new(dims, NIGHT).unwrap();
    assert_eq!(resources.render(&column(2, 4), &params, &mut target), Ok(()));
    assert_eq!(recreate_outline_resources(&mut resources, 8, 4), Ok(false));
    assert!(resources.mask_output().is_covered(2, 0));
    assert_eq!(recreate_outline_resources(&mut resources, 5, 7), Ok(true));
    let dims = Dimensions::new(5, 7);
    assert_eq!(resources.dimensions(), dims);
    assert_eq!(resources.mask_output().dimensions(), dims);
    assert_eq!(resources.jfa_output().dimensions(), dims);
    assert_eq!(resources.jfa_output().selected(), Slot::Primary);
    for y in 0..7 {
        for x in 0..5 {
            assert!(!resources.mask_output().is_covered(x, y));
            assert_eq!(resources.jfa_output().buffer(Slot::Primary).get(x, y), Texel::Sentinel);
            assert_eq!(resources.jfa_output().buffer(Slot::Secondary).get(x, y), Texel::Sentinel);
        }
    }
    assert_eq!(resources.render(&Vec::new(), &params, &mut target), Err(OutlineError::ResourceMismatch));
    let mut target = ColorTarget::new(dims, NIGHT).unwrap();
    assert_eq!(resources.render(&Vec::new(), &params, &mut target), Ok(()));
}

#[test]
fn resize_plan_keeps_rebuilds_or_refuses() {
    let current = Dimensions::new(800, 600);
    assert_eq!(plan_resize(current, 800, 600), ResizeAction::Keep);
    assert_eq!(plan_resize(current, 600, 800), ResizeAction::Rebuild(Dimensions::new(600, 800)));
    assert_eq!(plan_resize(current, 0, 0), ResizeAction::Rebuild(Dimensions::new(0, 0)));
    assert_eq!(plan_resize(current, 32768, 600), ResizeAction::Refuse);
    assert_eq!(plan_resize(current, 800, u32::MAX), ResizeAction::Refuse);
}

#[test]
fn resize_beyond_the_coordinate_range_changes_nothing() {
    let mut resources = OutlineResources::new();
    assert_eq!(recreate_outline_resources(&mut resources, 6, 6), Ok(true));
    assert_eq!(
        recreate_outline_resources(&mut resources, 40_000, 10),
        Err(OutlineError::ResolutionTooLarge)
    );
    assert_eq!(
        recreate_outline_resources(&mut resources, 10, MAX_EXTENT + 1),
        Err(OutlineError::ResolutionTooLarge)
    );
    assert_eq!(resources.dimensions(), Dimensions::new(6, 6));
    assert_eq!(resources.mask_output().dimensions(), Dimensions::new(6, 6));
    assert_eq!(resources.jfa_output().dimensions(), Dimensions::new(6, 6));
    assert_eq!(recreate_outline_resources(&mut resources, MAX_EXTENT, 1), Ok(true));
}

#[test]
fn frame_chain_is_ordered_and_ping_pongs() {
    let passes = outline(Dimensions::new(512, 300));
    assert_eq!(passes.len(), 12);
    assert_eq!(passes[0], Pass::Mask);
    assert_eq!(passes[1], Pass::SeedInit { write: Slot::Primary });
    assert_eq!(passes[2], Pass::JumpFlood { step: 256, read: Slot::Primary, write: Slot::Secondary });
    assert_eq!(passes[3], Pass::JumpFlood { step: 128, read: Slot::Secondary, write: Slot::Primary });
    assert_eq!(passes[10], Pass::JumpFlood { step: 1, read: Slot::Primary, write: Slot::Secondary });
    assert_eq!(passes[11], Pass::Composite { read: Slot::Secondary });
    let tiny = outline(Dimensions::new(4, 4));
    assert_eq!(
        tiny,
        vec![
            Pass::Mask,
            Pass::SeedInit { write: Slot::Primary },
            Pass::JumpFlood { step: 2, read: Slot::Primary, write: Slot::Secondary },
            Pass::JumpFlood { step: 1, read: Slot::Secondary, write: Slot::Primary },
            Pass::Composite { read: Slot::Primary },
        ]
    );
}

#[test]
fn frame_chain_never_reads_what_it_writes() {
    for extent in [0u32, 1, 2, 3, 7, 64, 65, 1000, 32767] {
        let passes = outline(Dimensions::new(extent, 5));
        let mut written = None;
        for pass in passes {
            match pass {
                Pass::Mask => assert_eq!(written, None),
                Pass::SeedInit { write } => written = Some(write),
                Pass::JumpFlood { read, write, .. } => {
                    assert_eq!(Some(read), written);
                    assert_ne!(read, write);
                    written = Some(write);
                }
                Pass::Composite { read } => assert_eq!(Some(read), written),
            }
        }
    }
}

#[test]
fn every_pass_reads_what_the_pass_before_wrote() {
    for (width, height) in [(1u32, 1u32), (4, 4), (640, 480), (1920, 1080), (32767, 3)] {
        let passes = outline(Dimensions::new(width, height));
        assert_eq!(passes[0].inputs(), vec![Resource::View]);
        assert_eq!(passes[0].output(), Resource::Coverage);
        assert_eq!(passes[1].inputs(), vec![Resource::Coverage]);
        assert_eq!(passes[1].output(), Resource::Seeds(Slot::Primary));
        for pair in passes.windows(2) {
            assert_eq!(pair[1].inputs()[0], pair[0].output());
        }
        let last = passes.last().unwrap();
        assert_eq!(last.inputs().len(), 3);
        assert_eq!(last.inputs()[1], Resource::View);
        assert_eq!(last.inputs()[2], Resource::Target);
        assert_eq!(last.output(), Resource::Target);
        for pass in &passes[..passes.len() - 1] {
            assert!(!pass.inputs().contains(&pass.output()));
        }
    }
}

#[test]
fn frame_runs_in_full_or_not_at_all() {
    let ready = Readiness { mask: true, seed_init: true, jump_flood: true, composite: true, target: true };
    assert_eq!(plan_frame(ready), FrameAction::Run);
    assert_eq!(plan_frame(Readiness { mask: false, ..ready }), FrameAction::Skip);
    assert_eq!(plan_frame(Readiness { seed_init: false, ..ready }), FrameAction::Skip);
    assert_eq!(plan_frame(Readiness { jump_flood: false, ..ready }), FrameAction::Skip);
    assert_eq!(plan_frame(Readiness { composite: false, ..ready }), FrameAction::Skip);
    assert_eq!(plan_frame(Readiness { target: false, ..ready }), FrameAction::Skip);
}

#[test]
fn colour_formats_give_a_key_and_depth_formats_do_not() {
    for format in [TextureFormat::Rgba8UnormSrgb, TextureFormat::Bgra8UnormSrgb, TextureFormat::Rgba16Float] {
        let key = OutlinePipelineKey::new(format).unwrap();
        assert_eq!(key.texture_format(), format);
        assert_eq!(OutlinePipelineKey::require(format), Ok(key));
    }
    for format in [TextureFormat::Depth32Float, TextureFormat::Depth24Plus, TextureFormat::Depth24PlusStencil8] {
        assert_eq!(OutlinePipelineKey::new(format), None);
        assert_eq!(OutlinePipelineKey::require(format), Err(OutlineError::UnusableTargetFormat));
    }
    assert_eq!(OutlinePipelineKey::new(TextureFormat::Rgb9e5Ufloat), None);
    assert_eq!(OutlinePipelineKey::new(TextureFormat::Bc1RgbaUnorm), None);
}

#[test]
fn formats_that_cannot_be_blended_give_no_key() {
    for format in [
        TextureFormat::Rgba8Uint,
        TextureFormat::Rgba8Sint,
        TextureFormat::Rgba32Uint,
        TextureFormat::R32Float,
        TextureFormat::Rgba32Float,
    ] {
        let info = format.describe();
        assert!(info
            .guaranteed_format_features
            .allowed_usages
            .contains(TextureUsages::RENDER_ATTACHMENT));
        assert_eq!(info.guaranteed_format_features.flags.bits() & BLENDABLE, 0);
        assert_eq!(OutlinePipelineKey::new(format), None);
        assert_eq!(OutlinePipelineKey::require(format), Err(OutlineError::UnusableTargetFormat));
    }
    for format in [TextureFormat::Rgba8Unorm, TextureFormat::R8Unorm, TextureFormat::Rgba16Float] {
        let info = format.describe();
        assert_eq!(info.guaranteed_format_features.flags.bits() & BLENDABLE, BLENDABLE);
        assert!(OutlinePipelineKey::new(format).is_some());
    }
    assert_eq!(OutlinePipelineKey::new(TextureFormat::Rg16Snorm), None);
}

#[test]
fn default_surface_format_gives_a_key() {
    let key = OutlinePipelineKey::for_default_target().unwrap();
    assert_eq!(Some(key), OutlinePipelineKey::new(key.texture_format()));
    assert_eq!(key.texture_format(), TextureFormat::Rgba8UnormSrgb);
    assert_eq!(key.texture_format(), TextureFormat::bevy_default());
}

#[test]
fn default_surface_format_has_the_stated_traits() {
    let info = TextureFormat::bevy_default().describe();
    assert_eq!(info.sample_type, TextureSampleType::Float { filterable: true });
    assert_eq!(info.guaranteed_format_features.allowed_usages.bits(), 23);
    let usages = TextureUsages::COPY_SRC
        | TextureUsages::COPY_DST
        | TextureUsages::TEXTURE_BINDING
        | TextureUsages::RENDER_ATTACHMENT;
    assert_eq!(usages.bits(), 23);
    assert_eq!(info.guaranteed_format_features.flags.bits(), 39);
    assert_eq!(1 | (1 << 1) | (1 << 2) | BLENDABLE, 39);
    let traits = FormatTraits {
        sample: SampleKind::Float { filterable: true },
        allowed_usages: 23,
        flags: 39,
    };
    let format = TextureFormat::bevy_default();
    assert_eq!(
        OutlinePipelineKey::for_traits(format, traits),
        OutlinePipelineKey::for_default_target().ok()
    );
}

#[test]
fn a_format_is_always_described_alike() {
    for format in [
        TextureFormat::R8Unorm,
        TextureFormat::Rg16Snorm,
        TextureFormat::Rgba8UnormSrgb,
        TextureFormat::Depth32Float,
        TextureFormat::Rgba32Uint,
        TextureFormat::Rgba8Uint,
        TextureFormat::R32Float,
    ] {
        let first = OutlinePipelineKey::new(format);
        let second = OutlinePipelineKey::new(format);
        assert_eq!(first, second);
        assert_eq!(first.is_some(), OutlinePipelineKey::require(format).is_ok());
        let info = format.describe();
        let usable = info.sample_type != TextureSampleType::Depth
            && info
                .guaranteed_format_features
                .allowed_usages
                .contains(TextureUsages::RENDER_ATTACHMENT)
            && info.guaranteed_format_features.flags.bits() & BLENDABLE == BLENDABLE;
        assert_eq!(first.is_some(), usable);
    }
}

#[test]
fn key_follows_the_traits_of_the_format() {
    let format = TextureFormat::Rgba8Unorm;
    let float = SampleKind::Float { filterable: true };
    assert_eq!(RENDER_ATTACHMENT, TextureUsages::RENDER_ATTACHMENT.bits());
    let all = TextureUsages::all().bits();
    assert_eq!(BLENDABLE, 1 << 5);
    let usable = FormatTraits { sample: float, allowed_usages: all, flags: u32::MAX };
    assert_eq!(OutlinePipelineKey::for_traits(format, usable).map(|k| k.texture_format()), Some(format));
    let exact = FormatTraits { sample: float, allowed_usages: RENDER_ATTACHMENT, flags: BLENDABLE };
    assert!(OutlinePipelineKey::for_traits(format, exact).is_some());
    let sealed = FormatTraits {
        sample: float,
        allowed_usages: all & !RENDER_ATTACHMENT,
        flags: BLENDABLE,
    };
    assert_eq!(OutlinePipelineKey::for_traits(format, sealed), None);
    let none = FormatTraits { sample: float, allowed_usages: 0, flags: BLENDABLE };
    assert_eq!(OutlinePipelineKey::for_traits(format, none), None);
    let opaque = FormatTraits { sample: float, allowed_usages: all, flags: u32::MAX & !BLENDABLE };
    assert_eq!(OutlinePipelineKey::for_traits(format, opaque), None);
    let plain = FormatTraits { sample: float, allowed_usages: all, flags: 0 };
    assert_eq!(OutlinePipelineKey::for_traits(format, plain), None);
    let depth = FormatTraits { sample: SampleKind::Depth, allowed_usages: all, flags: u32::MAX };
    assert_eq!(OutlinePipelineKey::for_traits(format, depth), None);
    for sample in [SampleKind::Sint, SampleKind::Uint, SampleKind::Float { filterable: false }] {
        let unblendable = FormatTraits { sample, allowed_usages: all, flags: 6 };
        assert_eq!(OutlinePipelineKey::for_traits(format, unblendable), None);
        let blendable = FormatTraits { sample, allowed_usages: all, flags: BLENDABLE };
        assert!(OutlinePipelineKey::for_traits(format, blendable).is_some());
    }
}

#[test]
fn errors_describe_themselves() {
    assert_eq!(OutlineError::UnusableTargetFormat.message(), "invalid format for the outline target");
    assert_eq!(OutlineError::ResourceMismatch.message(), "outline buffers disagree in size");
    assert_eq!(
        OutlineError::ResolutionTooLarge.message(),
        "resolution exceeds the seed buffer's coordinate range"
    );
}

#[test]
fn settings_default_to_full_resolution() {
    let mut settings = OutlineSettings::default();
    assert!(!settings.half_resolution());
    settings.set_half_resolution(true);
    assert!(settings.half_resolution());
    settings.set_half_resolution(false);
    assert!(!settings.half_resolution());
}
