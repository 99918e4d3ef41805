use pixstage::argb1555::argb1555_to_rgba8;
use pixstage::options::{preferred_format, supported_present_mode};
use pixstage::scaling::{Filter, Ratio};
use pixstage::render::{render_step, RenderAction, RenderEvent, RenderState};
use pixstage::{
    Error, PixstageArgb1555, PixstageIndexed, PixstageOptions, Rect, ScalingMode, SurfaceTexture,
};

fn rect(x: u32, y: u32, width: u32, height: u32) -> Rect {
    Rect { x, y, width, height }
}

fn surface(width: u32, height: u32) -> SurfaceTexture<()> {
    SurfaceTexture::new(width, height, ()).unwrap()
}

#[test]
fn surface_texture_refuses_a_zero_extent() {
    assert!(matches!(
        SurfaceTexture::new(0, 5, ()),
        Err(Error::InvalidSurfaceSize { width: 0, height: 5 })
    ));
    assert!(matches!(
        SurfaceTexture::new(5, 0, ()),
        Err(Error::InvalidSurfaceSize { width: 5, height: 0 })
    ));
    let texture = SurfaceTexture::new(640, 480, "window").unwrap();
    assert_eq!(texture.size(), (640, 480));
    assert_eq!(texture.into_window(), "window");
}

#[test]
fn a_stage_refuses_a_zero_extent() {
    let s = surface(100, 100);
    assert!(matches!(
        PixstageArgb1555::new(0, 4, &s),
        Err(Error::InvalidBufferSize { width: 0, height: 4 })
    ));
    assert!(matches!(
        PixstageIndexed::new(4, 0, &s),
        Err(Error::InvalidBufferSize { width: 4, height: 0 })
    ));
    let mut stage = PixstageArgb1555::new(4, 4, &s).unwrap();
    stage.render().unwrap();
    assert!(matches!(
        stage.resize_buffer(0, 9),
        Err(Error::InvalidBufferSize { width: 0, height: 9 })
    ));
    assert_eq!(stage.buffer_size(), (4, 4));
    assert_eq!(stage.frame().len(), 16);
    assert!(stage.render().unwrap().regions.is_empty());
}

#[test]
fn a_fresh_stage_is_zero_and_fully_dirty() {
    let mut stage = PixstageArgb1555::new(40, 30, &surface(80, 60)).unwrap();
    assert_eq!(stage.buffer_size(), (40, 30));
    assert_eq!(stage.surface_size(), (80, 60));
    assert!(stage.frame().iter().all(|&p| p == 0));
    assert_eq!(stage.frame().len(), 1200);
    let frame = stage.render().unwrap();
    assert_eq!(frame.regions, vec![rect(0, 0, 40, 30)]);
    assert_eq!(frame.clip_rect, rect(0, 0, 80, 60));
    assert!(stage.render().unwrap().regions.is_empty());
}

#[test]
fn set_pixel_writes_and_marks() {
    let mut stage = PixstageArgb1555::new(100, 100, &surface(100, 100)).unwrap();
    stage.render().unwrap();
    stage.set_pixel(40, 70, 0x7fff);
    stage.set_pixel(100, 0, 1);
    stage.set_pixel(0, 100, 1);
    assert_eq!(stage.frame()[70 * 100 + 40], 0x7fff);
    assert_eq!(stage.frame().iter().filter(|&&p| p != 0).count(), 1);
    assert_eq!(stage.render().unwrap().regions, vec![rect(32, 64, 32, 32)]);
}

#[test]
fn frame_mut_and_clear_mark_everything() {
    let mut stage = PixstageArgb1555::new(64, 64, &surface(64, 64)).unwrap();
    stage.render().unwrap();
    stage.frame_mut()[5] = 9;
    assert_eq!(stage.frame()[5], 9);
    assert_eq!(stage.render().unwrap().regions, vec![rect(0, 0, 64, 64)]);
    stage.clear(0x1234);
    assert!(stage.frame().iter().all(|&p| p == 0x1234));
    assert_eq!(stage.render().unwrap().regions, vec![rect(0, 0, 64, 64)]);
}

#[test]
fn mark_dirty_is_precise() {
    let mut stage = PixstageArgb1555::new(128, 128, &surface(128, 128)).unwrap();
    stage.render().unwrap();
    stage.mark_dirty(rect(33, 33, 2, 40));
    assert_eq!(stage.render().unwrap().regions, vec![rect(32, 32, 32, 64)]);
}

#[test]
fn resize_buffer_forces_a_full_upload() {
    let mut stage = PixstageArgb1555::new(10, 10, &surface(100, 100)).unwrap();
    stage.render().unwrap();
    stage.set_pixel(3, 3, 77);
    assert!(stage.resize_buffer(20, 5).is_ok());
    assert_eq!(stage.buffer_size(), (20, 5));
    assert_eq!(stage.frame().len(), 100);
    assert!(stage.frame().iter().all(|&p| p == 0));
    let frame = stage.render().unwrap();
    assert_eq!(frame.regions, vec![rect(0, 0, 20, 5)]);
    assert_eq!(frame.clip_rect, rect(0, 37, 100, 25));
    assert!(stage.render().unwrap().regions.is_empty());

    let mut indexed = PixstageIndexed::new(10, 10, &surface(100, 100)).unwrap();
    indexed.render().unwrap();
    assert!(indexed.resize_buffer(7, 9).is_ok());
    assert_eq!(indexed.render().unwrap().regions, vec![rect(0, 0, 7, 9)]);
}

#[test]
fn a_frame_has_at_most_sixty_four_regions() {
    let mut stage = PixstageArgb1555::new(512, 512, &surface(512, 512)).unwrap();
    stage.render().unwrap();
    for ty in 0..16u32 {
        for tx in 0..16u32 {
            if (tx + ty) % 2 == 0 {
                stage.set_pixel(tx * 32, ty * 32, 1);
            }
        }
    }
    assert_eq!(stage.render().unwrap().regions, vec![rect(0, 0, 512, 512)]);
    for tx in 0..16u32 {
        stage.set_pixel(tx * 32, (tx % 2) * 32, 1);
    }
    assert_eq!(stage.render().unwrap().regions.len(), 16);
}

#[test]
fn scaling_follows_surface_and_mode() {
    let mut stage = PixstageArgb1555::new(256, 240, &surface(768, 720)).unwrap();
    assert_eq!(stage.scaling_state().clip_rect, rect(0, 0, 768, 720));
    assert_eq!(stage.window_pos_to_pixel((384, 360)), Ok((128, 120)));
    stage.resize_surface(1000, 500);
    assert_eq!(stage.surface_size(), (1000, 500));
    assert_eq!(stage.scaling_state().clip_rect, rect(244, 10, 512, 480));
    stage.set_scaling_mode(ScalingMode::Fill);
    assert_eq!(stage.scaling_state().clip_rect, rect(233, 0, 533, 500));
    stage.resize_surface(0, 500);
    stage.resize_surface(500, 0);
    assert_eq!(stage.surface_size(), (1000, 500));
    assert_eq!(stage.window_pos_to_pixel((232, 0)), Err((232, 0)));
    assert_eq!(stage.window_pos_to_pixel((233, 0)), Ok((0, 0)));
}

#[test]
fn each_mode_has_its_filter() {
    assert_eq!(ScalingMode::PixelPerfect.filter(), Filter::Nearest);
    assert_eq!(ScalingMode::Fill.filter(), Filter::Linear);
    let mut stage = PixstageArgb1555::new(8, 8, &surface(8, 8)).unwrap();
    assert_eq!(stage.scaling_mode(), ScalingMode::PixelPerfect);
    stage.set_scaling_mode(ScalingMode::Fill);
    assert_eq!(stage.scaling_mode(), ScalingMode::Fill);
}

#[test]
fn the_clear_colour_is_kept() {
    let options = PixstageOptions::default().with_clear_color(wgpu::Color::GREEN);
    let mut stage = PixstageArgb1555::new_with_options(8, 8, &surface(8, 8), options).unwrap();
    assert_eq!(stage.current_clear_color(), wgpu::Color::GREEN);
    stage.clear_color(wgpu::Color::WHITE);
    assert_eq!(stage.current_clear_color(), wgpu::Color::WHITE);
    let mut indexed = PixstageIndexed::new(8, 8, &surface(8, 8)).unwrap();
    assert_eq!(indexed.current_clear_color(), wgpu::Color::BLACK);
    indexed.clear_color(wgpu::Color::BLUE);
    assert_eq!(indexed.current_clear_color(), wgpu::Color::BLUE);
}

#[test]
fn the_first_srgb_format_is_preferred() {
    assert_eq!(preferred_format(&vec![false, false, true, true]), 2);
    assert_eq!(preferred_format(&vec![true]), 0);
    assert_eq!(preferred_format(&vec![false, false]), 0);
    assert_eq!(preferred_format(&vec![false, true]), 1);
}

#[test]
fn options_choose_the_scaling_mode() {
    let options = PixstageOptions::default();
    assert_eq!(options.scaling_mode, ScalingMode::PixelPerfect);
    assert_eq!(options.present_mode, wgpu::PresentMode::AutoVsync);
    assert_eq!(options.clear_color, wgpu::Color::BLACK);
    let options = options
        .with_scaling_mode(ScalingMode::Fill)
        .with_present_mode(wgpu::PresentMode::Fifo)
        .with_backends(wgpu::Backends::GL)
        .with_clear_color(wgpu::Color::RED);
    assert_eq!(options.scaling_mode, ScalingMode::Fill);
    assert_eq!(options.present_mode, wgpu::PresentMode::Fifo);
    assert_eq!(options.backends, wgpu::Backends::GL);
    assert_eq!(options.clear_color, wgpu::Color::RED);
    let stage = PixstageArgb1555::new_with_options(256, 240, &surface(1000, 500), options).unwrap();
    assert_eq!(stage.scaling_state().clip_rect, rect(233, 0, 533, 500));
    let indexed = PixstageIndexed::new_with_options(256, 240, &surface(1000, 500), options).unwrap();
    assert_eq!(indexed.scaling_state().clip_rect, rect(233, 0, 533, 500));
}

#[test]
fn an_unsupported_present_mode_falls_back() {
    let supported = vec![wgpu::PresentMode::Fifo, wgpu::PresentMode::Mailbox];
    assert_eq!(
        supported_present_mode(
            wgpu::PresentMode::Mailbox,
            &supported,
            wgpu::PresentMode::AutoVsync
        ),
        wgpu::PresentMode::Mailbox
    );
    assert_eq!(
        supported_present_mode(
            wgpu::PresentMode::Immediate,
            &supported,
            wgpu::PresentMode::AutoVsync
        ),
        wgpu::PresentMode::AutoVsync
    );
    assert_eq!(
        supported_present_mode(wgpu::PresentMode::Fifo, &Vec::new(), wgpu::PresentMode::Fifo),
        wgpu::PresentMode::Fifo
    );
}

#[test]
fn argb1555_widens_each_channel() {
    assert_eq!(argb1555_to_rgba8(0x0000), [0, 0, 0, 0]);
    assert_eq!(argb1555_to_rgba8(0xffff), [255, 255, 255, 255]);
    assert_eq!(argb1555_to_rgba8(0x8000), [0, 0, 0, 255]);
    assert_eq!(argb1555_to_rgba8(0x7c00), [255, 0, 0, 0]);
    assert_eq!(argb1555_to_rgba8(0x03e0), [0, 255, 0, 0]);
    assert_eq!(argb1555_to_rgba8(0x001f), [0, 0, 255, 0]);
    assert_eq!(argb1555_to_rgba8(0x0010), [0, 0, 132, 0]);
    assert_eq!(argb1555_to_rgba8(0x8421), [8, 8, 8, 255]);
}

#[test]
fn a_region_is_staged_row_by_row() {
    let mut stage = PixstageArgb1555::new(4, 3, &surface(4, 3)).unwrap();
    stage.set_pixel(1, 0, 0xffff);
    stage.set_pixel(2, 1, 0x7c00);
    stage.set_pixel(3, 2, 0x801f);
    assert_eq!(
        stage.stage_region(rect(1, 0, 2, 2)),
        &[255, 255, 255, 255, 0, 0, 0, 0, 0, 0, 0, 0, 255, 0, 0, 0][..]
    );
    let whole = stage.stage_region(rect(0, 0, 4, 3)).to_vec();
    assert_eq!(whole.len(), 48);
    assert_eq!(&whole[4..8], &[255, 255, 255, 255]);
    assert_eq!(&whole[24..28], &[255, 0, 0, 0]);
    assert_eq!(&whole[44..48], &[0, 0, 255, 255]);
    assert_eq!(whole.iter().filter(|&&b| b != 0).count(), 4 + 1 + 2);
    assert_eq!(stage.stage_region(rect(3, 2, 1, 1)), &[0, 0, 255, 255][..]);
}

#[test]
fn indexed_regions_are_the_indices() {
    let mut stage = PixstageIndexed::new(4, 3, &surface(4, 3)).unwrap();
    for y in 0..3u32 {
        for x in 0..4u32 {
            stage.set_index(x, y, (10 * y + x) as u8);
        }
    }
    stage.set_index(4, 0, 99);
    stage.set_index(0, 3, 99);
    assert_eq!(
        stage.frame(),
        &[0, 1, 2, 3, 10, 11, 12, 13, 20, 21, 22, 23][..]
    );
    assert_eq!(stage.stage_region(rect(1, 1, 2, 2)), &[11, 12, 21, 22][..]);
    assert_eq!(stage.stage_region(rect(3, 0, 1, 3)), &[3, 13, 23][..]);
    assert_eq!(
        stage.stage_region(rect(0, 0, 4, 3)),
        &[0, 1, 2, 3, 10, 11, 12, 13, 20, 21, 22, 23][..]
    );
    stage.frame_mut()[0] = 200;
    assert_eq!(stage.stage_region(rect(0, 0, 1, 1)), &[200][..]);
    assert_eq!(stage.render().unwrap().regions, vec![rect(0, 0, 4, 3)]);
    stage.mark_dirty(rect(0, 0, 1, 1));
    stage.set_index(3, 2, 5);
    assert_eq!(stage.render().unwrap().regions, vec![rect(0, 0, 4, 3)]);
    assert!(stage.render().unwrap().regions.is_empty());
}

#[test]
fn the_palette_is_uploaded_when_it_changed() {
    let mut stage = PixstageIndexed::new(8, 8, &surface(8, 8)).unwrap();
    assert_eq!(stage.palette()[0], [0, 0, 0, 255]);
    assert_eq!(stage.palette()[255], [0, 0, 0, 255]);
    {
        let bytes = stage.take_palette_upload().unwrap();
        assert_eq!(bytes.len(), 1024);
        assert!(bytes.chunks(4).all(|c| c == [0, 0, 0, 255]));
    }
    assert!(stage.take_palette_upload().is_none());

    stage.set_palette_entry(2, [10, 20, 30, 40]);
    stage.set_palette_entry(255, [1, 2, 3, 4]);
    {
        let bytes = stage.take_palette_upload().unwrap().to_vec();
        assert_eq!(&bytes[8..12], &[10, 20, 30, 40]);
        assert_eq!(&bytes[1020..1024], &[1, 2, 3, 4]);
        assert_eq!(&bytes[0..4], &[0, 0, 0, 255]);
    }
    assert!(stage.take_palette_upload().is_none());

    stage.palette_mut()[7] = [9, 8, 7, 6];
    assert_eq!(stage.palette()[7], [9, 8, 7, 6]);
    let bytes = stage.take_palette_upload().unwrap().to_vec();
    assert_eq!(&bytes[28..32], &[9, 8, 7, 6]);
    // the palette's dirt is apart from the pixels'
    assert_eq!(stage.render().unwrap().regions, vec![rect(0, 0, 8, 8)]);
    stage.set_palette_entry(0, [5, 5, 5, 5]);
    assert!(stage.render().unwrap().regions.is_empty());
    assert!(stage.take_palette_upload().is_some());
}

#[test]
fn indexed_scaling_follows_surface_and_mode() {
    let mut stage = PixstageIndexed::new(256, 240, &surface(768, 720)).unwrap();
    assert_eq!(stage.buffer_size(), (256, 240));
    assert_eq!(stage.scaling_state().clip_rect, rect(0, 0, 768, 720));
    stage.resize_surface(1000, 500);
    stage.set_scaling_mode(ScalingMode::Fill);
    assert_eq!(stage.surface_size(), (1000, 500));
    assert_eq!(stage.scaling_state().clip_rect, rect(233, 0, 533, 500));
    assert_eq!(stage.render().unwrap().clip_rect, rect(233, 0, 533, 500));
}

#[test]
fn a_render_retries_the_frame_once() {
    let (state, action) = render_step(
        RenderState::Idle,
        RenderEvent::Requested { surface_width: 0, surface_height: 10 },
    );
    assert!(matches!(state, RenderState::Idle));
    assert!(matches!(action, RenderAction::Nothing));

    let (state, action) = render_step(
        RenderState::Idle,
        RenderEvent::Requested { surface_width: 10, surface_height: 10 },
    );
    assert!(matches!(state, RenderState::Acquiring { retried: false }));
    assert!(matches!(action, RenderAction::AcquireFrame));

    let (state, action) = render_step(state, RenderEvent::AcquireFailed(wgpu::SurfaceError::Lost));
    assert!(matches!(state, RenderState::Acquiring { retried: true }));
    assert!(matches!(action, RenderAction::ConfigureAndAcquireFrame));

    let (state, action) =
        render_step(state, RenderEvent::AcquireFailed(wgpu::SurfaceError::Timeout));
    assert!(matches!(state, RenderState::Idle));
    assert!(matches!(
        action,
        RenderAction::Fail(Error::Surface(wgpu::SurfaceError::Timeout))
    ));
}

#[test]
fn a_render_draws_and_presents() {
    let (state, _) = render_step(
        RenderState::Idle,
        RenderEvent::Requested { surface_width: 1, surface_height: 1 },
    );
    let (state, action) = render_step(state, RenderEvent::FrameAcquired);
    assert!(matches!(state, RenderState::Drawing));
    assert!(matches!(action, RenderAction::UploadAndDraw));
    let (state, action) = render_step(state, RenderEvent::FrameAcquired);
    assert!(matches!(state, RenderState::Drawing));
    assert!(matches!(action, RenderAction::Nothing));
    let (state, action) = render_step(state, RenderEvent::Presented);
    assert!(matches!(state, RenderState::Idle));
    assert!(matches!(action, RenderAction::Nothing));
    let (state, action) = render_step(
        RenderState::Acquiring { retried: true },
        RenderEvent::FrameAcquired,
    );
    assert!(matches!(state, RenderState::Drawing));
    assert!(matches!(action, RenderAction::UploadAndDraw));
}

#[test]
fn a_cropping_surface_gets_the_whole_quad() {
    let stage = PixstageArgb1555::new(256, 240, &surface(128, 120)).unwrap();
    let state = stage.scaling_state();
    assert_eq!(state.clip_rect, rect(0, 0, 128, 120));
    assert_eq!(state.ndc_scale_x, Ratio { num: 128, den: 128 });
    assert_eq!(
        stage.uncropped_scale(),
        (Ratio { num: 256, den: 128 }, Ratio { num: 240, den: 120 })
    );
    let indexed = PixstageIndexed::new(256, 240, &surface(512, 480)).unwrap();
    assert_eq!(
        indexed.uncropped_scale(),
        (Ratio { num: 512, den: 512 }, Ratio { num: 480, den: 480 })
    );
    assert_eq!(indexed.scaling_state().ndc_scale_y, Ratio { num: 480, den: 480 });
}
