//! The application around the library: its state, its panels and its view.

use std::sync::Arc;

use relief_core::depth::{BitDepth, DepthMap};
use relief_core::error::Error;
use relief_core::export::Format;
use relief_core::number::{Double, Op, Real};
use relief_core::panel::{self, Accent, Control, Field, Item, Remark, Section, Value};
use relief_core::params::{Orientation, Params, Units};
use relief_core::platform::{Inbox, Opened, PickKind, Saved};
use relief_core::progress::Fraction;
use relief_core::rebuild::{self, Drive, Job};
use relief_core::sample;
use relief_core::state::{self, AppState, Photo, Status, Tone};
use relief_core::text::{self, thousands};
use relief_core::view::{self, Material, Shot, ShotStep};

fn arith(op: Op, a: Real, b: Real) -> Real {
    let (x, y) = (f32::from_bits(a.bits), f32::from_bits(b.bits));
    let r = match op {
        Op::Plus => x + y,
        Op::Minus => x - y,
        Op::Times => x * y,
        Op::Over => x / y,
        Op::Root => x.sqrt(),
        Op::Exp => x.exp(),
        Op::Round => x.round(),
        Op::Floor => x.floor(),
    };
    num(r)
}

fn num(x: f32) -> Real {
    Real { bits: x.to_bits() }
}

fn float(r: Real) -> f32 {
    f32::from_bits(r.bits)
}

fn total(sum: Double, t: Real) -> Double {
    let r = f64::from_bits(sum.bits) + f32::from_bits(t.bits) as f64 / 6.0;
    Double { bits: r.to_bits() }
}

fn narrow(d: Double) -> Real {
    num(f64::from_bits(d.bits) as f32)
}

fn fixed(x: Real, places: usize) -> String {
    format!("{:.*}", places, f32::from_bits(x.bits))
}

fn plain(x: Real) -> String {
    format!("{}", f32::from_bits(x.bits))
}

fn cubic(d: Double) -> String {
    format!("{:.1}", f64::from_bits(d.bits) / 1000.0)
}

/// The text is `key=value`, with one key.
fn parse(bytes: Vec<u8>) -> Result<Params, String> {
    let text = String::from_utf8(bytes).map_err(|e| format!("{e}"))?;
    match text.split_once('=') {
        Some(("far", v)) => {
            let far: f32 = v.parse().map_err(|_| "no number".to_string())?;
            Ok(Params { near: num(0.5), far: num(far), ..Params::default() })
        }
        _ => Err("no far plane".to_string()),
    }
}

/// A small state, so that builds are quick.
fn small() -> AppState {
    let mut state = AppState::new(&arith);
    let png = sample::to_png(&sample::depth_map(64, 48, &arith), &arith).unwrap();
    deliver(&mut state, PickKind::Depth, "rock_depth_16bit.png", png);
    state
}

fn deliver(state: &mut AppState, kind: PickKind, name: &str, bytes: Vec<u8>) {
    state.inbox.put(Ok(Opened::File { kind, name: name.to_string(), bytes }));
    state::apply_opened(state, 7, &parse, &arith, &plain);
}

fn picture(w: u32, h: u32) -> Vec<u8> {
    let mut bytes = Vec::new();
    image::DynamicImage::ImageRgb8(image::RgbImage::from_pixel(w, h, image::Rgb([1, 2, 3])))
        .write_to(&mut std::io::Cursor::new(&mut bytes), image::ImageFormat::Png)
        .unwrap();
    bytes
}

fn build(state: &mut AppState) {
    let result = Job::new(state).run(&arith, &total, &narrow, &plain);
    rebuild::finish(state, result, &fixed);
}

#[test]
fn grouping_digits() {
    assert_eq!(thousands(0), "0");
    assert_eq!(thousands(999), "999");
    assert_eq!(thousands(1_000), "1,000");
    assert_eq!(thousands(25_151_490), "25,151,490");
}

#[test]
fn names_are_taken_apart() {
    assert_eq!(text::number_text(0), "0");
    assert_eq!(text::number_text(1_000_307), "1000307");
    assert_eq!(text::stem_of("a.b.png"), "a.b");
    assert_eq!(text::stem_of("plain"), "plain");
    assert_eq!(text::trim_end("x_depth_depth", "_depth"), "x");
    assert!(text::ends_with("photo.jpeg", ".jpeg"));
    assert!(!text::ends_with("g", "jpeg"));
}

#[test]
fn an_inbox_holds_one_delivery() {
    let mut inbox = Inbox::new();
    assert_eq!(inbox.take(), None);
    inbox.put(Ok(Opened::Cancelled));
    inbox.put(Err("gone".to_string()));
    assert_eq!(inbox.take(), Some(Err("gone".to_string())));
    assert_eq!(inbox.take(), None);
}

#[test]
fn pickers_offer_what_they_can_take() {
    assert_eq!(PickKind::Depth.filter(), ("Depth map", vec!["png", "jpg", "jpeg"]));
    assert_eq!(PickKind::Photo.filter(), ("Image", vec!["png", "jpg", "jpeg"]));
    assert_eq!(PickKind::Settings.filter(), ("Settings", vec!["json"]));
}

#[test]
fn a_first_run_shows_the_sample() {
    let state = AppState::new(&arith);
    assert_eq!(state.depth.name, "sample_terrain_16bit.png");
    assert_eq!((state.depth.map.width, state.depth.map.height), (1536, 1152));
    assert_eq!(state.params, Params::default());
    assert_eq!(state.dirty_since, Some(0));
    assert_eq!(state.suggested_name(), "sample_terrain.stl");
    assert_eq!(panel::sample_marks(&state), (true, false));
    assert_eq!(rebuild::preview_note(&state), "building…");
    assert!(state.stats().is_none());
}

#[test]
fn an_opened_map_replaces_the_old_one() {
    let state = small();
    assert_eq!(state.status.text, "rock_depth_16bit.png — 64×48 16-bit");
    assert_eq!(state.status.tone, Tone::Info);
    assert_eq!(state.suggested_name(), "rock.stl");
    assert_eq!(state.dirty_since, Some(7));
    assert_eq!(state.save_since, Some(7));
    assert_eq!(panel::depth_caption(&state.depth.map), "64×48 · 65,536 levels");
}

#[test]
fn a_map_that_cannot_be_read_changes_nothing_but_the_status() {
    let mut state = small();
    deliver(&mut state, PickKind::Depth, "bad.png", b"nothing".to_vec());
    assert_eq!(state.status.tone, Tone::Error);
    assert!(state.status.text.starts_with("bad.png: that file is not an image this app can read: "));
    assert_eq!(state.depth.name, "rock_depth_16bit.png");
    deliver(&mut state, PickKind::Depth, "thin.png", picture(9, 1));
    assert_eq!(state.status.text, "thin.png: the depth map is 9×1; it must be at least 2×2");
}

#[test]
fn a_photo_has_to_fit() {
    let mut state = small();
    deliver(&mut state, PickKind::Photo, "square.png", picture(8, 8));
    assert_eq!(
        state.status.text,
        "the photo is 8×8 but the depth map is 64×48; their shapes differ too much to line up"
    );
    assert!(state.photo.is_none());
    deliver(&mut state, PickKind::Photo, "fits.png", picture(8, 6));
    assert_eq!(state.status.text, "fits.png — 8×6, colouring the relief");
    assert!(state.photo_dirty);
    assert_eq!(panel::photo_caption(&state), "8×6 · baked as vertex colours");

    // A map of another shape drops it.
    deliver(&mut state, PickKind::Depth, "wide.png", picture(40, 10));
    assert!(state.photo.is_none());
    assert_eq!(state.status.tone, Tone::Warn);
    assert_eq!(
        state.status.text,
        "wide.png — 40×10 8-bit, colour converted to luma — a depth map should be grayscale; \
         the loaded photo no longer matches and was dropped"
    );
    assert_eq!(panel::photo_caption(&state), "No photo. The relief is plaster white.");

    deliver(&mut state, PickKind::Photo, "junk", b"junk".to_vec());
    assert!(state.status.text.starts_with("junk: "));
    assert!(!state.status.text.contains("that file is not"));
}

#[test]
fn settings_are_read_and_checked() {
    let mut state = small();
    deliver(&mut state, PickKind::Settings, "s.json", b"far=0.75".to_vec());
    assert_eq!(float(state.params.far), 0.75);
    assert_eq!(state.status.text, "Loaded settings from s.json");
    deliver(&mut state, PickKind::Settings, "t.json", b"far=0.25".to_vec());
    assert_eq!(float(state.params.far), 0.75);
    assert_eq!(
        state.status.text,
        "the near plane (0.5) must be below the far plane (0.25) — nothing is left between them"
    );
    deliver(&mut state, PickKind::Settings, "u.json", b"x".to_vec());
    assert_eq!(state.status.text, "u.json is not settings JSON: no far plane");
    state.inbox.put(Err("reading v: no".to_string()));
    state::apply_opened(&mut state, 9, &parse, &arith, &plain);
    assert_eq!(state.status.text, "reading v: no");
    state.inbox.put(Ok(Opened::Cancelled));
    state::apply_opened(&mut state, 9, &parse, &arith, &plain);
    assert_eq!(state.status.text, "reading v: no");
}

#[test]
fn remembered_settings_come_back() {
    let mut state = small();
    state.restore(
        Params { size_px: 9999, ..Params::default() },
        Some("/home/settings.json".to_string()),
    );
    assert_eq!(state.params.size_px, 4096);
    assert_eq!(state.status.text, "Restored your last settings from /home/settings.json");
    state.restore(Params { far: num(0.0), ..Params::default() }, None);
    assert_eq!(state.params.size_px, 4096);
    state.restore(Params::default(), None);
    assert_eq!(state.status.text, "Restored your last settings");
    assert_eq!(state.params, Params::default());
    assert_eq!(panel::remembered_note("here"), "Settings are remembered in here");
}

#[test]
fn edits_settle_before_a_rebuild() {
    let mut state = small();
    assert!(!state::ready_to_rebuild(&state, 7));
    assert_eq!(rebuild::drive(&mut state, false, 120_000_006), Drive::Wait);
    assert_eq!(rebuild::drive(&mut state, true, 120_000_007), Drive::Wait);
    assert_eq!(rebuild::drive(&mut state, false, 120_000_007), Drive::Start);
    assert_eq!(state.dirty_since, None);
    build(&mut state);
    assert_eq!(state.generation, 1);
    assert_eq!(state.applied, Some(state.preview_params()));
    // Nothing has changed since.
    state.watch_params(1);
    assert_eq!(state.dirty_since, None);
    state.params.invert = true;
    state.watch_params(500);
    assert_eq!(state.dirty_since, Some(500));
    state.watch_params(600);
    assert_eq!(state.dirty_since, Some(500));
}

#[test]
fn settings_are_written_once_they_are_still() {
    let mut state = small();
    state.touch(10);
    assert!(!state.autosave(1_500_000_009));
    assert!(state.autosave_on_exit(true));
    assert!(state.autosave(1_500_000_010));
    assert_eq!(state.save_since, None);
    assert!(!state.autosave(u64::MAX));
    assert!(!state.autosave_on_exit(true));
    assert!(!state.autosave_on_exit(false));
}

#[test]
fn the_preview_is_capped() {
    let mut state = small();
    state.params.size_px = 2048;
    assert_eq!(state.preview_params().size_px, 512);
    build(&mut state);
    assert_eq!(state.stats().unwrap().grid, (512, 384));
    assert_eq!(rebuild::preview_note(&state), "preview 512×384 in 1 chunk, export is finer");
    assert_eq!(rebuild::export_max_px(false), 4096);
    assert_eq!(rebuild::export_max_px(true), 2048);
}

#[test]
fn a_build_that_fails_says_why() {
    let mut state = small();
    state.params.near = num(0.9);
    state.params.far = num(0.1);
    build(&mut state);
    assert!(state.built.is_none());
    assert_eq!(state.status.tone, Tone::Error);
    assert!(state.status.text.starts_with("the near plane (0.9)"));
    assert!(rebuild::plan_export(&mut state, &arith, &total, &narrow, &plain).is_none());
}

#[test]
fn coarse_steps_are_warned_of() {
    let mut state = small();
    rebuild::load_sample(&mut state, true, 3, &arith);
    assert_eq!(state.depth.map.bits, BitDepth::Eight);
    assert_eq!(panel::sample_marks(&state), (false, true));
    assert!(state.status.text.starts_with("Synthetic 8-bit sample"));
    state.params.size_px = 256;
    state.params.emboss_mm = num(60.0);
    build(&mut state);
    assert_eq!(state.status.tone, Tone::Warn);
    assert_eq!(state.status.text, state.stats().unwrap().step_line(&fixed));
}

#[test]
fn an_export_is_planned_and_reported() {
    let mut state = small();
    deliver(&mut state, PickKind::Photo, "fits.png", picture(8, 6));
    let stl = rebuild::plan_export(&mut state, &arith, &total, &narrow, &plain).unwrap();
    assert!(stl.albedo.is_none());
    state.format = Format::Ply;
    let ply = rebuild::plan_export(&mut state, &arith, &total, &narrow, &plain).unwrap();
    assert_eq!(ply.albedo.as_ref().unwrap().rgb[0], [1, 2, 3]);
    let (mut out, mut marks) = (Vec::new(), Vec::new());
    ply.write(&mut out, &mut marks, &arith, &fixed);
    assert_eq!(out.len() as u64, ply.stats.file_bytes);
    assert_eq!(ply.solid(&arith).triangle_count(), ply.stats.triangles);

    let said = format!(" — {} triangles, {}", ply.stats.triangles, ply.stats.file_line());
    rebuild::export_done(&mut state, "rock.ply", &ply, Ok(Saved::To("/x/rock.ply".to_string())));
    assert_eq!(state.status.text, format!("Wrote /x/rock.ply{said}"));
    rebuild::export_done(&mut state, "rock.ply", &ply, Ok(Saved::Downloaded));
    assert_eq!(state.status.text, format!("Downloaded rock.ply{said}"));
    rebuild::export_done(&mut state, "rock.ply", &ply, Ok(Saved::Cancelled));
    assert_eq!(state.status.text, "Export cancelled");
    rebuild::export_done(&mut state, "rock.ply", &ply, Err("disk full".to_string()));
    assert_eq!(state.status.tone, Tone::Error);
}

#[test]
fn a_photo_is_lost_on_an_stl() {
    let mut state = small();
    deliver(&mut state, PickKind::Photo, "fits.png", picture(8, 6));
    assert_eq!(panel::colour_warning(&state), None);
    build(&mut state);
    assert!(panel::colour_warning(&state).unwrap().contains("export PLY"));
    state.format = Format::Obj;
    assert_eq!(panel::colour_warning(&state), None);
    state.remove_photo();
    assert!(state.photo.is_none() && state.photo_dirty);
}

#[test]
fn a_changed_photo_goes_on_screen_once() {
    let mut state = small();
    assert!(rebuild::sync_photo_texture(&mut state, &plain).is_none());
    deliver(&mut state, PickKind::Photo, "sky.png", picture(8, 6));
    let texture = rebuild::sync_photo_texture(&mut state, &plain).unwrap();
    assert_eq!((texture.width, texture.height), (8, 6));
    let decoded = image::load_from_memory(&picture(8, 6)).unwrap();
    assert_eq!(texture.rgba, decoded.to_rgba8().into_raw());
    assert!(state.photo_shown && !state.photo_dirty);
    assert!(rebuild::sync_photo_texture(&mut state, &plain).is_none());

    let old = state.photo.take().unwrap();
    state.photo = Some(Photo { bytes: Arc::new(b"junk".to_vec()), ..old });
    state.photo_dirty = true;
    assert!(rebuild::sync_photo_texture(&mut state, &plain).is_none());
    assert!(state.photo_shown && !state.photo_dirty);
    assert_eq!(state.status.tone, Tone::Error);
    assert!(state.status.text.starts_with("sky.png: "));

    state.remove_photo();
    assert!(rebuild::sync_photo_texture(&mut state, &plain).is_none());
    assert!(!state.photo_shown && !state.photo_dirty);
}

#[test]
fn the_panel_lists_every_setting_once() {
    let items = panel::settings();
    assert_eq!(items[0], Item::Heading(Section::DepthRange));
    let settings = items.iter().filter(|i| matches!(i, Item::Setting(_))).count();
    assert_eq!(settings, 16);
    assert_eq!(Section::SizeAndDetail.label(), "Size and detail");
}

#[test]
fn rows_know_their_bounds() {
    let p = Params::default();
    let row = panel::row(Field::SizePx, &p, BitDepth::Sixteen, 2048);
    assert_eq!(row.label, "Mesh resolution");
    assert_eq!(row.control, Control::Whole { from: 256, to: 2048, step: 256, suffix: " px" });
    assert!(row.enabled);
    let row = panel::row(Field::Presmooth, &p, BitDepth::Sixteen, 2048);
    assert!(!row.enabled);
    assert!(row.tooltip.starts_with("Only applies to 8-bit"));
    let row = panel::row(Field::Layer, &p, BitDepth::Eight, 2048);
    assert_eq!(
        row.control,
        Control::Slider { min: num(0.02), max: num(0.4), decimals: 2, step: 0, suffix: " mm" }
    );
    let bare = Params { frame_thickness_mm: num(0.0), ..p };
    assert!(!panel::row(Field::FrameNear, &bare, BitDepth::Eight, 2048).enabled);
    assert!(panel::row(Field::FrameNear, &p, BitDepth::Eight, 2048).enabled);
}

#[test]
fn controls_show_and_change_what_they_name() {
    let mut state = small();
    assert_eq!(panel::value(&state, Field::Far, &arith), Value::Number(num(100.0)));
    panel::set(&mut state, Field::Far, Value::Number(num(50.0)), 11, &arith);
    assert_eq!(float(state.params.far), 0.5);
    assert_eq!(state.dirty_since, Some(11));
    panel::set(&mut state, Field::Orientation, Value::Flag(true), 12, &arith);
    assert_eq!(state.params.orientation, Orientation::Upright);
    assert_eq!(panel::value(&state, Field::Orientation, &arith), Value::Flag(true));
    panel::set(&mut state, Field::Units, Value::Flag(true), 12, &arith);
    assert_eq!(state.params.units, Units::In);
    panel::set(&mut state, Field::FilterSize, Value::Count(4), 12, &arith);
    assert_eq!(state.params.filter_size, 5);
    // A value of the wrong kind is ignored.
    panel::set(&mut state, Field::Emboss, Value::Flag(true), 12, &arith);
    assert_eq!(float(state.params.emboss_mm), 20.0);
    state.dirty_since = None;
    panel::set(&mut state, Field::ShowTiles, Value::Flag(true), 13, &arith);
    assert!(state.show_tiles);
    assert_eq!(state.dirty_since, None);
    panel::reset(&mut state, 14, &arith);
    assert_eq!(state.params, Params::default());
    panel::load_example(&mut state, 15, &arith);
    assert_eq!(state.params, Params::example());
}

#[test]
fn controls_stay_where_they_are_put() {
    let mut state = small();
    for (field, v) in [
        (Field::Emboss, Value::Number(num(33.3))),
        (Field::SizeMm, Value::Number(num(10.0))),
        (Field::SizePx, Value::Count(768)),
        (Field::Tolerance, Value::Number(num(0.0))),
        (Field::FilterSize, Value::Count(1)),
        (Field::Presmooth, Value::Number(num(1.9))),
        (Field::FrameNear, Value::Number(num(-50.0))),
        (Field::FrameBack, Value::Number(num(25.0))),
        (Field::Layer, Value::Number(num(0.02))),
        (Field::Invert, Value::Flag(true)),
        (Field::Units, Value::Flag(true)),
        (Field::Orientation, Value::Flag(true)),
    ] {
        panel::set(&mut state, field, v, 3, &arith);
        assert_eq!(panel::value(&state, field, &arith), v);
    }
    // The bezel gives way to the picture.
    panel::set(&mut state, Field::Thickness, Value::Number(num(50.0)), 3, &arith);
    assert_eq!(panel::value(&state, Field::Thickness, &arith), Value::Number(num(4.0)));
}

#[test]
fn crossed_planes_are_nudged_apart() {
    let mut state = small();
    panel::set(&mut state, Field::Near, Value::Number(num(100.0)), 1, &arith);
    assert_eq!(float(state.params.far), 1.0);
    assert_eq!(float(state.params.near), 1.0 - 0.001);
    panel::reset(&mut state, 2, &arith);
    panel::set(&mut state, Field::Far, Value::Number(num(0.0)), 3, &arith);
    assert_eq!(float(state.params.far), 0.001);
    assert_eq!(float(state.params.near), 0.0);
    assert!(state.params.validate().is_ok());
}

#[test]
fn remarks_say_what_was_measured() {
    let mut state = small();
    assert_eq!(panel::remark(&state, Remark::Grid, &arith, &fixed), None);
    assert_eq!(panel::remark(&state, Remark::Frame, &arith, &fixed), None);
    state.params.size_px = 256;
    build(&mut state);
    let (text, warn) = panel::remark(&state, Remark::Grid, &arith, &fixed).unwrap();
    let stats = *state.stats().unwrap();
    assert_eq!(text, format!("256 × 192 · {}", stats.pitch_line(&fixed)));
    assert!(!warn);
    let (text, warn) = panel::remark(&state, Remark::Simplify, &arith, &fixed).unwrap();
    assert!(text.starts_with("−") && text.contains("worst deviation"), "{text}");
    assert!(!warn);
    state.params.frame_thickness_mm = num(0.0);
    let (text, _) = panel::remark(&state, Remark::Frame, &arith, &fixed).unwrap();
    assert_eq!(text, "no frame — sides drop straight to the plate");
    state.params.size_px = 2048;
    let (text, _) = panel::remark(&state, Remark::Grid, &arith, &fixed).unwrap();
    assert!(text.ends_with("ceiling"), "{text}");
    let foot = panel::footer(&stats, &fixed, &cubic);
    assert!(foot.starts_with(&format!("{} triangles · ", thousands(stats.triangles))));
    assert!(foot.ends_with(&stats.file_line()));
}

#[test]
fn the_status_line_reads_right_to_left() {
    let mut state = small();
    assert!(panel::status_parts(&state, &arith, &fixed).is_empty());
    state.params.size_px = 256;
    build(&mut state);
    let parts = panel::status_parts(&state, &arith, &fixed);
    let stats = *state.stats().unwrap();
    assert_eq!(parts.len(), 7);
    assert_eq!(parts[0].text, rebuild::preview_note(&state));
    assert_eq!(parts[0].accent, Accent::Weak);
    assert_eq!(parts[1].text, format!("{} triangles", thousands(stats.triangles)));
    assert_eq!(parts[2].accent, Accent::Good);
    assert_eq!(parts[3].hover, Some(stats.step_line(&fixed)));
    assert_eq!(parts[5].text, "relief 20.0 mm");
    assert_eq!(parts[6].text, stats.bbox_line(&fixed));
}

#[test]
fn saving_settings_is_reported() {
    let mut state = small();
    panel::settings_saved(&mut state, Ok(Saved::To("/s.json".to_string())));
    assert_eq!(state.status.text, "Settings written to /s.json");
    panel::settings_saved(&mut state, Ok(Saved::Downloaded));
    assert_eq!(state.status.text, "Settings downloaded");
    panel::settings_saved(&mut state, Ok(Saved::Cancelled));
    assert_eq!(state.status.text, "Not saved");
    panel::settings_saved(&mut state, Err("no".to_string()));
    assert_eq!(state.status.tone, Tone::Error);
    assert_eq!(panel::format_hint(Format::Stl), "STL — every slicer");
    assert_eq!(panel::export_hint(&state), "Rebuild at full resolution and write the mesh");
    assert_eq!(Status::warn("w".to_string()).tone, Tone::Warn);
    assert_eq!(Status::error("e".to_string()).text, "e");
    assert_eq!(Status::info("i".to_string()).tone, Tone::Info);
}

#[test]
fn the_depth_pane_is_dark_in_front() {
    let mut state = small();
    state.params.size_px = 256;
    build(&mut state);
    let field = &state.built.as_ref().unwrap().field;
    let pixels = panel::depth_pixels(field, &arith);
    assert_eq!(pixels.len(), field.w * field.h);
    assert_eq!(pixels[0], 255);
    assert!(pixels[(field.h / 2) * field.w + field.w / 2] < 40);
    assert_eq!(float(panel::pane_height(num(500.0), &arith)), 150.0);
    assert_eq!(float(panel::pane_height(num(10.0), &arith)), 90.0);
    assert_eq!(float(panel::pane_height(num(5000.0), &arith)), 260.0);
}

#[test]
fn chunks_are_painted_by_what_they_are() {
    let mut state = small();
    state.params.tolerance_mm = num(0.0);
    state.params.size_px = 512;
    build(&mut state);
    let tiles = &state.built.as_ref().unwrap().tiles;
    assert_eq!(view::materials(tiles, false, true, false), vec![Material::Plain, Material::Frame]);
    assert_eq!(view::materials(tiles, false, false, true), vec![Material::Photo, Material::Plain]);
    assert_eq!(view::materials(tiles, true, true, true), vec![Material::Tint(0), Material::Frame]);
    assert_eq!(view::view_key(&state), 5);
    assert!(!view::chunks_stale(&state, 5, false));
    assert!(view::chunks_stale(&state, 5, true));
    state.show_tiles = true;
    assert!(view::chunks_stale(&state, 5, false));
    state.built = None;
    assert!(!view::chunks_stale(&state, 5, true));
}

#[test]
fn the_view_follows_its_panel_in_steps() {
    assert_eq!(view::apply_size((900, 640), (900, 640)), None);
    assert_eq!(view::apply_size((907, 633), (900, 640)), None);
    assert_eq!(view::apply_size((908, 640), (900, 640)), Some((908, 640)));
    assert_eq!(view::apply_size((9000, 3), (900, 640)), Some((2048, 16)));
    assert_eq!(view::physical(num(100.5), num(2.0), &arith), 201);
    assert_eq!(view::physical(num(1.0), num(1.0), &arith), 16);
}

#[test]
fn the_camera_moves_when_the_model_does() {
    let tangent = num((0.42f32 * 0.5).tan());
    let extents = [num(30.0), num(40.0), num(0.0)];
    let f = view::reframe(extents, num(0.0), tangent, &arith).unwrap();
    assert_eq!(float(f.radius), 25.0);
    assert_eq!(float(f.centre_z), 0.0);
    assert_eq!(float(f.distance), 25.0 / (0.42f32 * 0.5).tan() / 0.82);
    assert_eq!(view::reframe(extents, num(24.0), tangent, &arith), None);
    assert!(view::reframe(extents, num(23.0), tangent, &arith).is_some());
}

#[test]
fn one_picture_is_taken_and_then_it_is_over() {
    let mut shot = Shot::new();
    let mut saves = 0;
    let mut frames = 0;
    loop {
        frames += 1;
        match shot.capture(frames >= 120) {
            ShotStep::Wait => {}
            ShotStep::Save => {
                saves += 1;
                assert_eq!(frames, 120);
            }
            ShotStep::Quit => break,
        }
    }
    assert_eq!(saves, 1);
    assert_eq!(frames, 131);
    let mut early = Shot::new();
    for _ in 0..89 {
        assert_eq!(early.capture(true), ShotStep::Wait);
    }
    assert_eq!(early.capture(true), ShotStep::Save);
}

#[test]
fn errors_are_told_in_words() {
    let e = Error::TooSmall { width: 1, height: 5 };
    assert_eq!(e.message(&plain), "the depth map is 1×5; it must be at least 2×2");
    let e = DepthMap::decode(b"x", &arith).unwrap_err();
    assert!(e.message(&plain).len() > "that file is not an image this app can read: ".len());
}

#[test]
fn a_preview_remembers_what_it_was_built_from() {
    let mut state = small();
    let asked = state.preview_params();
    let result = Job::new(&state).run(&arith, &total, &narrow, &plain);
    state.params.invert = !state.params.invert;
    assert!(state.preview_params() != asked);
    rebuild::finish(&mut state, result, &fixed);
    assert_eq!(state.applied, Some(asked));
    assert_eq!(state.generation, 1);
    // The edit is still to come.
    state.dirty_since = None;
    state.watch_params(9);
    assert_eq!(state.dirty_since, Some(9));
}

#[test]
fn a_long_export_says_how_far_it_is() {
    let mut state = small();
    let before = state.params;
    rebuild::export_progress(&mut state, "rock.stl", Fraction { done: 1, total: 3 });
    assert_eq!(state.status.text, "Writing rock.stl… 33%");
    assert_eq!(state.status.tone, Tone::Info);
    rebuild::export_progress(&mut state, "rock.stl", Fraction { done: 3, total: 3 });
    assert_eq!(state.status.text, "Writing rock.stl… 100%");
    assert_eq!(state.params, before);
}
