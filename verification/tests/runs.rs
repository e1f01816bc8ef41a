use lama_inpaint::args::{parse_args, Args, Parsed};
use lama_inpaint::image::{Gray8, Rgb8};
use lama_inpaint::mem::DeviceMemory;
use lama_inpaint::run::{check_route, default_weights, next_action, plan_run, Action, Event, Place, Route};

fn words(list: &[&str]) -> Vec<String> {
    list.iter().map(|s| s.to_string()).collect()
}

fn parsed(list: &[&str]) -> Args {
    match parse_args(&words(list)) {
        Ok(Parsed::Run(a)) => a,
        other => panic!("not a run: {other:?}"),
    }
}

fn refused(list: &[&str]) -> String {
    match parse_args(&words(list)) {
        Err(e) => e,
        other => panic!("accepted: {other:?}"),
    }
}

fn blank(w: usize, h: usize) -> Rgb8 {
    Rgb8::new(w, h)
}

fn hole(w: usize, h: usize, at: Option<(usize, usize)>) -> Gray8 {
    let mut data = vec![0u8; w * h];
    if let Some((x, y)) = at {
        data[y * w + x] = 1;
    }
    Gray8 { width: w, height: h, data }
}

#[test]
fn help_wins_over_everything_after_it() {
    assert!(matches!(parse_args(&words(&["--help", "--nonsense"])), Ok(Parsed::Help)));
    assert!(matches!(parse_args(&words(&["-h"])), Ok(Parsed::Help)));
}

#[test]
fn options_are_read_and_later_ones_override() {
    let a = parsed(&["--image", "a.png", "--mask", "m.png", "--output", "o.png"]);
    assert_eq!((a.image.as_str(), a.mask.as_str(), a.output.as_str()), ("a.png", "m.png", "o.png"));
    assert!(a.weights.is_none() && !a.force_cpu && !a.force_gpu && !a.tile && !a.sections);
    let b = parsed(&[
        "--image", "a", "--image", "b", "--mask", "m", "--output", "-", "--weights", "w", "--cpu", "--tile",
    ]);
    assert_eq!(b.image, "b");
    assert_eq!(b.weights.as_deref(), Some("w"));
    assert!(b.force_cpu && b.tile && !b.force_gpu && !b.sections);
}

#[test]
fn what_is_missing_or_unknown_is_named() {
    assert!(refused(&["--image"]).contains("--image needs a value"));
    assert!(refused(&["--frobnicate"]).contains("--frobnicate"));
    assert!(refused(&["--mask", "m", "--output", "o"]).contains("--image"));
    assert!(refused(&["--image", "i", "--output", "o"]).contains("--mask"));
    assert!(refused(&["--image", "i", "--mask", "m"]).contains("--output"));
    assert_eq!(
        refused(&["--image", "-", "--mask", "-", "--output", "o"]),
        "--image and --mask cannot both be '-' (stdin has only one stream)"
    );
    assert_eq!(
        refused(&["--image", "i", "--mask", "m", "--output", "o", "--tile", "--sections"]),
        "--tile and --sections are mutually exclusive"
    );
}

#[test]
fn a_small_image_is_run_whole() {
    let route = plan_run(&blank(600, 300), &hole(600, 300, Some((5, 5))), true, true).unwrap();
    assert_eq!(route, Route::Whole { pad_h: 4, pad_w: 0 });
    let square = plan_run(&blank(512, 900), &hole(512, 900, None), true, false).unwrap();
    assert_eq!(square, Route::Whole { pad_h: 4, pad_w: 0 });
}

#[test]
fn a_large_image_takes_the_route_that_was_asked_for() {
    let img = blank(1024, 1024);
    let m = hole(1024, 1024, Some((500, 500)));
    assert_eq!(plan_run(&img, &m, false, false).unwrap(), Route::Whole { pad_h: 0, pad_w: 0 });
    assert_eq!(plan_run(&img, &m, true, true).unwrap(), Route::Sections);
    match plan_run(&img, &m, true, false).unwrap() {
        Route::Window { tile, pad } => assert_eq!((tile.x0, tile.y0, tile.side, pad), (244, 244, 512, 0)),
        other => panic!("{other:?}"),
    }
    assert_eq!(plan_run(&img, &hole(1024, 1024, None), true, false).unwrap(), Route::Copy);
}

#[test]
fn a_mask_of_another_size_is_refused() {
    let e = plan_run(&blank(10, 20), &hole(20, 10, None), false, false).unwrap_err();
    assert_eq!(e, "mask is 20x10 but image is 10x20");
}

#[test]
fn only_a_forced_gpu_run_is_refused_for_memory() {
    let little = Some(DeviceMemory { free: 1 << 20, total: 1 << 30, name: "Card".to_string() });
    let whole = Route::Whole { pad_h: 0, pad_w: 0 };
    assert!(check_route(&whole, 1024, 1024, false, &little).is_ok());
    let e = check_route(&whole, 1024, 1024, true, &little).unwrap_err();
    assert!(e.ends_with("Use --tile to run on a window around the mask, or --sections for a large mask."));
    assert!(check_route(&Route::Sections, 1024, 1024, true, &little).is_ok());
    assert!(check_route(&whole, 1024, 1024, true, &None).is_ok());
}

#[test]
fn the_gpu_is_tried_first_and_only_falls_back_unforced() {
    assert!(matches!(next_action(false, false, true, &Event::Start), Action::RunGpu));
    assert!(matches!(next_action(false, false, false, &Event::Start), Action::RunCpu));
    assert!(matches!(next_action(true, false, true, &Event::Start), Action::RunCpu));
    let failed = Event::GpuFailed("no card".to_string());
    assert!(matches!(next_action(false, false, true, &failed), Action::RunCpu));
    match next_action(false, true, true, &failed) {
        Action::Fail(s) => assert_eq!(s, "gpu inference failed: no card\n(--cpu runs the CPU engine instead)"),
        other => panic!("{other:?}"),
    }
    match next_action(false, true, false, &Event::Start) {
        Action::Fail(s) => assert!(s.starts_with("--gpu was requested, but this is the CPU-only build")),
        other => panic!("{other:?}"),
    }
    match next_action(true, false, true, &Event::CpuFailed("odd".to_string())) {
        Action::Fail(s) => assert_eq!(s, "cpu inference failed: odd"),
        other => panic!("{other:?}"),
    }
}

#[test]
fn the_weight_file_is_searched_outward() {
    assert_eq!(
        default_weights(2),
        vec![
            Place::Near { up: 0, models: false },
            Place::Near { up: 0, models: true },
            Place::Near { up: 1, models: false },
            Place::Near { up: 1, models: true },
            Place::Here,
        ]
    );
    assert_eq!(default_weights(0), vec![Place::Here]);
    assert_eq!(default_weights(40).len(), 13);
}
