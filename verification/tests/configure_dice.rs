use dice_state::configure_dice::{
    configure_dice_for_buck, configure_error_tag, dice_evict_watermarks_env,
    dice_snapshot_env_config, env_u64, evictor_config, parse_byte_size, resolve_detect_cycles,
    snapshot_digest_input, ConfigurePlan, ConfigureStep, DbSource, DetectCycles, DiceEnv, ErrorTag,
    Evictor, EvictorAction, EvictorConfig,
};
use dice_state::pressure::PressureEvictStats;

#[test]
fn parse_byte_size_suffixes() {
    assert_eq!(parse_byte_size("1024"), Some(1024));
    assert_eq!(parse_byte_size("4K"), Some(4096));
    assert_eq!(parse_byte_size("2m"), Some(2 << 20));
    assert_eq!(parse_byte_size("6G"), Some(6 << 30));
    assert_eq!(parse_byte_size(" 6 G "), Some(6 << 30));
    assert_eq!(parse_byte_size(""), None);
    assert_eq!(parse_byte_size("G"), None);
    assert_eq!(parse_byte_size("nope"), None);
    // Overflow must not wrap.
    assert_eq!(parse_byte_size("999999999999999999G"), None);
}

#[test]
fn parse_byte_size_edges() {
    assert_eq!(parse_byte_size("18446744073709551615"), Some(u64::MAX));
    assert_eq!(parse_byte_size("18446744073709551616"), None);
    assert_eq!(parse_byte_size("17179869183g"), Some(17179869183 << 30));
    assert_eq!(parse_byte_size("17179869184g"), None);
    assert_eq!(parse_byte_size("+7k"), Some(7 << 10));
    assert_eq!(parse_byte_size("-7"), None);
    assert_eq!(parse_byte_size("\u{3000}8\u{a0}M\t"), Some(8 << 20));
    assert_eq!(parse_byte_size("1 0"), None);
    assert_eq!(parse_byte_size("5\u{4e2d}"), None);
    assert_eq!(parse_byte_size("+"), None);
}

#[test]
fn case_and_outer_space_have_no_say() {
    for s in ["4K", " 12 m\n", "3G", "nope", "", "7", "18446744073709551615k"] {
        assert_eq!(parse_byte_size(&s.to_ascii_lowercase()), parse_byte_size(s));
        assert_eq!(parse_byte_size(s.trim()), parse_byte_size(s));
    }
    for n in [0, 1, 10, 4096, u64::MAX] {
        for (suffix, factor) in [("", 1u64), ("K", 1 << 10), ("m", 1 << 20), ("G", 1 << 30)] {
            let text = format!(" \t{} {}\n", n, suffix);
            assert_eq!(parse_byte_size(&text), n.checked_mul(factor));
        }
    }
}

#[test]
fn watermarks_have_defaults_and_a_gap() {
    assert_eq!(dice_evict_watermarks_env(None, Some("1G")), None);
    assert_eq!(dice_evict_watermarks_env(Some("nope"), None), None);
    assert_eq!(dice_evict_watermarks_env(Some("4K"), None), Some((4096, 3072)));
    assert_eq!(dice_evict_watermarks_env(Some("4K"), Some("nope")), Some((4096, 3072)));
    assert_eq!(dice_evict_watermarks_env(Some("4K"), Some("1K")), Some((4096, 1024)));
    assert_eq!(dice_evict_watermarks_env(Some("4K"), Some("4K")), None);
    assert_eq!(dice_evict_watermarks_env(Some("4K"), Some("5K")), None);
    assert_eq!(dice_evict_watermarks_env(Some("7"), None), Some((7, 5)));
    assert_eq!(dice_evict_watermarks_env(Some("2"), None), Some((2, 1)));
    assert_eq!(
        dice_evict_watermarks_env(Some("18446744073709551615"), None),
        Some((u64::MAX, 13835058055282163711))
    );
    assert_eq!(dice_evict_watermarks_env(Some("0"), None), None);
}

#[test]
fn numbers_have_defaults() {
    assert_eq!(env_u64(None, 10), 10);
    assert_eq!(env_u64(Some("3"), 10), 3);
    assert_eq!(env_u64(Some(" 3"), 10), 10);
    assert_eq!(env_u64(Some(""), 10), 10);
    assert_eq!(env_u64(Some("+12"), 10), 12);
}

#[test]
fn snapshot_digest_covers_revision_and_seed() {
    assert_eq!(dice_snapshot_env_config(None, Some("r"), Some("s")), None);
    let (path, digest) =
        dice_snapshot_env_config(Some("/x".to_owned()), Some("r"), Some("s")).unwrap();
    assert_eq!(path, "/x");
    let mut hasher = blake3::Hasher::new();
    hasher.update(b"r");
    hasher.update(b"\0");
    hasher.update(b"s");
    assert_eq!(digest, *hasher.finalize().as_bytes());
    let of = |r: Option<&str>, s: Option<&str>| {
        dice_snapshot_env_config(Some(String::new()), r, s).unwrap().1
    };
    assert_eq!(of(None, None), *blake3::hash(b"dev\0").as_bytes());
    assert_ne!(of(Some("ab"), Some("c")), of(Some("a"), Some("bc")));
    assert_eq!(snapshot_digest_input(None, Some("s\u{e9}")), b"dev\0s\xc3\xa9".to_vec());
}

#[test]
fn evictor_settings_have_defaults() {
    let config = evictor_config(9, 5, None, None, None);
    assert_eq!(
        config,
        EvictorConfig {
            high: 9,
            low: 5,
            poll_secs: 10,
            chunk: 4096,
            allowed: vec!["AnalysisKey".to_owned()],
        }
    );
    let config = evictor_config(9, 5, Some("2"), Some("7"), Some("A, B,"));
    assert_eq!((config.poll_secs, config.chunk), (2, 7));
    assert_eq!(config.allowed, vec!["A", "B"]);
}

fn selected(selected: usize) -> Option<PressureEvictStats> {
    Some(PressureEvictStats { candidates: selected, selected })
}

#[test]
fn eviction_starts_above_the_high_mark_and_ends_below_the_low_one() {
    let config = evictor_config(100, 50, None, None, None);
    let mut evictor = Evictor::new();
    assert_eq!(evictor.woke(&config, true, Some(100)), EvictorAction::Sleep);
    assert_eq!(evictor.woke(&config, true, None), EvictorAction::Sleep);
    assert_eq!(evictor.woke(&config, true, Some(101)), EvictorAction::Evict);
    assert_eq!(evictor.evicted(&config, selected(3), Some(80)), EvictorAction::Evict);
    assert_eq!(evictor.rss, 80);
    assert_eq!(evictor.evicted(&config, selected(3), Some(51)), EvictorAction::Evict);
    assert_eq!(evictor.evicted(&config, selected(3), Some(50)), EvictorAction::Sleep);
    assert_eq!(evictor.woke(&config, false, Some(101)), EvictorAction::Stop);
}

#[test]
fn eviction_ends_without_progress() {
    let config = evictor_config(100, 50, None, None, None);
    let mut evictor = Evictor::new();
    evictor.woke(&config, true, Some(200));
    assert_eq!(evictor.evicted(&config, selected(1), Some(200)), EvictorAction::Sleep);
    evictor.woke(&config, true, Some(200));
    assert_eq!(evictor.evicted(&config, selected(1), None), EvictorAction::Sleep);
    evictor.woke(&config, true, Some(200));
    assert_eq!(evictor.evicted(&config, None, None), EvictorAction::Sleep);
}

#[test]
fn polling_backs_off_while_nothing_can_be_evicted() {
    let config = evictor_config(100, 50, None, None, None);
    let mut evictor = Evictor::new();
    let mut seen = vec![evictor.idle_backoff];
    for _ in 0..5 {
        evictor.woke(&config, true, Some(200));
        evictor.evicted(&config, selected(0), Some(10));
        seen.push(evictor.idle_backoff);
    }
    assert_eq!(seen, vec![1, 2, 4, 8, 8, 8]);
    // A failure or a missing measurement changes nothing.
    evictor.evicted(&config, None, Some(10));
    evictor.woke(&config, true, None);
    assert_eq!(evictor.idle_backoff, 8);
    evictor.woke(&config, true, Some(100));
    assert_eq!(evictor.idle_backoff, 1);
    evictor.woke(&config, true, Some(200));
    evictor.evicted(&config, selected(0), Some(10));
    evictor.woke(&config, true, Some(200));
    evictor.evicted(&config, selected(1), Some(10));
    assert_eq!(evictor.idle_backoff, 1);
}

#[test]
fn sleeps_are_the_polling_interval_times_the_back_off() {
    let config = evictor_config(100, 50, Some("7"), None, None);
    let mut evictor = Evictor::new();
    assert_eq!(evictor.sleep_secs(&config), Some(7));
    for secs in [14, 28, 56, 56] {
        evictor.woke(&config, true, Some(200));
        evictor.evicted(&config, selected(0), Some(200));
        assert_eq!(evictor.sleep_secs(&config), Some(secs));
    }
    let long = evictor_config(100, 50, Some("18446744073709551615"), None, None);
    assert_eq!(evictor.sleep_secs(&long), None);
    assert_eq!(Evictor::new().sleep_secs(&long), Some(u64::MAX));
}

#[test]
fn cycle_detection_is_resolved() {
    let none: Option<Result<Option<DetectCycles>, ()>> = None;
    assert_eq!(resolve_detect_cycles(None, none), Ok(DetectCycles::Enabled));
    assert_eq!(
        resolve_detect_cycles(Some(DetectCycles::Disabled), Some(Err(1))),
        Ok(DetectCycles::Disabled)
    );
    assert_eq!(resolve_detect_cycles(None, Some(Err(1))), Err(1));
    assert_eq!(resolve_detect_cycles::<()>(None, Some(Ok(None))), Ok(DetectCycles::Enabled));
    assert_eq!(
        resolve_detect_cycles::<()>(None, Some(Ok(Some(DetectCycles::Disabled)))),
        Ok(DetectCycles::Disabled)
    );
}

fn env() -> DiceEnv<'static> {
    DiceEnv {
        db_path_set: false,
        db_path: None,
        snapshot_path: None,
        snapshot_seed: None,
        evict_high: None,
        evict_low: None,
        evict_poll_secs: None,
        evict_chunk: None,
        evict_allow: None,
    }
}

fn plan(state_path_given: bool, env: DiceEnv<'_>) -> ConfigurePlan {
    configure_dice_for_buck::<()>(None, None, None, state_path_given, None, env).unwrap()
}

#[test]
fn configuration_is_planned() {
    let p = plan(false, env());
    assert_eq!(p.detect_cycles, DetectCycles::Enabled);
    assert!(!p.invalidation_tracking);
    assert_eq!((p.storage, p.snapshot, p.evictor), (None, None, None));
    assert_eq!(plan(true, env()).storage, Some(DbSource::Given));

    let full = DiceEnv {
        db_path_set: true,
        db_path: Some("/db"),
        snapshot_path: Some("/meta".to_owned()),
        evict_high: Some("8K"),
        ..env()
    };
    let p = plan(true, full);
    assert_eq!(p.storage, Some(DbSource::Environment));
    assert_eq!(p.snapshot, Some(("/meta".to_owned(), *blake3::hash(b"dev\0").as_bytes())));
    assert_eq!(p.evictor.unwrap().low, 6144);

    // Without a store that the environment names nothing is evicted.
    let p = plan(true, DiceEnv { evict_high: Some("8K"), ..env() });
    assert_eq!(p.evictor, None);
    let p = plan(true, DiceEnv { db_path_set: true, evict_high: Some("8K"), ..env() });
    assert_eq!(p.evictor, None);

    let rolled =
        configure_dice_for_buck::<()>(None, None, Some(Ok(Some(true))), false, None, env());
    assert!(rolled.unwrap().invalidation_tracking);
    let failed = configure_dice_for_buck(None, Some(Err(1)), Some(Err(2)), false, None, env());
    assert_eq!(failed, Err(1));
    let failed = configure_dice_for_buck(
        Some(DetectCycles::Enabled),
        Some(Err(1)),
        Some(Err(2)),
        false,
        None,
        env(),
    );
    assert_eq!(failed, Err(2));
}

fn steps(plan: &ConfigurePlan, loaded: bool) -> Vec<ConfigureStep> {
    let mut out = vec![];
    let mut step = plan.next(ConfigureStep::Begin, false);
    while step != ConfigureStep::Done {
        out.push(step);
        step = plan.next(step, loaded);
    }
    out
}

#[test]
fn a_snapshot_needs_a_store() {
    let only_snapshot = || DiceEnv { snapshot_path: Some("/meta".to_owned()), ..env() };
    let cold = plan(false, only_snapshot());
    assert_eq!(cold.snapshot, None);
    assert_eq!(steps(&cold, false), vec![ConfigureStep::Build, ConfigureStep::SeedNone]);
    let warm = plan(true, only_snapshot());
    assert_eq!(warm.snapshot.as_ref().map(|s| s.0.as_str()), Some("/meta"));
    assert_eq!(
        steps(&warm, true),
        vec![ConfigureStep::OpenStorage, ConfigureStep::Build, ConfigureStep::LoadSnapshot]
    );
}

#[test]
fn configuration_goes_step_by_step() {
    assert_eq!(
        steps(&plan(false, env()), false),
        vec![ConfigureStep::Build, ConfigureStep::SeedNone]
    );
    let full = || DiceEnv {
        db_path_set: true,
        db_path: Some("/db"),
        snapshot_path: Some("/meta".to_owned()),
        evict_high: Some("8K"),
        ..env()
    };
    assert_eq!(
        steps(&plan(false, full()), true),
        vec![
            ConfigureStep::OpenStorage,
            ConfigureStep::Build,
            ConfigureStep::LoadSnapshot,
            ConfigureStep::ArmEvictor
        ]
    );
    assert_eq!(
        steps(&plan(false, full()), false),
        vec![
            ConfigureStep::OpenStorage,
            ConfigureStep::Build,
            ConfigureStep::LoadSnapshot,
            ConfigureStep::SeedNone,
            ConfigureStep::ArmEvictor
        ]
    );
    assert_eq!(configure_error_tag(ConfigureStep::OpenStorage), ErrorTag::Environment);
    assert_eq!(configure_error_tag(ConfigureStep::LoadSnapshot), ErrorTag::Environment);
    assert_eq!(configure_error_tag(ConfigureStep::SeedNone), ErrorTag::Own);
}
