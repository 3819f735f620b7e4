use dice_state::configure_dice::ErrorTag;
use dice_state::dup_stats::{DupStringStat, DupStringStats};
use dice_state::hydration::{
    dup_row_line, format_dup_strings_summary, format_status_summary, wasted_share, HydrationEvent,
    HydrationServerCommand, HydrationStep, HydrationSubcommand, PagableStatus, SnapshotEnv,
    TypeStatus,
};

fn percent(stats: &DupStringStats) -> String {
    let pct = match wasted_share(stats) {
        Some((part, whole)) => (part as f64) * 100.0 / (whole as f64),
        None => 0.0,
    };
    format!("{:.1}", pct)
}

fn sample_stats() -> DupStringStats {
    DupStringStats {
        heaps: 3,
        total_strings: 5,
        total_bytes: 73,
        distinct_strings: 3,
        distinct_bytes: 37,
        top: vec![DupStringStat {
            sample: "shared-flag-string".to_owned(),
            len: 18,
            copies: 3,
        }],
    }
}

#[test]
fn dup_strings_summary_renders_totals_and_top_table() {
    let stats = sample_stats();
    let s = format_dup_strings_summary(&stats, &percent(&stats));
    assert!(s.contains("3 heaps, 5 strings, 73 payload bytes"));
    assert!(s.contains("duplicated: 2 copies, 36 bytes (49.3%"));
    assert!(s.contains("\"shared-flag-string\""));
}

#[test]
fn dup_strings_summary_empty_is_divide_by_zero_safe() {
    let stats = DupStringStats::default();
    let s = format_dup_strings_summary(&stats, &percent(&stats));
    assert!(s.contains("(0.0%"));
}

#[test]
fn dup_strings_summary_in_full() {
    let stats = sample_stats();
    assert_eq!(
        format_dup_strings_summary(&stats, "49.3"),
        "Frozen-heap strings: 3 heaps, 5 strings, 73 payload bytes\n\
         distinct:   3 strings, 37 bytes\n\
         duplicated: 2 copies, 36 bytes (49.3% - the interning ceiling)\n\
         \n      wasted    copies       len  string\n\
         \x20         36         3        18  \"shared-flag-string\"\n"
    );
}

#[test]
fn long_samples_are_cut_and_quoted() {
    let mut stats = sample_stats();
    stats.top[0].sample = "a\"b\n".to_owned() + &"\u{e9}".repeat(80);
    let s = format_dup_strings_summary(&stats, "0.0");
    let shown = "a\"b\n".to_owned() + &"\u{e9}".repeat(56);
    assert!(s.ends_with(&format!("        18  {:?}\n", shown)));
}

#[test]
fn rows_show_what_they_are_given() {
    let stats = sample_stats();
    assert_eq!(
        dup_row_line(&stats.top[0], "<x>"),
        "          36         3        18  <x>\n"
    );
}

#[test]
fn status_summary_in_full() {
    let mut status =
        PagableStatus { total_nodes: 10, resident_count: 3, paged_out_count: 5, by_type: vec![] };
    assert_eq!(
        format_status_summary(&status),
        "DICE hydration: 10 nodes (3 resident, 5 paged out, 2 other)\n"
    );
    status.by_type = vec![
        TypeStatus { key_type: "AnalysisKey".to_owned(), resident: 3, paged_out: 5 },
        TypeStatus { key_type: "X".to_owned(), resident: 1234567890123, paged_out: 0 },
    ];
    let row = |resident: u64, paged_out: u64, name: &str| {
        format!("{:>12}  {:>12}  {}\n", resident, paged_out, name)
    };
    assert_eq!(
        format_status_summary(&status),
        format!(
            "DICE hydration: 10 nodes (3 resident, 5 paged out, 2 other)\n\n{:>12}  {:>12}  {}\n{}{}",
            "resident",
            "paged-out",
            "key type",
            row(3, 5, "AnalysisKey"),
            row(1234567890123, 0, "X"),
        )
    );
    status.total_nodes = 4;
    assert!(format_status_summary(&status).contains("4 nodes (3 resident, 5 paged out, 0 other)"));
}

fn command(subcommand: HydrationSubcommand) -> HydrationServerCommand {
    HydrationServerCommand { subcommand }
}

fn env<'a>(path: Option<&str>, deny: Option<&'a str>) -> SnapshotEnv<'a> {
    SnapshotEnv { path: path.map(|p| p.to_owned()), seed: Some("seed"), deny }
}

#[test]
fn only_paging_excludes_other_commands() {
    let name = |c: HydrationSubcommand| command(c).exclusive_command_name();
    assert_eq!(name(HydrationSubcommand::PageOut), Some("hydration".to_owned()));
    assert_eq!(name(HydrationSubcommand::PageIn), Some("hydration".to_owned()));
    assert_eq!(name(HydrationSubcommand::Status), None);
    assert_eq!(name(HydrationSubcommand::DupStrings), None);
}

#[test]
fn paging_out_goes_step_by_step() {
    let c = command(HydrationSubcommand::PageOut);
    assert!(matches!(c.command(HydrationEvent::Begin, None), HydrationStep::PageOut));
    assert!(matches!(
        c.command(HydrationEvent::PagedOut { ok: true }, None),
        HydrationStep::Drain
    ));
    assert!(matches!(c.command(HydrationEvent::Drained, None), HydrationStep::Purge));
    assert!(matches!(
        c.command(HydrationEvent::Purged { ok: true, env: env(None, None) }, None),
        HydrationStep::Respond { summary: None }
    ));
    match c.command(HydrationEvent::Purged { ok: true, env: env(Some("/m"), None) }, Some("r1")) {
        HydrationStep::SaveSnapshot { path, digest, deny } => {
            assert_eq!(path, "/m");
            assert_eq!(digest, *blake3::hash(b"r1\0seed").as_bytes());
            assert_eq!(
                deny,
                vec![
                    "EvalImportKey",
                    "BuildKey",
                    "EnsureProjectedArtifactKey",
                    "EnsureTransitiveSetProjectionKey"
                ]
            );
        }
        _ => panic!("a snapshot is to be saved"),
    }
    match c.command(
        HydrationEvent::Purged { ok: true, env: env(Some("/m"), Some(" A,,B , ")) },
        None,
    ) {
        HydrationStep::SaveSnapshot { digest, deny, .. } => {
            assert_eq!(digest, *blake3::hash(b"dev\0seed").as_bytes());
            assert_eq!(deny, vec!["A", "B", ""]);
        }
        _ => panic!("a snapshot is to be saved"),
    }
    assert!(matches!(
        c.command(HydrationEvent::Saved { ok: true }, None),
        HydrationStep::Respond { summary: None }
    ));
}

#[test]
fn failures_are_classified() {
    let c = command(HydrationSubcommand::PageOut);
    let tag = |event: HydrationEvent<'_>| match c.command(event, None) {
        HydrationStep::Fail { tag } => tag,
        _ => panic!("the command goes on"),
    };
    assert_eq!(tag(HydrationEvent::PagedOut { ok: false }), ErrorTag::Environment);
    assert_eq!(
        tag(HydrationEvent::Purged { ok: false, env: env(Some("/m"), None) }),
        ErrorTag::Own
    );
    assert_eq!(tag(HydrationEvent::Saved { ok: false }), ErrorTag::Environment);
    assert_eq!(tag(HydrationEvent::PagedIn { ok: false }), ErrorTag::Environment);
    assert_eq!(tag(HydrationEvent::CountFailed), ErrorTag::Tier0);
}

#[test]
fn reports_are_read_and_rendered() {
    let c = command(HydrationSubcommand::Status);
    assert!(matches!(c.command(HydrationEvent::Begin, None), HydrationStep::ReadStatus));
    let status =
        PagableStatus { total_nodes: 1, resident_count: 1, paged_out_count: 0, by_type: vec![] };
    match c.command(HydrationEvent::Status { status: &status }, None) {
        HydrationStep::Respond { summary } => {
            assert_eq!(summary, Some(format_status_summary(&status)))
        }
        _ => panic!("a report is due"),
    }
    let c = command(HydrationSubcommand::DupStrings);
    assert!(matches!(
        c.command(HydrationEvent::Begin, None),
        HydrationStep::CountStrings { top_n: 20 }
    ));
    let stats = sample_stats();
    match c.command(HydrationEvent::Counted { stats: &stats, percent: "49.3" }, None) {
        HydrationStep::Respond { summary } => {
            assert_eq!(summary, Some(format_dup_strings_summary(&stats, "49.3")))
        }
        _ => panic!("a report is due"),
    }
    let c = command(HydrationSubcommand::PageIn);
    assert!(matches!(c.command(HydrationEvent::Begin, None), HydrationStep::PageIn));
    assert!(matches!(
        c.command(HydrationEvent::PagedIn { ok: true }, None),
        HydrationStep::Respond { summary: None }
    ));
}
