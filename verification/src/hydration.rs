//! The hydration command: it pages values out and in, saves snapshots, and reports.
use vstd::prelude::*;
use vstd::string::*;

use crate::configure_dice::{blake3_digest, dice_snapshot_env_config, snapshot_input, ErrorTag};
use crate::dup_stats::{DupStringStat, DupStringStats};
use crate::text::{
    append_decimal, append_right_aligned, chars_of, decimal, decimal_string,
    law_names_are_the_pieces, listed_names, pieces, right_aligned, split_names, string_of, texts,
    trimmed,
};

verus! {

/// The keys whose values do not go into a snapshot unless the environment names others: they
/// cannot be read back, or what they stand for is more than their values.
pub const DEFAULT_DENY: &'static str =
    "EvalImportKey,BuildKey,EnsureProjectedArtifactKey,EnsureTransitiveSetProjectionKey";

/// How many of the worst offenders are reported.
pub const DUP_STRINGS_TOP: usize = 20;

/// What the command is asked to do.
#[derive(Debug, Clone, Copy, PartialEq, Eq, Structural)]
pub enum HydrationSubcommand {
    /// Page all values out.
    PageOut,
    /// Page all values in.
    PageIn,
    /// Report what is in memory and what is not.
    Status,
    /// Report which strings occur more than once.
    DupStrings,
}

/// How many values of keys of one type are in memory and how many are not.
#[derive(Debug, PartialEq, Eq)]
pub struct TypeStatus {
    pub key_type: String,
    pub resident: usize,
    pub paged_out: usize,
}

/// How many values are in memory and how many are not.
#[derive(Debug, PartialEq, Eq)]
pub struct PagableStatus {
    pub total_nodes: usize,
    pub resident_count: usize,
    pub paged_out_count: usize,
    pub by_type: Vec<TypeStatus>,
}

/// How a text looks in quotes, as `Debug` writes it.
pub uninterp spec fn debug_quoted(s: Seq<char>) -> Seq<char>;

/// `Debug` of `str` of the standard library, by `format!`: what it writes depends on the text
/// alone.
#[verifier::external_body]
fn quoted(s: &str) -> (r: String)
    ensures
        r@ == debug_quoted(s@),
{
    format!("{:?}", s)
}

/// How many nodes are neither in memory nor in the store.
pub open spec fn other_nodes(status: PagableStatus) -> nat {
    let rest = status.total_nodes - status.resident_count - status.paged_out_count;
    if rest < 0 {
        0
    } else {
        rest as nat
    }
}

/// The first line of the status report.
pub open spec fn status_head(status: PagableStatus) -> Seq<char> {
    "DICE hydration: "@ + decimal(status.total_nodes as nat) + " nodes ("@ + decimal(
        status.resident_count as nat,
    ) + " resident, "@ + decimal(status.paged_out_count as nat) + " paged out, "@ + decimal(
        other_nodes(status),
    ) + " other)\n"@
}

/// A line of the table of the status report.
pub open spec fn status_row(t: TypeStatus) -> Seq<char> {
    right_aligned(decimal(t.resident as nat), 12) + "  "@ + right_aligned(
        decimal(t.paged_out as nat),
        12,
    ) + "  "@ + t.key_type@ + "\n"@
}

/// The lines of the table of the status report.
pub open spec fn status_rows(rows: Seq<TypeStatus>) -> Seq<char>
    decreases rows.len(),
{
    if rows.len() == 0 {
        Seq::empty()
    } else {
        status_rows(rows.drop_last()) + status_row(rows.last())
    }
}

/// The status report: what there is in all, and a table by the types of the keys if there
/// are any.
pub open spec fn status_summary(status: PagableStatus) -> Seq<char> {
    if status.by_type@.len() == 0 {
        status_head(status)
    } else {
        status_head(status) + "\n    resident     paged-out  key type\n"@ + status_rows(
            status.by_type@,
        )
    }
}

/// Appends a number, right-aligned.
fn append_number(out: &mut String, n: u64, width: usize)
    ensures
        final(out)@ == old(out)@ + right_aligned(decimal(n as nat), width as nat),
{
    let text: String = decimal_string(n);
    append_right_aligned(out, text.as_str(), width);
}

/// Appends a line of the table of the status report.
fn append_status_row(out: &mut String, t: &TypeStatus)
    ensures
        final(out)@ == old(out)@ + status_row(*t),
{
    append_number(out, t.resident as u64, 12);
    out.append("  ");
    append_number(out, t.paged_out as u64, 12);
    out.append("  ");
    out.append(t.key_type.as_str());
    out.append("\n");
    assert(out@ =~= old(out)@ + status_row(*t));
}

/// The status report.
pub fn format_status_summary(status: &PagableStatus) -> (r: String)
    ensures
        r@ == status_summary(*status),
{
    let without_resident: usize = if status.total_nodes > status.resident_count {
        status.total_nodes - status.resident_count
    } else {
        0
    };
    let other: usize = if without_resident > status.paged_out_count {
        without_resident - status.paged_out_count
    } else {
        0
    };
    let mut out: String = String::from_str("DICE hydration: ");
    append_decimal(&mut out, status.total_nodes as u64);
    out.append(" nodes (");
    append_decimal(&mut out, status.resident_count as u64);
    out.append(" resident, ");
    append_decimal(&mut out, status.paged_out_count as u64);
    out.append(" paged out, ");
    append_decimal(&mut out, other as u64);
    out.append(" other)\n");
    if status.by_type.len() > 0 {
        out.append("\n    resident     paged-out  key type\n");
        let ghost head = out@;
        let mut i: usize = 0;
        assert(head + status_rows(status.by_type@.take(0)) =~= head);
        while i < status.by_type.len()
            invariant
                i <= status.by_type@.len(),
                out@ == head + status_rows(status.by_type@.take(i as int)),
            decreases status.by_type@.len() - i,
        {
            append_status_row(&mut out, &status.by_type[i]);
            proof {
                assert(status.by_type@.take(i + 1).drop_last() =~= status.by_type@.take(i as int));
                assert(out@ =~= head + status_rows(status.by_type@.take(i + 1)));
            }
            i += 1;
        }
        assert(status.by_type@.take(status.by_type@.len() as int) =~= status.by_type@);
    }
    out
}

/// The beginning of the report on strings. `percent` is the share of the bytes that are
/// wasted.
pub open spec fn dup_head(stats: DupStringStats, percent: Seq<char>) -> Seq<char> {
    "Frozen-heap strings: "@ + decimal(stats.heaps as nat) + " heaps, "@ + decimal(
        stats.total_strings as nat,
    ) + " strings, "@ + decimal(stats.total_bytes as nat) + " payload bytes\ndistinct:   "@
        + decimal(stats.distinct_strings as nat) + " strings, "@ + decimal(
        stats.distinct_bytes as nat,
    ) + " bytes\nduplicated: "@ + decimal(
        (stats.total_strings - stats.distinct_strings) as nat,
    ) + " copies, "@ + decimal((stats.total_bytes - stats.distinct_bytes) as nat) + " bytes ("@
        + percent + "% - the interning ceiling)\n"@
}

/// The first characters of a text, at most 60.
pub open spec fn first_60(s: Seq<char>) -> Seq<char> {
    if s.len() > 60 {
        s.take(60)
    } else {
        s
    }
}

/// A line of the table of the report on strings that shows the string as `shown`.
pub open spec fn dup_row_showing(t: DupStringStat, shown: Seq<char>) -> Seq<char> {
    right_aligned(decimal((t.len * (t.copies - 1)) as nat), 12) + "  "@ + right_aligned(
        decimal(t.copies as nat),
        8,
    ) + "  "@ + right_aligned(decimal(t.len as nat), 8) + "  "@ + shown + "\n"@
}

/// A line of the table of the report on strings: it shows the beginning of the string in
/// quotes.
pub open spec fn dup_row(t: DupStringStat) -> Seq<char> {
    dup_row_showing(t, debug_quoted(first_60(t.sample@)))
}

/// The lines of the table of the report on strings.
pub open spec fn dup_rows(rows: Seq<DupStringStat>) -> Seq<char>
    decreases rows.len(),
{
    if rows.len() == 0 {
        Seq::empty()
    } else {
        dup_rows(rows.drop_last()) + dup_row(rows.last())
    }
}

/// The report on strings: what there is in all, and a table of the worst offenders if there
/// are any.
pub open spec fn dup_summary(stats: DupStringStats, percent: Seq<char>) -> Seq<char> {
    if stats.top@.len() == 0 {
        dup_head(stats, percent)
    } else {
        dup_head(stats, percent) + "\n      wasted    copies       len  string\n"@ + dup_rows(
            stats.top@,
        )
    }
}

/// A line of the table of the report on strings that shows the string as `shown`.
pub fn dup_row_line(t: &DupStringStat, shown: &str) -> (r: String)
    requires
        t.copies >= 1,
        t.len * (t.copies - 1) <= usize::MAX,
    ensures
        r@ == dup_row_showing(*t, shown@),
{
    let mut out: String = String::new();
    append_number(&mut out, t.wasted_bytes() as u64, 12);
    out.append("  ");
    append_number(&mut out, t.copies as u64, 8);
    out.append("  ");
    append_number(&mut out, t.len as u64, 8);
    out.append("  ");
    out.append(shown);
    out.append("\n");
    assert(out@ =~= dup_row_showing(*t, shown@));
    out
}

/// Appends a line of the table of the report on strings.
fn append_dup_row(out: &mut String, t: &DupStringStat)
    requires
        t.copies >= 1,
        t.len * (t.copies - 1) <= usize::MAX,
    ensures
        final(out)@ == old(out)@ + dup_row(*t),
{
    let chars: Vec<char> = chars_of(t.sample.as_str());
    let end: usize = if chars.len() > 60 {
        60
    } else {
        chars.len()
    };
    let sample: String = string_of(&chars, 0, end);
    assert(sample@ =~= first_60(t.sample@));
    let shown: String = quoted(sample.as_str());
    let line: String = dup_row_line(t, shown.as_str());
    out.append(line.as_str());
}

/// The numbers whose ratio is the share of the bytes that are wasted, unless there are no
/// bytes at all, and nothing is wasted.
pub fn wasted_share(stats: &DupStringStats) -> (r: Option<(usize, usize)>)
    requires
        stats.distinct_bytes <= stats.total_bytes,
    ensures
        r == (if stats.total_bytes > 0 {
            Some(((stats.total_bytes - stats.distinct_bytes) as usize, stats.total_bytes))
        } else {
            None
        }),
{
    if stats.total_bytes > 0 {
        Some((stats.total_bytes - stats.distinct_bytes, stats.total_bytes))
    } else {
        None
    }
}

/// The report on strings. `percent` is the share of the bytes that are wasted, as a
/// percentage with one decimal.
pub fn format_dup_strings_summary(stats: &DupStringStats, percent: &str) -> (r: String)
    requires
        stats.distinct_strings <= stats.total_strings,
        stats.distinct_bytes <= stats.total_bytes,
        forall|i: int|
            #![trigger stats.top@[i]]
            0 <= i < stats.top@.len() ==> stats.top@[i].copies >= 1 && stats.top@[i].len * (
            stats.top@[i].copies - 1) <= usize::MAX,
    ensures
        r@ == dup_summary(*stats, percent@),
{
    let mut out: String = String::from_str("Frozen-heap strings: ");
    append_decimal(&mut out, stats.heaps as u64);
    out.append(" heaps, ");
    append_decimal(&mut out, stats.total_strings as u64);
    out.append(" strings, ");
    append_decimal(&mut out, stats.total_bytes as u64);
    out.append(" payload bytes\ndistinct:   ");
    append_decimal(&mut out, stats.distinct_strings as u64);
    out.append(" strings, ");
    append_decimal(&mut out, stats.distinct_bytes as u64);
    out.append(" bytes\nduplicated: ");
    append_decimal(&mut out, (stats.total_strings - stats.distinct_strings) as u64);
    out.append(" copies, ");
    append_decimal(&mut out, (stats.total_bytes - stats.distinct_bytes) as u64);
    out.append(" bytes (");
    out.append(percent);
    out.append("% - the interning ceiling)\n");
    assert(out@ == dup_head(*stats, percent@));
    if stats.top.len() > 0 {
        out.append("\n      wasted    copies       len  string\n");
        let ghost head = out@;
        let mut i: usize = 0;
        assert(head + dup_rows(stats.top@.take(0)) =~= head);
        while i < stats.top.len()
            invariant
                i <= stats.top@.len(),
                forall|j: int|
                    #![trigger stats.top@[j]]
                    0 <= j < stats.top@.len() ==> stats.top@[j].copies >= 1 && stats.top@[j].len * (
                    stats.top@[j].copies - 1) <= usize::MAX,
                out@ == head + dup_rows(stats.top@.take(i as int)),
            decreases stats.top@.len() - i,
        {
            append_dup_row(&mut out, &stats.top[i]);
            proof {
                assert(stats.top@.take(i + 1).drop_last() =~= stats.top@.take(i as int));
                assert(out@ =~= head + dup_rows(stats.top@.take(i + 1)));
            }
            i += 1;
        }
        assert(stats.top@.take(stats.top@.len() as int) =~= stats.top@);
    }
    out
}

/// The hydration command.
#[derive(Debug, Clone, Copy, PartialEq, Eq, Structural)]
pub struct HydrationServerCommand {
    pub subcommand: HydrationSubcommand,
}

/// What the environment says of the snapshot, as far as it is set and is text.
pub struct SnapshotEnv<'a> {
    pub path: Option<String>,
    pub seed: Option<&'a str>,
    /// The types of keys whose values do not go in.
    pub deny: Option<&'a str>,
}

/// What has happened.
pub enum HydrationEvent<'a> {
    /// The command was given.
    Begin,
    /// The values were paged out, or not.
    PagedOut { ok: bool },
    /// All evictions have been carried out.
    Drained,
    /// The freed memory was given back, or not.
    Purged { ok: bool, env: SnapshotEnv<'a> },
    /// The snapshot was saved, or not.
    Saved { ok: bool },
    /// The values were paged in, or not.
    PagedIn { ok: bool },
    /// The status was read.
    Status { status: &'a PagableStatus },
    /// The strings were counted, unless that failed. `percent` is the share of the bytes that
    /// are wasted, as a percentage with one decimal.
    Counted { stats: &'a DupStringStats, percent: &'a str },
    CountFailed,
}

/// What is to be done.
pub enum HydrationStep {
    PageOut,
    /// Wait until all evictions have been carried out.
    Drain,
    /// Give the freed memory back.
    Purge,
    SaveSnapshot { path: String, digest: [u8; 32], deny: Vec<String> },
    PageIn,
    ReadStatus,
    CountStrings { top_n: usize },
    /// The command is done.
    Respond { summary: Option<String> },
    /// The command failed with the error of the step before.
    Fail { tag: ErrorTag },
}

/// The end of a command without a report, or with the error of the step before.
pub open spec fn ends(step: HydrationStep, ok: bool, tag: ErrorTag) -> bool {
    if ok {
        step matches HydrationStep::Respond { summary } && summary is None
    } else {
        step == (HydrationStep::Fail { tag })
    }
}

/// Whether `step` is what is to be done once `event` has happened.
pub open spec fn follows(
    subcommand: HydrationSubcommand,
    event: HydrationEvent<'_>,
    revision: Option<&str>,
    step: HydrationStep,
) -> bool {
    match event {
        HydrationEvent::Begin => match subcommand {
            HydrationSubcommand::PageOut => step is PageOut,
            HydrationSubcommand::PageIn => step is PageIn,
            HydrationSubcommand::Status => step is ReadStatus,
            HydrationSubcommand::DupStrings => step == (HydrationStep::CountStrings {
                top_n: DUP_STRINGS_TOP,
            }),
        },
        HydrationEvent::PagedOut { ok } => if ok {
            step is Drain
        } else {
            ends(step, false, ErrorTag::Environment)
        },
        HydrationEvent::Drained => step is Purge,
        HydrationEvent::Purged { ok, env } => match env.path {
            Some(given) => if ok {
                step matches HydrationStep::SaveSnapshot { path, digest, deny } && path == given
                    && digest@ == blake3_digest(snapshot_input(revision, env.seed)) && texts(deny@)
                    == listed_names(
                    match env.deny {
                        Some(names) => names@,
                        None => DEFAULT_DENY@,
                    },
                )
            } else {
                ends(step, false, ErrorTag::Own)
            },
            None => ends(step, ok, ErrorTag::Own),
        },
        HydrationEvent::Saved { ok } => ends(step, ok, ErrorTag::Environment),
        HydrationEvent::PagedIn { ok } => ends(step, ok, ErrorTag::Environment),
        HydrationEvent::Status { status } => step matches HydrationStep::Respond { summary }
            && summary matches Some(text) && text@ == status_summary(*status),
        HydrationEvent::Counted { stats, percent } => step matches HydrationStep::Respond {
            summary,
        } && summary matches Some(text) && text@ == dup_summary(*stats, percent@),
        HydrationEvent::CountFailed => ends(step, false, ErrorTag::Tier0),
    }
}

impl HydrationServerCommand {
    /// The name under which the command excludes others. A report excludes none.
    pub fn exclusive_command_name(&self) -> (r: Option<String>)
        ensures
            match self.subcommand {
                HydrationSubcommand::PageOut | HydrationSubcommand::PageIn => r matches Some(name)
                    && name@ == "hydration"@,
                HydrationSubcommand::Status | HydrationSubcommand::DupStrings => r is None,
            },
    {
        match self.subcommand {
            HydrationSubcommand::PageOut | HydrationSubcommand::PageIn => Some(
                String::from_str("hydration"),
            ),
            HydrationSubcommand::Status | HydrationSubcommand::DupStrings => None,
        }
    }

    /// What is to be done once something has happened. Paging out is followed by waiting for
    /// the evictions, giving the memory back and, where there is a path for one, saving a
    /// snapshot, as long as each of them goes well.
    pub fn command(&self, event: HydrationEvent<'_>, revision: Option<&str>) -> (r: HydrationStep)
        requires
            event matches HydrationEvent::Counted { stats, .. } ==> {
                &&& stats.distinct_strings <= stats.total_strings
                &&& stats.distinct_bytes <= stats.total_bytes
                &&& forall|i: int|
                    #![trigger stats.top@[i]]
                    0 <= i < stats.top@.len() ==> stats.top@[i].copies >= 1 && stats.top@[i].len * (
                    stats.top@[i].copies - 1) <= usize::MAX
            },
        ensures
            follows(self.subcommand, event, revision, r),
    {
        match event {
            HydrationEvent::Begin => match self.subcommand {
                HydrationSubcommand::PageOut => HydrationStep::PageOut,
                HydrationSubcommand::PageIn => HydrationStep::PageIn,
                HydrationSubcommand::Status => HydrationStep::ReadStatus,
                HydrationSubcommand::DupStrings => HydrationStep::CountStrings {
                    top_n: DUP_STRINGS_TOP,
                },
            },
            HydrationEvent::PagedOut { ok } => if ok {
                HydrationStep::Drain
            } else {
                HydrationStep::Fail { tag: ErrorTag::Environment }
            },
            HydrationEvent::Drained => HydrationStep::Purge,
            HydrationEvent::Purged { ok, env } => {
                if !ok {
                    return HydrationStep::Fail { tag: ErrorTag::Own };
                }
                match dice_snapshot_env_config(env.path, revision, env.seed) {
                    Some((path, digest)) => {
                        let deny: Vec<String> = match env.deny {
                            Some(names) => split_names(names),
                            None => split_names(DEFAULT_DENY),
                        };
                        HydrationStep::SaveSnapshot { path, digest, deny }
                    },
                    None => HydrationStep::Respond { summary: None },
                }
            },
            HydrationEvent::Saved { ok } | HydrationEvent::PagedIn { ok } => if ok {
                HydrationStep::Respond { summary: None }
            } else {
                HydrationStep::Fail { tag: ErrorTag::Environment }
            },
            HydrationEvent::Status { status } => HydrationStep::Respond {
                summary: Some(format_status_summary(status)),
            },
            HydrationEvent::Counted { stats, percent } => HydrationStep::Respond {
                summary: Some(format_dup_strings_summary(stats, percent)),
            },
            HydrationEvent::CountFailed => HydrationStep::Fail { tag: ErrorTag::Tier0 },
        }
    }
}

/// A snapshot is saved only once memory was given back after paging out, and only where there
/// is a path for it.
pub proof fn law_snapshot_is_saved_last(
    subcommand: HydrationSubcommand,
    event: HydrationEvent<'_>,
    revision: Option<&str>,
    step: HydrationStep,
)
    requires
        follows(subcommand, event, revision, step),
        step is SaveSnapshot,
    ensures
        event matches HydrationEvent::Purged { ok, env } && ok && env.path is Some,
{
}

/// A failed step ends the command.
pub proof fn law_a_failure_ends_the_command(
    subcommand: HydrationSubcommand,
    event: HydrationEvent<'_>,
    revision: Option<&str>,
    step: HydrationStep,
)
    requires
        follows(subcommand, event, revision, step),
        match event {
            HydrationEvent::PagedOut { ok } => !ok,
            HydrationEvent::Purged { ok, .. } => !ok,
            HydrationEvent::Saved { ok } => !ok,
            HydrationEvent::PagedIn { ok } => !ok,
            HydrationEvent::CountFailed => true,
            _ => false,
        },
    ensures
        step is Fail,
{
}

/// A page-out that goes well pages out, waits for the evictions, gives memory back, and then saves
/// a snapshot just where there is a path for one, with the deny list that is given or the default
/// one; and it answers without a report.
pub proof fn law_a_page_out_runs_in_order(
    revision: Option<&str>,
    env: SnapshotEnv<'_>,
    step: HydrationStep,
)
    ensures
        follows(HydrationSubcommand::PageOut, HydrationEvent::Begin, revision, step)
            ==> step is PageOut,
        follows(
            HydrationSubcommand::PageOut,
            HydrationEvent::PagedOut { ok: true },
            revision,
            step,
        ) ==> step is Drain,
        follows(HydrationSubcommand::PageOut, HydrationEvent::Drained, revision, step)
            ==> step is Purge,
        follows(
            HydrationSubcommand::PageOut,
            HydrationEvent::Purged { ok: true, env },
            revision,
            step,
        ) ==> (step is SaveSnapshot <==> env.path is Some) && (step matches HydrationStep::SaveSnapshot {
            path,
            ..
        } ==> env.path == Some(path)) && (env.path is None ==> (step matches HydrationStep::Respond {
            summary,
        } && summary is None)),
        follows(
            HydrationSubcommand::PageOut,
            HydrationEvent::Saved { ok: true },
            revision,
            step,
        ) ==> (step matches HydrationStep::Respond { summary } && summary is None),
{
}

/// Every node is in memory, in the store, or counted as another.
pub proof fn law_every_node_is_reported_once(status: PagableStatus)
    ensures
        status.resident_count + status.paged_out_count <= status.total_nodes
            ==> status.resident_count + status.paged_out_count + other_nodes(status)
            == status.total_nodes,
        status.resident_count + status.paged_out_count >= status.total_nodes ==> other_nodes(status)
            == 0,
{
}

/// The lines of two tables, one behind the other, are the lines of the table of both.
proof fn lemma_status_rows(a: Seq<TypeStatus>, b: Seq<TypeStatus>)
    ensures
        status_rows(a + b) == status_rows(a) + status_rows(b),
    decreases b.len(),
{
    if b.len() == 0 {
        assert(a + b =~= a);
        assert(status_rows(a) + status_rows(b) =~= status_rows(a));
    } else {
        lemma_status_rows(a, b.drop_last());
        assert((a + b).drop_last() =~= a + b.drop_last());
        assert(status_rows(a + b) =~= status_rows(a) + status_rows(b));
    }
}

/// Every type has its line in the status report, behind those of the types before it; without types
/// there is but the first line.
pub proof fn law_every_type_has_a_line(status: PagableStatus, i: int)
    ensures
        status.by_type@.len() == 0 ==> status_summary(status) == status_head(status),
        0 <= i < status.by_type@.len() ==> status_summary(status) == status_head(status)
            + "\n    resident     paged-out  key type\n"@ + status_rows(status.by_type@.take(i))
            + status_row(status.by_type@[i]) + status_rows(status.by_type@.skip(i + 1)),
{
    let all = status.by_type@;
    if 0 <= i < all.len() {
        lemma_status_rows(all.take(i), seq![all[i]] + all.skip(i + 1));
        lemma_status_rows(seq![all[i]], all.skip(i + 1));
        assert(all.take(i) + (seq![all[i]] + all.skip(i + 1)) =~= all);
        assert(seq![all[i]].drop_last() =~= Seq::<TypeStatus>::empty());
        assert(status_rows(Seq::<TypeStatus>::empty()) =~= Seq::<char>::empty());
        assert(status_rows(seq![all[i]]) =~= status_row(all[i]));
        assert(status_summary(status) =~= status_head(status)
            + "\n    resident     paged-out  key type\n"@ + status_rows(all.take(i)) + status_row(
            all[i],
        ) + status_rows(all.skip(i + 1)));
    }
}

/// The columns of the status report: how many values are in memory and how many are not, at the
/// right of twelve places each, two spaces behind each, and then the type.
pub proof fn law_columns_of_the_status_report(t: TypeStatus)
    requires
        decimal(t.resident as nat).len() <= 12,
        decimal(t.paged_out as nat).len() <= 12,
    ensures
        ({
            let row = status_row(t);
            let (a, b) = (decimal(t.resident as nat), decimal(t.paged_out as nat));
            &&& row.len() == 29 + t.key_type@.len()
            &&& row.subrange(12 - a.len(), 12) == a
            &&& row.subrange(26 - b.len(), 26) == b
            &&& row.subrange(28, row.len() - 1) == t.key_type@
            &&& row.last() == '\n'
            &&& forall|i: int|
                #![trigger row[i]]
                0 <= i < 12 - a.len() || 12 <= i < 26 - b.len() || 26 <= i < 28 ==> row[i] == ' '
        }),
{
    reveal_strlit("  ");
    reveal_strlit("\n");
    let row = status_row(t);
    let (a, b) = (decimal(t.resident as nat), decimal(t.paged_out as nat));
    assert(row.subrange(12 - a.len(), 12) =~= a);
    assert(row.subrange(26 - b.len(), 26) =~= b);
    assert(row.subrange(28, row.len() - 1) =~= t.key_type@);
}

/// At most the first sixty characters of a text are shown, and all of a shorter one.
pub proof fn law_the_beginning_of_a_text_is_shown(s: Seq<char>)
    ensures
        s.len() <= 60 ==> first_60(s) == s,
        s.len() >= 60 ==> first_60(s).len() == 60,
        first_60(s) == s.take(first_60(s).len() as int),
{
    assert(s.take(s.len() as int) =~= s);
}

/// The lines of two tables, one behind the other, are the lines of the table of both.
proof fn lemma_dup_rows(a: Seq<DupStringStat>, b: Seq<DupStringStat>)
    ensures
        dup_rows(a + b) == dup_rows(a) + dup_rows(b),
    decreases b.len(),
{
    if b.len() == 0 {
        assert(a + b =~= a);
        assert(dup_rows(a) + dup_rows(b) =~= dup_rows(a));
    } else {
        lemma_dup_rows(a, b.drop_last());
        assert((a + b).drop_last() =~= a + b.drop_last());
        assert(dup_rows(a + b) =~= dup_rows(a) + dup_rows(b));
    }
}

/// Every offender has its line in the report on strings, behind those before it; without offenders
/// there is no table.
pub proof fn law_every_offender_has_a_line(stats: DupStringStats, percent: Seq<char>, i: int)
    ensures
        stats.top@.len() == 0 ==> dup_summary(stats, percent) == dup_head(stats, percent),
        0 <= i < stats.top@.len() ==> dup_summary(stats, percent) == dup_head(stats, percent)
            + "\n      wasted    copies       len  string\n"@ + dup_rows(stats.top@.take(i)) + dup_row(
            stats.top@[i],
        ) + dup_rows(stats.top@.skip(i + 1)),
{
    let all = stats.top@;
    if 0 <= i < all.len() {
        lemma_dup_rows(all.take(i), seq![all[i]] + all.skip(i + 1));
        lemma_dup_rows(seq![all[i]], all.skip(i + 1));
        assert(all.take(i) + (seq![all[i]] + all.skip(i + 1)) =~= all);
        assert(seq![all[i]].drop_last() =~= Seq::<DupStringStat>::empty());
        assert(dup_rows(Seq::<DupStringStat>::empty()) =~= Seq::<char>::empty());
        assert(dup_rows(seq![all[i]]) =~= dup_row(all[i]));
        assert(dup_summary(stats, percent) =~= dup_head(stats, percent)
            + "\n      wasted    copies       len  string\n"@ + dup_rows(all.take(i)) + dup_row(all[i])
            + dup_rows(all.skip(i + 1)));
    }
}

/// The columns of the report on strings: the bytes that one copy would save, the copies and the
/// length, at the right of twelve, eight and eight places, two spaces behind each, and then the
/// text.
pub proof fn law_columns_of_the_report_on_strings(t: DupStringStat, shown: Seq<char>, wasted: nat)
    requires
        wasted + t.len == t.len * t.copies,
        t.copies >= 1,
        decimal(wasted).len() <= 12,
        decimal(t.copies as nat).len() <= 8,
        decimal(t.len as nat).len() <= 8,
    ensures
        ({
            let row = dup_row_showing(t, shown);
            let (a, b, c) = (decimal(wasted), decimal(t.copies as nat), decimal(t.len as nat));
            &&& row.len() == 35 + shown.len()
            &&& row.subrange(12 - a.len(), 12) == a
            &&& row.subrange(22 - b.len(), 22) == b
            &&& row.subrange(32 - c.len(), 32) == c
            &&& row.subrange(34, row.len() - 1) == shown
            &&& row.last() == '\n'
            &&& forall|i: int|
                #![trigger row[i]]
                0 <= i < 12 - a.len() || 12 <= i < 22 - b.len() || 22 <= i < 32 - c.len() || 32 <= i
                    < 34 ==> row[i] == ' '
        }),
{
    reveal_strlit("  ");
    reveal_strlit("\n");
    let (n, m) = (t.len as int, t.copies as int);
    assert(n * (m - 1) == n * m - n) by (nonlinear_arith);
    let row = dup_row_showing(t, shown);
    let (a, b, c) = (decimal(wasted), decimal(t.copies as nat), decimal(t.len as nat));
    assert(row.subrange(12 - a.len(), 12) =~= a);
    assert(row.subrange(22 - b.len(), 22) =~= b);
    assert(row.subrange(32 - c.len(), 32) =~= c);
    assert(row.subrange(34, row.len() - 1) =~= shown);
}

/// What a snapshot leaves out where names are given: a type just where it is one of the names
/// between the commas, without the white space around it.
pub proof fn law_the_given_names_are_left_out(
    env: SnapshotEnv<'_>,
    revision: Option<&str>,
    step: HydrationStep,
    names: &str,
    name: Seq<char>,
)
    requires
        env.deny == Some(names),
        follows(
            HydrationSubcommand::PageOut,
            HydrationEvent::Purged { ok: true, env },
            revision,
            step,
        ),
    ensures
        step matches HydrationStep::SaveSnapshot { deny, .. } ==> (texts(deny@).contains(name)
            <==> exists|i: int|
            #![trigger pieces(names@, ',')[i]]
            0 <= i < pieces(names@, ',').len() && pieces(names@, ',')[i].len() > 0 && trimmed(
                pieces(names@, ',')[i],
            ) == name),
{
    law_names_are_the_pieces(names@, name);
}

/// Each command begins with what it is asked for. The report on strings is to name twenty of them
/// at most.
pub proof fn law_a_command_begins_with_what_is_asked(
    subcommand: HydrationSubcommand,
    revision: Option<&str>,
    step: HydrationStep,
)
    requires
        follows(subcommand, HydrationEvent::Begin, revision, step),
    ensures
        subcommand is PageOut <==> step is PageOut,
        subcommand is PageIn <==> step is PageIn,
        subcommand is Status <==> step is ReadStatus,
        subcommand is DupStrings <==> step is CountStrings,
        step matches HydrationStep::CountStrings { top_n } ==> top_n == 20,
{
}

/// How a failure is classified: one of paging or of saving is the environment's, one of counting is
/// the program's own, and one of giving memory back is as its error says. What goes well and comes
/// last is answered without a report.
pub proof fn law_how_failures_are_classified(
    subcommand: HydrationSubcommand,
    event: HydrationEvent<'_>,
    revision: Option<&str>,
    step: HydrationStep,
)
    requires
        follows(subcommand, event, revision, step),
    ensures
        step matches HydrationStep::Fail { tag } ==> match event {
            HydrationEvent::PagedOut { ok } => !ok && tag is Environment,
            HydrationEvent::PagedIn { ok } => !ok && tag is Environment,
            HydrationEvent::Saved { ok } => !ok && tag is Environment,
            HydrationEvent::Purged { ok, .. } => !ok && tag is Own,
            HydrationEvent::CountFailed => tag is Tier0,
            _ => false,
        },
        event matches HydrationEvent::PagedIn { ok } ==> (ok <==> step is Respond),
        event matches HydrationEvent::Saved { ok } ==> (ok <==> step is Respond),
        step matches HydrationStep::Respond { summary } ==> (summary is Some <==> event is Status
            || event is Counted),
{
}

} // verus!
