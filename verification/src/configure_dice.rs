//! How a build is configured: where its state is stored, whether a snapshot is loaded, and
//! when values are evicted to bound memory.
use vstd::prelude::*;
use vstd::string::*;
use vstd::utf8::encode_utf8;

use crate::pressure::PressureEvictStats;
use crate::text::{
    all_space, chars_of, decimal, is_digit, is_space, lemma_decimal, lemma_decimal_is_parsed,
    lemma_lowered_parsed, lemma_lowered_trimmed, lemma_trimmed, lemma_trimmed_again, listed_names,
    lower_char, lowered, parse_u64, parsed_u64, split_names, texts, trim_bounds, trimmed,
};

verus! {

/// The BLAKE3 digest of some bytes.
pub uninterp spec fn blake3_digest(bytes: Seq<u8>) -> Seq<u8>;

/// `blake3::Hasher`, given the bytes by one `update` and asked to `finalize`: the digest
/// depends on the bytes alone.
#[verifier::external_body]
fn blake3_hash(bytes: &[u8]) -> (r: [u8; 32])
    ensures
        r@ == blake3_digest(bytes@),
{
    let mut hasher = blake3::Hasher::new();
    hasher.update(bytes);
    *hasher.finalize().as_bytes()
}

/// What a snapshot's digest is made of: the revision of the program, `dev` where it has none,
/// a zero byte, and the seed, empty where there is none.
pub open spec fn snapshot_input(revision: Option<&str>, seed: Option<&str>) -> Seq<u8> {
    let name = match revision {
        Some(r) => r@,
        None => "dev"@,
    };
    let more = match seed {
        Some(s) => encode_utf8(s@),
        None => Seq::empty(),
    };
    encode_utf8(name).push(0u8) + more
}

/// Appends the bytes of a text.
fn append_bytes(out: &mut Vec<u8>, text: &str)
    ensures
        final(out)@ == old(out)@ + encode_utf8(text@),
{
    let bytes: &[u8] = text.as_bytes();
    let mut i: usize = 0;
    while i < bytes.len()
        invariant
            i <= bytes@.len(),
            out@ =~= old(out)@ + bytes@.take(i as int),
        decreases bytes@.len() - i,
    {
        out.push(bytes[i]);
        i += 1;
    }
    assert(bytes@.take(bytes@.len() as int) =~= bytes@);
}

/// What a snapshot's digest is made of.
pub fn snapshot_digest_input(revision: Option<&str>, seed: Option<&str>) -> (r: Vec<u8>)
    ensures
        r@ == snapshot_input(revision, seed),
{
    let mut out: Vec<u8> = Vec::new();
    match revision {
        Some(r) => append_bytes(&mut out, r),
        None => append_bytes(&mut out, "dev"),
    }
    proof {
        let name = match revision {
            Some(r) => r@,
            None => "dev"@,
        };
        assert(out@ =~= encode_utf8(name));
    }
    out.push(0);
    match seed {
        Some(s) => append_bytes(&mut out, s),
        None => {
            assert(out@ + Seq::<u8>::empty() =~= out@);
        },
    }
    out
}

/// Where the snapshot is, if there is to be one, and the digest of what it depends on. A
/// snapshot with another digest is not used.
pub fn dice_snapshot_env_config(
    path: Option<String>,
    revision: Option<&str>,
    seed: Option<&str>,
) -> (r: Option<(String, [u8; 32])>)
    ensures
        match path {
            Some(given) => r matches Some((at, digest)) && at == given && digest@ == blake3_digest(
                snapshot_input(revision, seed),
            ),
            None => r is None,
        },
{
    match path {
        Some(at) => {
            let input: Vec<u8> = snapshot_digest_input(revision, seed);
            Some((at, blake3_hash(input.as_slice())))
        },
        None => None,
    }
}

/// What the digest is made of tells revisions and seeds apart, where no revision holds a zero
/// byte.
pub proof fn law_digest_input_is_unambiguous(
    revision: &str,
    seed: &str,
    other_revision: &str,
    other_seed: &str,
)
    requires
        !encode_utf8(revision@).contains(0u8),
        !encode_utf8(other_revision@).contains(0u8),
        snapshot_input(Some(revision), Some(seed)) == snapshot_input(
            Some(other_revision),
            Some(other_seed),
        ),
    ensures
        revision@ == other_revision@,
        seed@ == other_seed@,
{
    let (a, b) = (encode_utf8(revision@), encode_utf8(other_revision@));
    let (c, d) = (encode_utf8(seed@), encode_utf8(other_seed@));
    let (x, y) = (a.push(0u8) + c, b.push(0u8) + d);
    if a.len() < b.len() {
        assert(x[a.len() as int] == 0);
        assert(y[a.len() as int] == b[a.len() as int]);
        assert(b.contains(b[a.len() as int]));
    }
    if b.len() < a.len() {
        assert(y[b.len() as int] == 0);
        assert(x[b.len() as int] == a[b.len() as int]);
        assert(a.contains(a[b.len() as int]));
    }
    assert(a =~= x.take(a.len() as int));
    assert(b =~= y.take(b.len() as int));
    assert(c =~= x.skip(a.len() as int + 1));
    assert(d =~= y.skip(b.len() as int + 1));
    vstd::utf8::encode_utf8_decode_utf8(revision@);
    vstd::utf8::encode_utf8_decode_utf8(other_revision@);
    vstd::utf8::encode_utf8_decode_utf8(seed@);
    vstd::utf8::encode_utf8_decode_utf8(other_seed@);
}

/// How many bytes the unit that a letter stands for has.
pub open spec fn unit(c: char) -> Option<u64> {
    if c == 'K' || c == 'k' {
        Some(0x400)
    } else if c == 'M' || c == 'm' {
        Some(0x10_0000)
    } else if c == 'G' || c == 'g' {
        Some(0x4000_0000)
    } else {
        None
    }
}

/// The size that a text gives: a number, and behind it a unit or none, with white space
/// around each. None if there is no number or the size does not fit.
pub open spec fn byte_size(s: Seq<char>) -> Option<u64> {
    let t = trimmed(s);
    if t.len() == 0 {
        None
    } else {
        let (number, factor) = match unit(t.last()) {
            Some(factor) => (t.drop_last(), factor),
            None => (t, 1u64),
        };
        match parsed_u64(trimmed(number)) {
            Some(n) => if n * factor <= u64::MAX {
                Some((n * factor) as u64)
            } else {
                None
            },
            None => None,
        }
    }
}

/// The size in bytes that a text gives.
pub fn parse_byte_size(s: &str) -> (r: Option<u64>)
    ensures
        r == byte_size(s@),
{
    let v: Vec<char> = chars_of(s);
    let (from, to) = trim_bounds(&v, 0, v.len());
    let ghost t = v@.subrange(from as int, to as int);
    proof {
        assert(v@.subrange(0, v@.len() as int) =~= v@);
    }
    if from == to {
        return None;
    }
    let c: char = v[to - 1];
    assert(c == t.last());
    assert(v@.subrange(from as int, to - 1) =~= t.drop_last());
    let (end, factor): (usize, u64) = if c == 'K' || c == 'k' {
        (to - 1, 0x400)
    } else if c == 'M' || c == 'm' {
        (to - 1, 0x10_0000)
    } else if c == 'G' || c == 'g' {
        (to - 1, 0x4000_0000)
    } else {
        (to, 1)
    };
    let (lo, hi) = trim_bounds(&v, from, end);
    match parse_u64(&v, lo, hi) {
        Some(n) => n.checked_mul(factor),
        None => None,
    }
}

/// Whether a text is a unit that stands for the given factor, or nothing, which stands for one.
pub open spec fn is_suffix(suffix: Seq<char>, factor: u64) -> bool {
    ||| suffix.len() == 0 && factor == 1
    ||| suffix.len() == 1 && unit(suffix[0]) == Some(factor)
}

/// A number that is written out, with a unit or none behind it and white space around each,
/// gives the number times the unit, or nothing where that does not fit.
pub proof fn law_written_sizes_are_read(
    before: Seq<char>,
    n: u64,
    between: Seq<char>,
    suffix: Seq<char>,
    factor: u64,
    behind: Seq<char>,
)
    requires
        all_space(before),
        all_space(between),
        all_space(behind),
        is_suffix(suffix, factor),
    ensures
        byte_size(before + decimal(n as nat) + between + suffix + behind) == (if n * factor
            <= u64::MAX {
            Some((n * factor) as u64)
        } else {
            None::<u64>
        }),
{
    let number = decimal(n as nat);
    let s = before + number + between + suffix + behind;
    lemma_decimal(n as nat);
    lemma_decimal_is_parsed(n);
    let none = Seq::<char>::empty();
    assert(is_digit(number[0]) && is_digit(number[number.len() - 1]));
    if suffix.len() == 0 {
        let space = between + behind;
        assert(all_space(space)) by {
            assert forall|i: int| #![trigger space[i]] 0 <= i < space.len() implies is_space(
                space[i],
            ) by {
                if i < between.len() {
                    assert(space[i] == between[i]);
                } else {
                    assert(space[i] == behind[i - between.len()]);
                }
            }
        }
        assert(s =~= before + number + space);
        lemma_trimmed(before, number, space);
        assert(unit(number.last()) is None);
        lemma_trimmed(none, number, none);
        assert(none + number + none =~= number);
    } else {
        let t = number + between + suffix;
        assert(t.last() == suffix[0]);
        assert(t[0] == number[0]);
        assert(s =~= before + t + behind);
        lemma_trimmed(before, t, behind);
        assert(t.drop_last() =~= none + number + between);
        lemma_trimmed(none, number, between);
    }
}

/// The white space around a size and the case of its unit have no say.
pub proof fn law_case_and_outer_space_have_no_say(s: Seq<char>)
    ensures
        byte_size(lowered(s)) == byte_size(s),
        byte_size(trimmed(s)) == byte_size(s),
{
    lemma_trimmed_again(s);
    lemma_lowered_trimmed(s);
    let t = trimmed(s);
    if t.len() > 0 {
        let c = t.last();
        assert(lowered(t).last() == lower_char(c));
        assert(unit(lower_char(c)) == unit(c));
        let number = match unit(c) {
            Some(_) => t.drop_last(),
            None => t,
        };
        assert(lowered(t).drop_last() =~= lowered(t.drop_last()));
        lemma_lowered_trimmed(number);
        lemma_lowered_parsed(trimmed(number));
    }
}

/// The watermarks that the texts give: above the first eviction starts, below the second it ends.
/// The second is three quarters of the first, rounded down, unless it is given. None if the first
/// is not given or they leave no room between them.
pub open spec fn watermarks(high: Option<&str>, low: Option<&str>) -> Option<(u64, u64)> {
    let high_size = match high {
        Some(h) => byte_size(h@),
        None => None,
    };
    let low_size = match low {
        Some(l) => byte_size(l@),
        None => None,
    };
    match high_size {
        Some(h) => {
            let l = match low_size {
                Some(l) => l,
                None => (h * 3 / 4) as u64,
            };
            if l < h {
                Some((h, l))
            } else {
                None
            }
        },
        None => None,
    }
}

/// The watermarks that the texts give.
pub fn dice_evict_watermarks_env(high: Option<&str>, low: Option<&str>) -> (r: Option<(u64, u64)>)
    ensures
        r == watermarks(high, low),
{
    let high: u64 = match high {
        Some(text) => match parse_byte_size(text) {
            Some(h) => h,
            None => {
                return None;
            },
        },
        None => {
            return None;
        },
    };
    let given: Option<u64> = match low {
        Some(text) => parse_byte_size(text),
        None => None,
    };
    let low: u64 = match given {
        Some(l) => l,
        None => high / 4 * 3 + high % 4 * 3 / 4,
    };
    if low >= high {
        return None;
    }
    Some((high, low))
}

/// Watermarks always leave room between them, so that eviction does not start again where it
/// has just ended.
pub proof fn law_watermarks_leave_a_gap(high: Option<&str>, low: Option<&str>)
    ensures
        watermarks(high, low) matches Some((h, l)) ==> l < h,
{
}

/// The number that a text gives, or `default` where it gives none.
pub fn env_u64(value: Option<&str>, default: u64) -> (r: u64)
    ensures
        r == (match value {
            Some(text) => match parsed_u64(text@) {
                Some(n) => n,
                None => default,
            },
            None => default,
        }),
{
    match value {
        Some(text) => {
            let v: Vec<char> = chars_of(text);
            assert(v@.subrange(0, v@.len() as int) =~= v@);
            match parse_u64(&v, 0, v.len()) {
                Some(n) => n,
                None => default,
            }
        },
        None => default,
    }
}

/// How values are evicted to bound memory.
#[derive(Debug, PartialEq, Eq)]
pub struct EvictorConfig {
    /// Above this many resident bytes eviction starts.
    pub high: u64,
    /// Below this many it ends.
    pub low: u64,
    /// How many seconds pass between measurements.
    pub poll_secs: u64,
    /// How many values are evicted at a time.
    pub chunk: usize,
    /// The types of keys whose values may be evicted.
    pub allowed: Vec<String>,
}

/// The configuration that the texts give for the given watermarks: a measurement every ten
/// seconds, chunks of 4096 values, and the values of `AnalysisKey`, unless they say
/// otherwise.
pub fn evictor_config(
    high: u64,
    low: u64,
    poll_secs: Option<&str>,
    chunk: Option<&str>,
    allow: Option<&str>,
) -> (r: EvictorConfig)
    ensures
        r.high == high,
        r.low == low,
        r.poll_secs == (match poll_secs {
            Some(text) => match parsed_u64(text@) {
                Some(n) => n,
                None => 10,
            },
            None => 10,
        }),
        r.chunk == (match chunk {
            Some(text) => match parsed_u64(text@) {
                Some(n) => if n <= usize::MAX {
                    n as usize
                } else {
                    4096
                },
                None => 4096,
            },
            None => 4096,
        }),
        texts(r.allowed@) == listed_names(
            match allow {
                Some(text) => text@,
                None => "AnalysisKey"@,
            },
        ),
{
    let wanted: u64 = env_u64(chunk, 4096);
    let chunk: usize = if wanted <= usize::MAX as u64 {
        wanted as usize
    } else {
        4096
    };
    let allowed: Vec<String> = match allow {
        Some(text) => split_names(text),
        None => split_names("AnalysisKey"),
    };
    EvictorConfig { high, low, poll_secs: env_u64(poll_secs, 10), chunk, allowed }
}

/// What the evictor does next.
#[derive(Debug, Clone, Copy, PartialEq, Eq, Structural)]
pub enum EvictorAction {
    /// End: there is nothing left to watch.
    Stop,
    /// Sleep for the polling interval times the back-off, then measure.
    Sleep,
    /// Evict a chunk, give the freed memory back, and measure.
    Evict,
}

/// The evictor between two actions.
#[derive(Debug, Clone, Copy, PartialEq, Eq, Structural)]
pub struct Evictor {
    /// By how much the polling interval is stretched. While memory is short and nothing can
    /// be evicted, each measurement costs a walk of the graph for nothing.
    pub idle_backoff: u32,
    /// The resident bytes that were measured last.
    pub rss: u64,
}

impl Evictor {
    /// Whether the back-off is one that occurs.
    pub open spec fn wf(self) -> bool {
        self.idle_backoff == 1 || self.idle_backoff == 2 || self.idle_backoff == 4
            || self.idle_backoff == 8
    }

    /// The evictor before its first sleep.
    pub fn new() -> (r: Evictor)
        ensures
            r.wf(),
            r == (Evictor { idle_backoff: 1, rss: 0 }),
    {
        Evictor { idle_backoff: 1, rss: 0 }
    }

    /// What follows a sleep, after which it is known whether what is watched is still there
    /// and how many bytes are resident, if that could be measured.
    pub open spec fn after_sleep(self, high: u64, alive: bool, rss: Option<u64>) -> (
        Evictor,
        EvictorAction,
    ) {
        if !alive {
            (self, EvictorAction::Stop)
        } else {
            match rss {
                None => (self, EvictorAction::Sleep),
                Some(n) => if n <= high {
                    (Evictor { idle_backoff: 1, ..self }, EvictorAction::Sleep)
                } else {
                    (Evictor { rss: n, ..self }, EvictorAction::Evict)
                },
            }
        }
    }

    /// What follows the eviction of a chunk, unless it failed, and a measurement, if there
    /// was one. It ends when nothing was selected, when memory is short no more, and when
    /// nothing was gained.
    pub open spec fn after_eviction(
        self,
        low: u64,
        stats: Option<PressureEvictStats>,
        rss: Option<u64>,
    ) -> (Evictor, EvictorAction) {
        let now = match rss {
            Some(n) => n,
            None => self.rss,
        };
        match stats {
            None => (self, EvictorAction::Sleep),
            Some(done) => if done.selected == 0 {
                let idle_backoff = if self.idle_backoff < 8 {
                    (self.idle_backoff * 2) as u32
                } else {
                    8
                };
                (Evictor { idle_backoff, ..self }, EvictorAction::Sleep)
            } else if now <= low || now >= self.rss {
                (Evictor { idle_backoff: 1, ..self }, EvictorAction::Sleep)
            } else {
                (Evictor { idle_backoff: 1, rss: now }, EvictorAction::Evict)
            },
        }
    }

    /// How many seconds the evictor sleeps: the polling interval times the back-off.
    pub open spec fn sleep(self, poll_secs: u64) -> int {
        poll_secs * self.idle_backoff
    }

    /// How many seconds the evictor sleeps, unless that is more than can be counted.
    pub fn sleep_secs(&self, config: &EvictorConfig) -> (r: Option<u64>)
        ensures
            r == (if self.sleep(config.poll_secs) <= u64::MAX {
                Some(self.sleep(config.poll_secs) as u64)
            } else {
                None
            }),
    {
        config.poll_secs.checked_mul(self.idle_backoff as u64)
    }

    /// What follows a sleep.
    pub fn woke(&mut self, config: &EvictorConfig, alive: bool, rss: Option<u64>) -> (r:
        EvictorAction)
        requires
            old(self).wf(),
        ensures
            final(self).wf(),
            (*final(self), r) == old(self).after_sleep(config.high, alive, rss),
    {
        if !alive {
            return EvictorAction::Stop;
        }
        match rss {
            None => EvictorAction::Sleep,
            Some(n) => {
                if n <= config.high {
                    self.idle_backoff = 1;
                    EvictorAction::Sleep
                } else {
                    self.rss = n;
                    EvictorAction::Evict
                }
            },
        }
    }

    /// What follows the eviction of a chunk.
    pub fn evicted(
        &mut self,
        config: &EvictorConfig,
        stats: Option<PressureEvictStats>,
        rss: Option<u64>,
    ) -> (r: EvictorAction)
        requires
            old(self).wf(),
        ensures
            final(self).wf(),
            (*final(self), r) == old(self).after_eviction(config.low, stats, rss),
    {
        match stats {
            None => EvictorAction::Sleep,
            Some(done) => {
                let now: u64 = match rss {
                    Some(n) => n,
                    None => self.rss,
                };
                if done.selected == 0 {
                    let doubled: u32 = self.idle_backoff * 2;
                    self.idle_backoff = if doubled < 8 {
                        doubled
                    } else {
                        8
                    };
                    return EvictorAction::Sleep;
                }
                self.idle_backoff = 1;
                if now <= config.low || now >= self.rss {
                    return EvictorAction::Sleep;
                }
                self.rss = now;
                EvictorAction::Evict
            },
        }
    }
}

/// The evictor after rounds of eviction with the given outcomes, if each of them called for
/// another.
pub open spec fn after_rounds(
    start: Evictor,
    low: u64,
    outcomes: Seq<(Option<PressureEvictStats>, Option<u64>)>,
) -> Option<Evictor>
    decreases outcomes.len(),
{
    if outcomes.len() == 0 {
        Some(start)
    } else {
        match after_rounds(start, low, outcomes.drop_last()) {
            Some(before) => {
                let (after, action) = before.after_eviction(
                    low,
                    outcomes.last().0,
                    outcomes.last().1,
                );
                if action is Evict {
                    Some(after)
                } else {
                    None
                }
            },
            None => None,
        }
    }
}

/// Eviction comes to an end: every round that calls for another has gained at least a byte
/// and not yet reached the lower watermark.
pub proof fn law_eviction_comes_to_an_end(
    start: Evictor,
    low: u64,
    outcomes: Seq<(Option<PressureEvictStats>, Option<u64>)>,
)
    ensures
        after_rounds(start, low, outcomes) matches Some(end) ==> end.rss + outcomes.len()
            <= start.rss && (outcomes.len() > 0 ==> low < end.rss),
    decreases outcomes.len(),
{
    if outcomes.len() > 0 {
        law_eviction_comes_to_an_end(start, low, outcomes.drop_last());
    }
}

/// The evictor sleeps for the polling interval at first. Each time nothing could be selected it
/// sleeps twice as long as before, up to eight intervals; once memory is not short, or something
/// could be selected, for one interval again; after a failure, or without a measurement, as long
/// as before.
pub proof fn law_sleep_follows_what_can_be_evicted(
    evictor: Evictor,
    config: EvictorConfig,
    stats: PressureEvictStats,
    rss: Option<u64>,
)
    requires
        evictor.wf(),
    ensures
        (Evictor { idle_backoff: 1, rss: 0 }).sleep(config.poll_secs) == config.poll_secs,
        stats.selected == 0 ==> evictor.after_eviction(config.low, Some(stats), rss).0.sleep(
            config.poll_secs,
        ) == (if 2 * evictor.sleep(config.poll_secs) < 8 * config.poll_secs {
            2 * evictor.sleep(config.poll_secs)
        } else {
            8 * config.poll_secs
        }),
        stats.selected > 0 ==> evictor.after_eviction(config.low, Some(stats), rss).0.sleep(
            config.poll_secs,
        ) == config.poll_secs,
        evictor.after_eviction(config.low, None, rss).0.sleep(config.poll_secs) == evictor.sleep(
            config.poll_secs,
        ),
        evictor.after_sleep(config.high, true, rss).0.sleep(config.poll_secs) == (if rss matches Some(
            n,
        ) && n <= config.high {
            config.poll_secs as int
        } else {
            evictor.sleep(config.poll_secs)
        }),
        evictor.after_sleep(config.high, false, rss).1 is Stop,
{
    let (p, b) = (config.poll_secs as int, evictor.idle_backoff as int);
    assert(p * 1 == p && p * 2 == 2 * p && p * 4 == 4 * p && p * 8 == 8 * p);
}

/// Eviction starts only above the higher watermark.
pub proof fn law_eviction_starts_above_the_mark(
    evictor: Evictor,
    high: u64,
    alive: bool,
    rss: Option<u64>,
)
    ensures
        evictor.after_sleep(high, alive, rss).1 is Evict <==> alive && (rss matches Some(n) && n
            > high),
{
}

/// How cycles are dealt with.
#[derive(Debug, Clone, Copy, PartialEq, Eq, Structural)]
pub enum DetectCycles {
    Enabled,
    Disabled,
}

/// Where the path of the store comes from.
#[derive(Debug, Clone, Copy, PartialEq, Eq, Structural)]
pub enum DbSource {
    /// The environment, which comes first.
    Environment,
    /// The caller.
    Given,
}

/// Whether cycles are detected: as the caller says, else as the configuration says, else they
/// are. A configuration that cannot be read is an error, unless the caller says.
pub fn resolve_detect_cycles<E>(
    given: Option<DetectCycles>,
    configured: Option<Result<Option<DetectCycles>, E>>,
) -> (r: Result<DetectCycles, E>)
    ensures
        r == (match given {
            Some(d) => Ok::<DetectCycles, E>(d),
            None => match configured {
                None => Ok(DetectCycles::Enabled),
                Some(Ok(None)) => Ok(DetectCycles::Enabled),
                Some(Ok(Some(d))) => Ok(d),
                Some(Err(e)) => Err(e),
            },
        }),
{
    match given {
        Some(d) => Ok(d),
        None => match configured {
            None => Ok(DetectCycles::Enabled),
            Some(Ok(None)) => Ok(DetectCycles::Enabled),
            Some(Ok(Some(d))) => Ok(d),
            Some(Err(e)) => Err(e),
        },
    }
}

/// What a build is to be configured with.
#[derive(Debug, PartialEq, Eq)]
pub struct ConfigurePlan {
    pub detect_cycles: DetectCycles,
    pub invalidation_tracking: bool,
    /// Where the store is, if there is to be one.
    pub storage: Option<DbSource>,
    /// Where the snapshot is, if there is to be one, and the digest of what it depends on.
    pub snapshot: Option<(String, [u8; 32])>,
    /// How values are evicted, if they are.
    pub evictor: Option<EvictorConfig>,
}

/// What the environment says, as far as it is set and is text.
pub struct DiceEnv<'a> {
    /// Whether there is a path for the store, be it text or not.
    pub db_path_set: bool,
    pub db_path: Option<&'a str>,
    pub snapshot_path: Option<String>,
    pub snapshot_seed: Option<&'a str>,
    pub evict_high: Option<&'a str>,
    pub evict_low: Option<&'a str>,
    pub evict_poll_secs: Option<&'a str>,
    pub evict_chunk: Option<&'a str>,
    pub evict_allow: Option<&'a str>,
}

/// What is to be configured. The settings come from the caller and from the configuration,
/// where there is one; `rollout` tells whether invalidations are tracked, if that is
/// configured. A snapshot needs a store besides its own path. Eviction needs a store that the
/// environment names, and watermarks.
pub fn configure_dice_for_buck<E>(
    detect_cycles: Option<DetectCycles>,
    configured_cycles: Option<Result<Option<DetectCycles>, E>>,
    rollout: Option<Result<Option<bool>, E>>,
    state_path_given: bool,
    revision: Option<&str>,
    env: DiceEnv<'_>,
) -> (r: Result<ConfigurePlan, E>)
    ensures
        match (detect_cycles, configured_cycles, rollout) {
            (None, Some(Err(e)), _) => r == Err::<ConfigurePlan, E>(e),
            (_, _, Some(Err(e))) => r == Err::<ConfigurePlan, E>(e),
            _ => r matches Ok(plan) && {
                &&& plan.detect_cycles == (match (detect_cycles, configured_cycles) {
                    (Some(d), _) => d,
                    (None, Some(Ok(Some(d)))) => d,
                    _ => DetectCycles::Enabled,
                })
                &&& plan.invalidation_tracking == (rollout matches Some(Ok(Some(rolled))) && rolled)
                &&& plan.storage == (if env.db_path_set {
                    Some(DbSource::Environment)
                } else if state_path_given {
                    Some(DbSource::Given)
                } else {
                    None
                })
                &&& plan.snapshot is Some <==> plan.storage is Some && env.snapshot_path is Some
                &&& plan.snapshot matches Some((at, digest)) ==> env.snapshot_path == Some(at)
                    && digest@ == blake3_digest(snapshot_input(revision, env.snapshot_seed))
                &&& plan.evictor is Some <==> env.db_path is Some && watermarks(
                    env.evict_high,
                    env.evict_low,
                ) is Some
                &&& plan.evictor matches Some(config) ==> {
                    &&& Some((config.high, config.low)) == watermarks(env.evict_high, env.evict_low)
                    &&& config.poll_secs == (match env.evict_poll_secs {
                        Some(text) => match parsed_u64(text@) {
                            Some(n) => n,
                            None => 10,
                        },
                        None => 10,
                    })
                    &&& config.chunk == (match env.evict_chunk {
                        Some(text) => match parsed_u64(text@) {
                            Some(n) => if n <= usize::MAX {
                                n as usize
                            } else {
                                4096
                            },
                            None => 4096,
                        },
                        None => 4096,
                    })
                    &&& texts(config.allowed@) == listed_names(
                        match env.evict_allow {
                            Some(text) => text@,
                            None => "AnalysisKey"@,
                        },
                    )
                }
            },
        },
{
    let detect_cycles: DetectCycles = match resolve_detect_cycles(detect_cycles, configured_cycles) {
        Ok(d) => d,
        Err(e) => {
            return Err(e);
        },
    };
    let invalidation_tracking: bool = match rollout {
        Some(Ok(Some(rolled))) => rolled,
        Some(Err(e)) => {
            return Err(e);
        },
        _ => false,
    };
    let storage: Option<DbSource> = if env.db_path_set {
        Some(DbSource::Environment)
    } else if state_path_given {
        Some(DbSource::Given)
    } else {
        None
    };
    let snapshot: Option<(String, [u8; 32])> = match storage {
        Some(_) => dice_snapshot_env_config(env.snapshot_path, revision, env.snapshot_seed),
        None => None,
    };
    let evictor: Option<EvictorConfig> = match env.db_path {
        Some(_) => match dice_evict_watermarks_env(env.evict_high, env.evict_low) {
            Some((high, low)) => Some(
                evictor_config(high, low, env.evict_poll_secs, env.evict_chunk, env.evict_allow),
            ),
            None => None,
        },
        None => None,
    };
    Ok(ConfigurePlan { detect_cycles, invalidation_tracking, storage, snapshot, evictor })
}

/// One thing after the other, of what is done to configure a build.
#[derive(Debug, Clone, Copy, PartialEq, Eq, Structural)]
pub enum ConfigureStep {
    /// Nothing has been done yet.
    Begin,
    OpenStorage,
    Build,
    LoadSnapshot,
    /// Set the injected keys that every command expects to nothing.
    SeedNone,
    ArmEvictor,
    Done,
}

/// How a failure is classified.
#[derive(Debug, Clone, Copy, PartialEq, Eq, Structural)]
pub enum ErrorTag {
    /// Something around the program is at fault.
    Environment,
    /// The program itself is at fault.
    Tier0,
    /// As the error itself says.
    Own,
}

impl ConfigurePlan {
    /// What is done after a step that went well.
    pub open spec fn after(self, step: ConfigureStep, loaded: bool) -> ConfigureStep {
        match step {
            ConfigureStep::Begin => if self.storage is Some {
                ConfigureStep::OpenStorage
            } else {
                ConfigureStep::Build
            },
            ConfigureStep::OpenStorage => ConfigureStep::Build,
            ConfigureStep::Build => if self.snapshot is Some {
                ConfigureStep::LoadSnapshot
            } else {
                ConfigureStep::SeedNone
            },
            ConfigureStep::LoadSnapshot if !loaded => ConfigureStep::SeedNone,
            ConfigureStep::LoadSnapshot | ConfigureStep::SeedNone => if self.evictor is Some {
                ConfigureStep::ArmEvictor
            } else {
                ConfigureStep::Done
            },
            ConfigureStep::ArmEvictor | ConfigureStep::Done => ConfigureStep::Done,
        }
    }

    /// What is done after a step that went well. `loaded` tells whether the step loaded a
    /// snapshot.
    pub fn next(&self, step: ConfigureStep, loaded: bool) -> (r: ConfigureStep)
        ensures
            r == self.after(step, loaded),
    {
        match step {
            ConfigureStep::Begin => match self.storage {
                Some(_) => ConfigureStep::OpenStorage,
                None => ConfigureStep::Build,
            },
            ConfigureStep::OpenStorage => ConfigureStep::Build,
            ConfigureStep::Build => match self.snapshot {
                Some(_) => ConfigureStep::LoadSnapshot,
                None => ConfigureStep::SeedNone,
            },
            ConfigureStep::LoadSnapshot | ConfigureStep::SeedNone => {
                if step == ConfigureStep::LoadSnapshot && !loaded {
                    return ConfigureStep::SeedNone;
                }
                match self.evictor {
                    Some(_) => ConfigureStep::ArmEvictor,
                    None => ConfigureStep::Done,
                }
            },
            ConfigureStep::ArmEvictor | ConfigureStep::Done => ConfigureStep::Done,
        }
    }
}

/// How a failure of a step is classified.
pub fn configure_error_tag(step: ConfigureStep) -> (r: ErrorTag)
    ensures
        r == (if step is OpenStorage || step is LoadSnapshot {
            ErrorTag::Environment
        } else {
            ErrorTag::Own
        }),
{
    match step {
        ConfigureStep::OpenStorage | ConfigureStep::LoadSnapshot => ErrorTag::Environment,
        _ => ErrorTag::Own,
    }
}

/// The injected keys are set to nothing exactly where no snapshot was loaded: after a load
/// that would dirty what was loaded.
pub proof fn law_seeding_and_loading_exclude_each_other(
    plan: ConfigurePlan,
    step: ConfigureStep,
    loaded: bool,
)
    ensures
        plan.after(ConfigureStep::LoadSnapshot, true) != ConfigureStep::SeedNone,
        plan.after(ConfigureStep::LoadSnapshot, false) == ConfigureStep::SeedNone,
        plan.snapshot is None ==> plan.after(ConfigureStep::Build, loaded)
            == ConfigureStep::SeedNone,
        plan.after(step, loaded) == ConfigureStep::LoadSnapshot ==> step == ConfigureStep::Build,
{
}

/// The higher watermark is the size that is given for it. The lower one is the size that is given,
/// or three quarters of the higher one, rounded down, where none is. There are none just where the
/// higher one is not given as a size or the lower one does not lie below it.
pub proof fn law_watermarks_are_as_given_or_three_quarters(
    high: Option<&str>,
    low: Option<&str>,
    h: u64,
)
    requires
        high matches Some(text) && byte_size(text@) == Some(h),
    ensures
        watermarks(high, low) matches Some((a, b)) ==> a == h && match low {
            Some(text) => match byte_size(text@) {
                Some(l) => b == l,
                None => 4 * b <= 3 * h < 4 * b + 4,
            },
            None => 4 * b <= 3 * h < 4 * b + 4,
        },
        watermarks(high, low) is None <==> match low {
            Some(text) => match byte_size(text@) {
                Some(l) => l >= h,
                None => h == 0,
            },
            None => h == 0,
        },
{
}

/// Eviction goes on after a chunk just where something was selected and memory was gained but is
/// still short.
pub proof fn law_eviction_goes_on_while_it_gains(
    evictor: Evictor,
    low: u64,
    stats: Option<PressureEvictStats>,
    rss: Option<u64>,
)
    ensures
        evictor.after_eviction(low, stats, rss).1 is Evict <==> (stats matches Some(done)
            && done.selected > 0) && (rss matches Some(now) && low < now < evictor.rss),
        evictor.after_eviction(low, stats, rss).1 is Evict ==> evictor.after_eviction(
            low,
            stats,
            rss,
        ).0.rss == rss->0,
        !(evictor.after_eviction(low, stats, rss).1 is Stop),
{
}

/// How far a step is.
pub open spec fn progress(step: ConfigureStep) -> int {
    match step {
        ConfigureStep::Begin => 0,
        ConfigureStep::OpenStorage => 1,
        ConfigureStep::Build => 2,
        ConfigureStep::LoadSnapshot => 3,
        ConfigureStep::SeedNone => 4,
        ConfigureStep::ArmEvictor => 5,
        ConfigureStep::Done => 6,
    }
}

/// Configuration goes forward until it is done. The build is never passed over; the store is opened
/// and the evictor armed just where they are planned; a snapshot is loaded just where one is
/// planned.
pub proof fn law_configuration_goes_forward(
    plan: ConfigurePlan,
    step: ConfigureStep,
    loaded: bool,
)
    ensures
        ({
            let next = plan.after(step, loaded);
            &&& step != ConfigureStep::Done ==> progress(step) < progress(next)
            &&& progress(step) < progress(ConfigureStep::Build) ==> progress(next) <= progress(
                ConfigureStep::Build,
            )
            &&& step == ConfigureStep::Begin ==> (next == ConfigureStep::OpenStorage
                <==> plan.storage is Some)
            &&& step == ConfigureStep::Build ==> (next == ConfigureStep::LoadSnapshot
                <==> plan.snapshot is Some)
            &&& progress(step) < progress(ConfigureStep::ArmEvictor) && progress(next) >= progress(
                ConfigureStep::ArmEvictor,
            ) ==> (next == ConfigureStep::ArmEvictor <==> plan.evictor is Some)
        }),
{
}

/// `K` stands for 1024, `M` for 1024 times as much and `G` for 1024 times as much again, and so do
/// the small letters; a number without a unit is a number of bytes.
pub proof fn law_units_are_powers_of_1024(n: u64)
    ensures
        byte_size(decimal(n as nat)) == Some(n),
        forall|c: char|
            #![trigger decimal(n as nat).push(c)]
            c == 'K' || c == 'k' ==> (byte_size(decimal(n as nat).push(c)) matches Some(size) ==> size
                == n * 1024) && (byte_size(decimal(n as nat).push(c)) is Some <==> n * 1024
                <= u64::MAX),
        forall|c: char|
            #![trigger decimal(n as nat).push(c)]
            c == 'M' || c == 'm' ==> (byte_size(decimal(n as nat).push(c)) matches Some(size) ==> size
                == n * 1024 * 1024) && (byte_size(decimal(n as nat).push(c)) is Some <==> n * 1024
                * 1024 <= u64::MAX),
        forall|c: char|
            #![trigger decimal(n as nat).push(c)]
            c == 'G' || c == 'g' ==> (byte_size(decimal(n as nat).push(c)) matches Some(size) ==> size
                == n * 1024 * 1024 * 1024) && (byte_size(decimal(n as nat).push(c)) is Some <==> n
                * 1024 * 1024 * 1024 <= u64::MAX),
{
    let none = Seq::<char>::empty();
    let number = decimal(n as nat);
    law_written_sizes_are_read(none, n, none, none, 1, none);
    assert(none + number + none + none + none =~= number);
    assert forall|c: char| #![trigger number.push(c)] unit(c) is Some implies byte_size(number.push(c))
        == (if n * unit(c)->0 <= u64::MAX {
        Some((n * unit(c)->0) as u64)
    } else {
        None::<u64>
    }) by {
        law_written_sizes_are_read(none, n, none, seq![c], unit(c)->0, none);
        assert(none + number + none + seq![c] + none =~= number.push(c));
    }
    assert(n * 0x10_0000 == n * 1024 * 1024);
    assert(n * 0x4000_0000 == n * 1024 * 1024 * 1024);
}

/// A number with something behind it that is no unit, no digit and no white space is no size.
pub proof fn law_other_letters_are_no_units(n: u64, c: char)
    requires
        !is_space(c),
        !('0' <= c <= '9'),
        c != 'K' && c != 'k' && c != 'M' && c != 'm' && c != 'G' && c != 'g',
    ensures
        byte_size(decimal(n as nat).push(c)) is None,
{
    let none = Seq::<char>::empty();
    let number = decimal(n as nat);
    let s = number.push(c);
    lemma_decimal(n as nat);
    assert(s[0] == number[0]);
    lemma_trimmed(none, s, none);
    assert(none + s + none =~= s);
    assert(s[s.len() - 1] == c);
}

/// A program without a revision is taken for one with the revision `dev`, and one without a seed
/// for one with an empty seed.
pub proof fn law_a_missing_revision_is_dev(revision: Option<&str>, seed: Option<&str>)
    ensures
        snapshot_input(None, seed) == snapshot_input(Some("dev"), seed),
        snapshot_input(revision, None) == snapshot_input(revision, Some("")),
{
    reveal_strlit("");
    assert(""@ =~= Seq::<char>::empty());
    assert(encode_utf8(""@) =~= Seq::<u8>::empty());
}

} // verus!
