//! HLS playlists as plain values: segment selection for a time window,
//! byte-range resolution and variant choice. Times are in microseconds.

use vstd::prelude::*;
use crate::error::ServiceError;

verus! {

/// A byte range as a playlist writes it: a length and, unless it continues
/// the previous range, a start offset.
#[derive(Clone, Copy, Debug, PartialEq, Eq, Structural)]
pub struct ByteRangeSpec {
    pub start: Option<usize>,
    pub length: usize,
}

/// A byte range `[start, end)` with both ends known.
#[derive(Clone, Copy, Debug, PartialEq, Eq, Structural)]
pub struct ResolvedByteRange {
    pub start: usize,
    pub end: usize,
}

/// An initialization section: its URI and optional byte range.
pub struct MapSpec {
    pub uri: String,
    pub byte_range: Option<ByteRangeSpec>,
}

/// One media segment of a playlist.
pub struct PlaylistSegment {
    pub uri: String,
    pub duration_us: u64,
    pub byte_range: Option<ByteRangeSpec>,
    pub map: Option<MapSpec>,
    /// Whether the segment carries key attributes.
    pub encrypted: bool,
}

/// A resolved initialization section.
pub struct MapSelection {
    pub url: String,
    pub byte_range: Option<ResolvedByteRange>,
}

/// A segment chosen for a clip, with its URL resolved and its start time.
pub struct SegmentSelection {
    pub url: String,
    pub byte_range: Option<ResolvedByteRange>,
    pub start_time_us: u64,
    pub map: Option<MapSelection>,
    pub encrypted: bool,
}

/// The most segments one clip reads.
pub const MAX_SEGMENTS: usize = 128;

/// What joining `target` onto the URL `base` gives, if both parse.
pub uninterp spec fn url_join(base: Seq<char>, target: Seq<char>) -> Option<Seq<char>>;

/// Relies on `url::Url::parse` for the base and `url::Url::join` for the
/// target: the joined URL, serialized, when both succeed.
#[verifier::external_body]
pub(crate) fn resolve_url(base: &str, target: &str) -> (r: Option<String>)
    ensures
        match r {
            Some(s) => url_join(base@, target@) == Some(s@),
            None => url_join(base@, target@) is None,
        },
{
    let parsed = match url::Url::parse(base) {
        Ok(b) => b,
        Err(_) => return None,
    };
    match parsed.join(target) {
        Ok(u) => Some(String::from(u)),
        Err(_) => None,
    }
}

/// A range of `length` bytes from `start` can be fetched: it has bytes,
/// and its end fits an offset.
pub open spec fn span_ok(start: usize, length: usize) -> bool {
    length > 0 && start + length <= usize::MAX
}

/// The range of `length` bytes from `start` (meaningful when `span_ok`).
pub open spec fn span(start: usize, length: usize) -> ResolvedByteRange {
    ResolvedByteRange { start, end: (start + length) as usize }
}

fn span_exec(start: usize, length: usize) -> (r: Option<ResolvedByteRange>)
    ensures
        r == (if span_ok(start, length) {
            Some(span(start, length))
        } else {
            None
        }),
{
    if length == 0 || length > usize::MAX - start {
        None
    } else {
        Some(ResolvedByteRange { start, end: start + length })
    }
}

/// Every range that resolves ends after its start.
pub proof fn lemma_span_non_empty(start: usize, length: usize)
    requires
        span_ok(start, length),
    ensures
        span(start, length).end > span(start, length).start,
        span(start, length).end == start + length,
{
}

/// Where a range written as `range` starts, after a range that ended at
/// `last_end`: at its own start, else where the previous one ended, else 0.
pub open spec fn start_after(range: ByteRangeSpec, last_end: Option<usize>) -> usize {
    match range.start {
        Some(s) => s,
        None => match last_end {
            Some(e) => e,
            None => 0,
        },
    }
}

/// A continuation range starts where the previous range ended (0 when
/// there was none) and spans its length from there; `last_end` then holds
/// this range's end. A range without bytes, or whose end would pass the
/// largest offset, does not resolve, and `last_end` is left alone.
pub fn resolve_range_from_ext_byte_range(range: ByteRangeSpec, last_end: &mut Option<usize>) -> (r:
    Option<ResolvedByteRange>)
    ensures
        ({
            let s = start_after(range, *old(last_end));
            if span_ok(s, range.length) {
                &&& r == Some(span(s, range.length))
                &&& *final(last_end) == Some(span(s, range.length).end)
            } else {
                &&& r is None
                &&& *final(last_end) == *old(last_end)
            }
        }),
        r matches Some(b) ==> b.end > b.start,
{
    let start = match range.start {
        Some(s) => s,
        None => match *last_end {
            Some(e) => e,
            None => 0,
        },
    };
    let r = span_exec(start, range.length);
    match r {
        Some(b) => {
            *last_end = Some(b.end);
        },
        None => {},
    }
    r
}

/// An initialization section's range; a missing start is 0. It does not
/// resolve when it has no bytes or its end would pass the largest offset.
pub fn resolve_range_from_byte_range(range: ByteRangeSpec) -> (r: Option<ResolvedByteRange>)
    ensures
        r == (if span_ok(start_after(range, None), range.length) {
            Some(plain_range(range))
        } else {
            None
        }),
        r matches Some(b) ==> b.end > b.start,
{
    let start = match range.start {
        Some(s) => s,
        None => 0,
    };
    span_exec(start, range.length)
}

pub open spec fn plain_range(range: ByteRangeSpec) -> ResolvedByteRange {
    span(start_after(range, None), range.length)
}

/// `a + b`, or the largest `u64` when that overflows.
pub open spec fn sat_add(a: u64, b: u64) -> u64 {
    if a + b > u64::MAX {
        u64::MAX
    } else {
        (a + b) as u64
    }
}

/// When segment `i` starts: the durations of the segments before it, summed.
pub open spec fn start_time(segs: Seq<PlaylistSegment>, i: int) -> u64
    decreases i,
{
    if i <= 0 {
        0
    } else {
        sat_add(start_time(segs, i - 1), segs[i - 1].duration_us)
    }
}

/// The end of the range of the segment before `i`, which a continuation
/// range of segment `i` starts from.
pub open spec fn continuation_end(segs: Seq<PlaylistSegment>, i: int) -> Option<usize>
    decreases i, 0int,
{
    if i <= 0 {
        None
    } else {
        match resolved_range(segs, i - 1) {
            Some(r) => Some(r.end),
            None => None,
        }
    }
}

/// The resolved byte range of segment `i`: from its start, or from where
/// the previous range ended, over its length.
pub open spec fn resolved_range(segs: Seq<PlaylistSegment>, i: int) -> Option<ResolvedByteRange>
    decreases i, 1int,
{
    if i < 0 || i >= segs.len() {
        None
    } else {
        match segs[i].byte_range {
            None => None,
            Some(r) => Some(span(start_after(r, continuation_end(segs, i)), r.length)),
        }
    }
}

/// The initialization section in force at segment `i`: the last one
/// declared at or before it.
pub open spec fn map_in_force(segs: Seq<PlaylistSegment>, i: int) -> Option<MapSpec>
    decreases i,
{
    if i < 0 || i >= segs.len() {
        None
    } else if segs[i].map is Some {
        segs[i].map
    } else if i == 0 {
        None
    } else {
        map_in_force(segs, i - 1)
    }
}

/// A URL that resolved, as characters.
pub open spec fn joined(base: Seq<char>, target: Seq<char>) -> Seq<char> {
    match url_join(base, target) {
        Some(u) => u,
        None => Seq::empty(),
    }
}

/// A segment selection as plain values.
pub struct SelModel {
    pub url: Seq<char>,
    pub byte_range: Option<ResolvedByteRange>,
    pub start_time_us: u64,
    pub map: Option<(Seq<char>, Option<ResolvedByteRange>)>,
    pub encrypted: bool,
}

pub open spec fn sel_view(s: SegmentSelection) -> SelModel {
    SelModel {
        url: s.url@,
        byte_range: s.byte_range,
        start_time_us: s.start_time_us,
        map: match s.map {
            Some(m) => Some((m.url@, m.byte_range)),
            None => None,
        },
        encrypted: s.encrypted,
    }
}

/// The selection of segment `i`.
pub open spec fn sel_model(segs: Seq<PlaylistSegment>, base: Seq<char>, i: int) -> SelModel {
    SelModel {
        url: joined(base, segs[i].uri@),
        byte_range: resolved_range(segs, i),
        start_time_us: start_time(segs, i),
        map: match map_in_force(segs, i) {
            Some(m) => Some(
                (
                    joined(base, m.uri@),
                    match m.byte_range {
                        Some(r) => Some(plain_range(r)),
                        None => None,
                    },
                ),
            ),
            None => None,
        },
        encrypted: segs[i].encrypted,
    }
}

/// What stops segment `j` from being read, checked in this order: its
/// initialization section's URL does not resolve, that section's range does
/// not resolve, its own range does not resolve, its URL does not resolve.
pub open spec fn problem_at(segs: Seq<PlaylistSegment>, base: Seq<char>, j: int) -> Option<
    ServiceError,
> {
    let seg = segs[j];
    if seg.map matches Some(m) && url_join(base, m.uri@) is None {
        Some(ServiceError::InvalidUrl)
    } else if seg.map matches Some(m) && (m.byte_range matches Some(b) && !span_ok(
        start_after(b, None),
        b.length,
    )) {
        Some(ServiceError::InvalidRange)
    } else if seg.byte_range matches Some(b) && !span_ok(
        start_after(b, continuation_end(segs, j)),
        b.length,
    ) {
        Some(ServiceError::InvalidRange)
    } else if url_join(base, seg.uri@) is None {
        Some(ServiceError::InvalidUrl)
    } else {
        None
    }
}

/// The first problem among the first `n` segments.
pub open spec fn first_problem(segs: Seq<PlaylistSegment>, base: Seq<char>, n: int) -> Option<
    ServiceError,
>
    decreases n,
{
    if n <= 0 {
        None
    } else {
        match first_problem(segs, base, n - 1) {
            Some(e) => Some(e),
            None => problem_at(segs, base, n - 1),
        }
    }
}

/// A problem at a segment that selection reads is the answer, as long as
/// no earlier segment had one.
proof fn lemma_fail_at(segs: Seq<PlaylistSegment>, base: Seq<char>, i: int, start: u64, end: u64)
    requires
        0 <= i < segs.len(),
        first_problem(segs, base, i) is None,
        problem_at(segs, base, i) is Some,
        scan_limit(segs, end, 0) == scan_limit(segs, end, i),
        i < segments_read(segs, start, end),
    ensures
        first_problem(segs, base, segments_read(segs, start, end)) == problem_at(segs, base, i),
{
    lemma_first_problem_stays(segs, base, i + 1, segments_read(segs, start, end));
}

proof fn lemma_first_problem_stays(segs: Seq<PlaylistSegment>, base: Seq<char>, n: int, m: int)
    requires
        0 <= n <= m,
        first_problem(segs, base, n) is Some,
    ensures
        first_problem(segs, base, m) == first_problem(segs, base, n),
    decreases m - n,
{
    if n < m {
        lemma_first_problem_stays(segs, base, n, m - 1);
    }
}

/// Every range of a selection ends after its start.
pub open spec fn ranges_non_empty(s: SelModel) -> bool {
    &&& s.byte_range matches Some(b) ==> b.end > b.start
    &&& s.map matches Some(m) ==> (m.1 matches Some(b) ==> b.end > b.start)
}

/// Segment `i` overlaps the window: it ends at or after `start` and starts
/// at or before `end`.
pub open spec fn overlaps(segs: Seq<PlaylistSegment>, i: int, start: u64, end: u64) -> bool {
    start_time(segs, i + 1) >= start && start_time(segs, i) <= end
}

/// The segments are read from `i` on until one ends after `end`; the
/// number read up to then.
pub open spec fn scan_limit(segs: Seq<PlaylistSegment>, end: u64, i: int) -> int
    decreases segs.len() - i,
{
    if i < 0 || i >= segs.len() {
        segs.len() as int
    } else if start_time(segs, i + 1) > end {
        i + 1
    } else {
        scan_limit(segs, end, i + 1)
    }
}

/// The first segment read from `i` on that overlaps the window.
pub open spec fn first_overlap(segs: Seq<PlaylistSegment>, start: u64, end: u64, i: int) -> Option<
    int,
>
    decreases segs.len() - i,
{
    if i < 0 || i >= segs.len() {
        None
    } else if overlaps(segs, i, start, end) {
        Some(i)
    } else if start_time(segs, i + 1) > end {
        None
    } else {
        first_overlap(segs, start, end, i + 1)
    }
}

/// The selected segments are those from `lo` up to `hi`: from the first
/// overlapping one, preceded by its predecessor when it has one, through
/// the last one read, at most 128.
pub open spec fn selection_bounds(segs: Seq<PlaylistSegment>, start: u64, end: u64) -> (int, int) {
    match first_overlap(segs, start, end, 0) {
        None => (0, 0),
        Some(f) => {
            let lo = if f > 0 {
                f - 1
            } else {
                f
            };
            let lim = scan_limit(segs, end, 0);
            (lo, if lim < lo + 128 {
                lim
            } else {
                lo + 128
            })
        },
    }
}

/// How many segments selection reads (and resolves the URLs of).
pub open spec fn segments_read(segs: Seq<PlaylistSegment>, start: u64, end: u64) -> int {
    match first_overlap(segs, start, end, 0) {
        None => scan_limit(segs, end, 0),
        Some(_) => selection_bounds(segs, start, end).1,
    }
}

proof fn lemma_scan_limit(segs: Seq<PlaylistSegment>, end: u64, i: int)
    requires
        0 <= i < segs.len(),
    ensures
        i + 1 <= scan_limit(segs, end, i) <= segs.len(),
    decreases segs.len() - i,
{
    if start_time(segs, i + 1) <= end {
        if i + 1 < segs.len() {
            lemma_scan_limit(segs, end, i + 1);
        } else {
            assert(scan_limit(segs, end, i + 1) == segs.len());
        }
    }
}

proof fn lemma_first_overlap(segs: Seq<PlaylistSegment>, start: u64, end: u64, i: int)
    requires
        0 <= i,
    ensures
        first_overlap(segs, start, end, i) matches Some(f) ==> i <= f < scan_limit(segs, end, i)
            && overlaps(segs, f, start, end) && scan_limit(segs, end, f) == scan_limit(segs, end, i),
    decreases segs.len() - i,
{
    if i < segs.len() {
        lemma_scan_limit(segs, end, i);
        if !overlaps(segs, i, start, end) && start_time(segs, i + 1) <= end {
            lemma_first_overlap(segs, start, end, i + 1);
        }
    }
}

proof fn lemma_start_time_monotone(segs: Seq<PlaylistSegment>, i: int, j: int)
    requires
        0 <= i <= j,
    ensures
        start_time(segs, i) <= start_time(segs, j),
    decreases j - i,
{
    if i < j {
        lemma_start_time_monotone(segs, i, j - 1);
    }
}

fn copy_map(m: &Option<MapSelection>) -> (r: Option<MapSelection>)
    ensures
        map_view(r) == map_view(*m),
{
    match m {
        Some(x) => Some(MapSelection { url: x.url.clone(), byte_range: x.byte_range }),
        None => None,
    }
}

pub open spec fn map_view(m: Option<MapSelection>) -> Option<(Seq<char>, Option<ResolvedByteRange>)> {
    match m {
        Some(x) => Some((x.url@, x.byte_range)),
        None => None,
    }
}

fn copy_selection(s: &SegmentSelection) -> (r: SegmentSelection)
    ensures
        sel_view(r) == sel_view(*s),
{
    SegmentSelection {
        url: s.url.clone(),
        byte_range: s.byte_range,
        start_time_us: s.start_time_us,
        map: copy_map(&s.map),
        encrypted: s.encrypted,
    }
}

/// The selections of segments `lo` up to `lo + n`.
pub open spec fn selected(segs: Seq<PlaylistSegment>, base: Seq<char>, lo: int, n: int) -> Seq<SelModel> {
    Seq::new(n as nat, |k: int| sel_model(segs, base, lo + k))
}

/// Chooses the segments that cover the window `[start, end]` (in
/// microseconds), resolving URLs against `base_url`. The choice is the
/// contiguous run of `selection_bounds`. It fails with the first problem
/// among the segments it reads (a URL that does not resolve, `InvalidUrl`,
/// or a byte range without bytes or past the largest offset,
/// `InvalidRange`), and otherwise every range it returns ends after its
/// start.
pub fn select_segments(segments: &Vec<PlaylistSegment>, base_url: &str, start: u64, end: u64) -> (r:
    Result<Vec<SegmentSelection>, ServiceError>)
    ensures
        ({
            let segs = segments@;
            let (lo, hi) = selection_bounds(segs, start, end);
            match first_problem(segs, base_url@, segments_read(segs, start, end)) {
                Some(e) => r == Err::<Vec<SegmentSelection>, ServiceError>(e),
                None => r matches Ok(sel) && sel@.map_values(|x: SegmentSelection| sel_view(x))
                    == selected(segs, base_url@, lo, hi - lo),
            }
        }),
        r matches Ok(sel) ==> forall|k: int|
            0 <= k < sel@.len() ==> ranges_non_empty(#[trigger] sel_view(sel@[k])),
{
    let ghost segs = segments@;
    let ghost base = base_url@;
    let mut selections: Vec<SegmentSelection> = Vec::new();
    let mut cursor: u64 = 0;
    let mut last_map: Option<MapSelection> = None;
    let mut last_end: Option<usize> = None;
    let mut previous: Option<SegmentSelection> = None;
    let ghost mut lo: int = 0;
    let mut i: usize = 0;
    while i < segments.len()
        invariant
            segs == segments@,
            base == base_url@,
            i <= segs.len(),
            cursor == start_time(segs, i as int),
            cursor <= end,
            last_end == continuation_end(segs, i as int),
            map_view(last_map) == (if i == 0 {
                None
            } else {
                sel_model(segs, base, i - 1).map
            }),
            i == 0 ==> previous is None,
            i > 0 ==> (previous matches Some(p) && sel_view(p) == sel_model(segs, base, i - 1)
                && ranges_non_empty(sel_view(p))),
            last_map matches Some(m) ==> (m.byte_range matches Some(b) ==> b.end > b.start),
            forall|k: int|
                0 <= k < selections@.len() ==> ranges_non_empty(#[trigger] sel_view(selections@[k])),
            first_problem(segs, base, i as int) is None,
            scan_limit(segs, end, 0) == scan_limit(segs, end, i as int),
            selections@.len() == 0 ==> first_overlap(segs, start, end, 0) == first_overlap(
                segs,
                start,
                end,
                i as int,
            ),
            selections@.len() > 0 ==> {
                &&& first_overlap(segs, start, end, 0) matches Some(f)
                &&& f < i
                &&& lo == (if f > 0 { f - 1 } else { f })
                &&& selections@.len() == i - lo
                &&& i - lo < 128
                &&& start_time(segs, i as int) >= start
            },
            selections@.map_values(|x: SegmentSelection| sel_view(x)) == selected(
                segs,
                base,
                lo,
                selections@.len() as int,
            ),
        decreases segs.len() - i,
    {
        let seg = &segments[i];
        proof {
            lemma_scan_limit(segs, end, i as int);
            lemma_first_overlap(segs, start, end, i as int);
        }
        match &seg.map {
            Some(m) => {
                match resolve_url(base_url, m.uri.as_str()) {
                    Some(url) => {
                        let byte_range = match m.byte_range {
                            Some(br) => match resolve_range_from_byte_range(br) {
                                Some(b) => Some(b),
                                None => {
                                    proof {
                                        self::lemma_fail_at(segs, base, i as int, start, end);
                                    }
                                    return Err(ServiceError::InvalidRange);
                                },
                            },
                            None => None,
                        };
                        last_map = Some(MapSelection { url, byte_range });
                    },
                    None => {
                        proof {
                            self::lemma_fail_at(segs, base, i as int, start, end);
                        }
                        return Err(ServiceError::InvalidUrl);
                    },
                }
            },
            None => {},
        }
        let seg_start = cursor;
        let dur = seg.duration_us;
        let seg_end = if dur > u64::MAX - cursor {
            u64::MAX
        } else {
            cursor + dur
        };
        let byte_range = match seg.byte_range {
            Some(br) => match resolve_range_from_ext_byte_range(br, &mut last_end) {
                Some(b) => Some(b),
                None => {
                    proof {
                        self::lemma_fail_at(segs, base, i as int, start, end);
                    }
                    return Err(ServiceError::InvalidRange);
                },
            },
            None => {
                last_end = None;
                None
            },
        };
        let url = match resolve_url(base_url, seg.uri.as_str()) {
            Some(u) => u,
            None => {
                proof {
                    self::lemma_fail_at(segs, base, i as int, start, end);
                }
                return Err(ServiceError::InvalidUrl);
            },
        };
        let selection = SegmentSelection {
            url,
            byte_range,
            start_time_us: seg_start,
            map: copy_map(&last_map),
            encrypted: seg.encrypted,
        };
        proof {
            assert(sel_view(selection) == sel_model(segs, base, i as int));
            assert(problem_at(segs, base, i as int) is None);
            assert(first_problem(segs, base, i + 1) is None);
        }
        if seg_end >= start && seg_start <= end {
            let ghost before = selections@.map_values(|x: SegmentSelection| sel_view(x));
            if selections.len() == 0 {
                proof {
                    lo = if i > 0 {
                        i - 1
                    } else {
                        i as int
                    };
                }
                match previous.take() {
                    Some(p) => {
                        proof {
                            assert(sel_view(p) == sel_model(segs, base, i - 1));
                        }
                        selections.push(p);
                        proof {
                            assert(selections@.map_values(|x: SegmentSelection| sel_view(x))
                                =~= selected(segs, base, lo, i - lo));
                        }
                    },
                    None => {
                        proof {
                            assert(selections@.map_values(|x: SegmentSelection| sel_view(x))
                                =~= selected(segs, base, lo, i - lo));
                        }
                    },
                }
                proof {
                    assert(first_overlap(segs, start, end, i as int) == Some(i as int));
                    assert(first_overlap(segs, start, end, 0) == Some(i as int));
                }
            }
            let ghost mid = selections@.map_values(|x: SegmentSelection| sel_view(x));
            selections.push(copy_selection(&selection));
            proof {
                if before.len() > 0 {
                    assert(before == selected(segs, base, lo, before.len() as int));
                    assert(before.len() == i - lo);
                    assert(mid == before);
                }
                assert(mid == selected(segs, base, lo, i - lo));
                let last = selections@[selections@.len() - 1];
                assert(sel_view(last) == sel_model(segs, base, i as int));
                assert(selections@.map_values(|x: SegmentSelection| sel_view(x)) =~= mid.push(
                    sel_view(last),
                ));
                assert(selected(segs, base, lo, i + 1 - lo) =~= selected(segs, base, lo, i - lo).push(
                    sel_model(segs, base, i as int),
                ));
                assert(selections@.map_values(|x: SegmentSelection| sel_view(x)) =~= selected(
                    segs,
                    base,
                    lo,
                    i + 1 - lo,
                ));
            }
            if selections.len() >= MAX_SEGMENTS {
                proof {
                    assert(lo + 128 == i + 1);
                    assert(selection_bounds(segs, start, end) == (lo, i + 1));
                    assert(segments_read(segs, start, end) == i + 1);
                }
                return Ok(selections);
            }
        }
        previous = Some(selection);
        cursor = seg_end;
        if cursor > end {
            proof {
                assert(scan_limit(segs, end, i as int) == i + 1);
                if selections@.len() == 0 {
                    assert(first_overlap(segs, start, end, i as int) is None);
                } else {
                    assert(selections@.len() == i + 1 - lo);
                    assert(selection_bounds(segs, start, end) == (lo, i + 1));
                }
            }
            return Ok(selections);
        }
        proof {
            if i + 1 < segs.len() {
                assert(scan_limit(segs, end, i as int) == scan_limit(segs, end, i + 1));
            }
            if selections@.len() == 0 {
                assert(first_overlap(segs, start, end, i as int) == first_overlap(
                    segs,
                    start,
                    end,
                    i + 1,
                ));
            }
        }
        i = i + 1;
    }
    Ok(selections)
}

/// The selection is one contiguous run of the playlist's segments, in
/// playlist order; when it starts with a segment that does not overlap the
/// window, that segment immediately precedes the first one that does; and
/// the first overlapping segment is always included, preceded by its
/// predecessor whenever it has one.
pub proof fn lemma_selection_contiguous(segs: Seq<PlaylistSegment>, start: u64, end: u64)
    ensures
        ({
            let (lo, hi) = selection_bounds(segs, start, end);
            &&& 0 <= lo <= hi <= segs.len()
            &&& first_overlap(segs, start, end, 0) matches Some(f) ==> {
                &&& lo <= f < hi
                &&& overlaps(segs, f, start, end)
                &&& (f > 0 ==> lo == f - 1)
                &&& (f == 0 ==> lo == 0)
                &&& forall|j: int| 0 <= j < f ==> !overlaps(segs, j, start, end)
            }
            &&& first_overlap(segs, start, end, 0) is None ==> lo == hi
        }),
{
    lemma_first_overlap(segs, start, end, 0);
    if segs.len() > 0 {
        lemma_scan_limit(segs, end, 0);
    }
    match first_overlap(segs, start, end, 0) {
        Some(f) => {
            assert forall|j: int| 0 <= j < f implies !overlaps(segs, j, start, end) by {
                lemma_no_earlier_overlap(segs, start, end, 0, j);
            }
        },
        None => {},
    }
}

proof fn lemma_no_earlier_overlap(segs: Seq<PlaylistSegment>, start: u64, end: u64, i: int, j: int)
    requires
        0 <= i <= j,
        (first_overlap(segs, start, end, i) matches Some(f) && j < f),
    ensures
        !overlaps(segs, j, start, end),
    decreases j - i,
{
    if i < j {
        lemma_no_earlier_overlap(segs, start, end, i + 1, j);
    }
}

/// An alternative rendition of a master playlist.
pub struct Rendition {
    pub is_audio: bool,
    pub is_default: bool,
    pub uri: Option<String>,
}

/// A variant stream of a master playlist.
pub struct VariantInfo {
    pub uri: String,
    pub bandwidth: u64,
}

/// A master playlist: its renditions and variant streams, in order.
pub struct MasterPlaylistInfo {
    pub renditions: Vec<Rendition>,
    pub variants: Vec<VariantInfo>,
}

/// The first audio rendition with a URI (and, when `default_only`, with
/// the default flag) among those from `i` on.
pub open spec fn first_audio(r: Seq<Rendition>, default_only: bool, i: int) -> Option<int>
    decreases r.len() - i,
{
    if i < 0 || i >= r.len() {
        None
    } else if r[i].is_audio && (r[i].is_default || !default_only) && r[i].uri is Some {
        Some(i)
    } else {
        first_audio(r, default_only, i + 1)
    }
}

/// Variant `k` has the lowest bandwidth, and is the first that has it.
pub open spec fn is_lowest(v: Seq<VariantInfo>, k: int) -> bool {
    &&& 0 <= k < v.len()
    &&& forall|j: int| 0 <= j < v.len() ==> v[j].bandwidth >= v[k].bandwidth
    &&& forall|j: int| 0 <= j < k ==> v[j].bandwidth > v[k].bandwidth
}

/// The URI a master playlist leads to: the first default audio rendition,
/// else the first audio rendition, else the variant with the lowest
/// bandwidth.
pub open spec fn master_choice(m: MasterPlaylistInfo) -> Option<Seq<char>> {
    match first_audio(m.renditions@, true, 0) {
        Some(k) => Some(m.renditions@[k].uri->Some_0@),
        None => match first_audio(m.renditions@, false, 0) {
            Some(k) => Some(m.renditions@[k].uri->Some_0@),
            None => if m.variants@.len() > 0 {
                Some(m.variants@[choose|k: int| is_lowest(m.variants@, k)].uri@)
            } else {
                None
            },
        },
    }
}

fn find_audio(r: &Vec<Rendition>, default_only: bool) -> (k: Option<usize>)
    ensures
        match k {
            Some(i) => i < r@.len() && first_audio(r@, default_only, 0) == Some(i as int)
                && r@[i as int].uri is Some,
            None => first_audio(r@, default_only, 0) is None,
        },
{
    let mut i: usize = 0;
    while i < r.len()
        invariant
            i <= r@.len(),
            first_audio(r@, default_only, 0) == first_audio(r@, default_only, i as int),
        decreases r@.len() - i,
    {
        if r[i].is_audio && (r[i].is_default || !default_only) && r[i].uri.is_some() {
            return Some(i);
        }
        i = i + 1;
    }
    None
}

/// Picks the media playlist of a master playlist and resolves its URL
/// against `base_url`. Fails with `PlaylistUnresolvable` when there is no
/// candidate, and with `InvalidUrl` when the chosen URI does not resolve.
pub fn select_master_variant(master: &MasterPlaylistInfo, base_url: &str) -> (r: Result<
    String,
    ServiceError,
>)
    ensures
        match master_choice(*master) {
            None => r == Err::<String, ServiceError>(ServiceError::PlaylistUnresolvable),
            Some(uri) => match url_join(base_url@, uri) {
                Some(u) => r matches Ok(s) && s@ == u,
                None => r == Err::<String, ServiceError>(ServiceError::InvalidUrl),
            },
        },
{
    let uri: &str = match find_audio(&master.renditions, true) {
        Some(k) => match &master.renditions[k].uri {
            Some(u) => u.as_str(),
            None => {
                return Err(ServiceError::PlaylistUnresolvable);
            },
        },
        None => match find_audio(&master.renditions, false) {
            Some(k) => match &master.renditions[k].uri {
                Some(u) => u.as_str(),
                None => {
                    return Err(ServiceError::PlaylistUnresolvable);
                },
            },
            None => {
                let v = &master.variants;
                if v.len() == 0 {
                    return Err(ServiceError::PlaylistUnresolvable);
                }
                let mut best: usize = 0;
                let mut j: usize = 1;
                while j < v.len()
                    invariant
                        1 <= j <= v@.len(),
                        best < j,
                        forall|q: int| 0 <= q < j ==> v@[q].bandwidth >= v@[best as int].bandwidth,
                        forall|q: int| 0 <= q < best ==> v@[q].bandwidth > v@[best as int].bandwidth,
                    decreases v@.len() - j,
                {
                    if v[j].bandwidth < v[best].bandwidth {
                        best = j;
                    }
                    j = j + 1;
                }
                proof {
                    assert(is_lowest(v@, best as int));
                    lemma_lowest_unique(v@, best as int);
                }
                v[best].uri.as_str()
            },
        },
    };
    match resolve_url(base_url, uri) {
        Some(u) => Ok(u),
        None => Err(ServiceError::InvalidUrl),
    }
}

proof fn lemma_lowest_unique(v: Seq<VariantInfo>, k: int)
    requires
        is_lowest(v, k),
    ensures
        (choose|q: int| is_lowest(v, q)) == k,
{
    let c = choose|q: int| is_lowest(v, q);
    assert(is_lowest(v, c));
    if c < k {
        assert(v[c].bandwidth > v[k].bandwidth);
    } else if c > k {
        assert(v[k].bandwidth > v[c].bandwidth);
    }
}

/// The inclusive byte bounds to request for a segment's range: none when
/// it has no range, and `InvalidRange` unless its end is past its start.
pub fn range_request(range: Option<ResolvedByteRange>) -> (r: Result<Option<(usize, usize)>, ServiceError>)
    ensures
        match range {
            None => r == Ok::<Option<(usize, usize)>, ServiceError>(None),
            Some(b) => if b.end > b.start {
                r == Ok::<Option<(usize, usize)>, ServiceError>(Some((b.start, (b.end - 1) as usize)))
            } else {
                r == Err::<Option<(usize, usize)>, ServiceError>(ServiceError::InvalidRange)
            },
        },
{
    match range {
        None => Ok(None),
        Some(b) => {
            if b.end <= b.start {
                Err(ServiceError::InvalidRange)
            } else {
                Ok(Some((b.start, b.end - 1)))
            }
        },
    }
}

/// A continuation range starts at the end of the previous segment's
/// range, and a range that resolves ends after its start, at its start
/// plus its length.
pub proof fn lemma_byte_range_continuity(segs: Seq<PlaylistSegment>, i: int)
    requires
        0 <= i < segs.len(),
        segs[i].byte_range is Some,
    ensures
        ({
            let w = segs[i].byte_range->Some_0;
            let r = resolved_range(segs, i)->Some_0;
            &&& (w.start is None && i > 0 && segs[i - 1].byte_range is Some) ==> r.start
                == resolved_range(segs, i - 1)->Some_0.end
            &&& span_ok(r.start, w.length) ==> r.end > r.start && r.end == r.start + w.length
        }),
{
}

/// The path of a URL, if it parses.
pub uninterp spec fn path_of(url: Seq<char>) -> Option<Seq<char>>;

/// Relies on `url::Url::parse` and `url::Url::path`: the path component of
/// the parsed URL.
#[verifier::external_body]
fn url_path(url: &str) -> (r: Option<String>)
    ensures
        match r {
            Some(p) => path_of(url@) == Some(p@),
            None => path_of(url@) is None,
        },
{
    match url::Url::parse(url) {
        Ok(u) => Some(u.path().to_string()),
        Err(_) => None,
    }
}

/// ASCII letters in lower case; every other character unchanged.
pub open spec fn lower_char(c: char) -> char {
    if 'A' <= c && c <= 'Z' {
        ((c as u8) + 32) as u8 as char
    } else {
        c
    }
}

/// The position of the last `.` in `p`, if any.
pub open spec fn last_dot(p: Seq<char>) -> Option<int> {
    if exists|k: int| 0 <= k < p.len() && p[k] == '.' {
        Some(choose|k: int| 0 <= k < p.len() && p[k] == '.' && forall|q: int| k < q < p.len() ==> p[q] != '.')
    } else {
        None
    }
}

/// The container hint for a path: the text after its last `.`, in lower
/// case, with `m4s`, `m4a` and `mp4` all read as `mp4`; none when the path
/// has no `.`.
pub open spec fn extension_hint(path: Seq<char>) -> Option<Seq<char>> {
    match last_dot(path) {
        None => None,
        Some(k) => {
            let e = path.subrange(k + 1, path.len() as int).map_values(|c: char| lower_char(c));
            if e == seq!['m', '4', 's'] || e == seq!['m', '4', 'a'] || e == seq!['m', 'p', '4'] {
                Some(seq!['m', 'p', '4'])
            } else {
                Some(e)
            }
        },
    }
}

fn lower(c: char) -> (r: char)
    ensures
        r == lower_char(c),
{
    if 'A' <= c && c <= 'Z' {
        ((c as u8) + 32) as char
    } else {
        c
    }
}

fn is_word3(e: &Vec<char>, a: char, b: char, c: char) -> (r: bool)
    ensures
        r == (e@ == seq![a, b, c]),
{
    let r = e.len() == 3 && e[0] == a && e[1] == b && e[2] == c;
    proof {
        if e@.len() == 3 && e@[0] == a && e@[1] == b && e@[2] == c {
            assert(e@ =~= seq![a, b, c]);
        }
    }
    r
}

/// The container hint of a segment URL, from the extension of its path.
pub fn hint_extension_from_url(url: &str) -> (r: Option<String>)
    ensures
        match path_of(url@) {
            None => r is None,
            Some(p) => match extension_hint(p) {
                None => r is None,
                Some(e) => r matches Some(s) && s@ == e,
            },
        },
{
    let path = match url_path(url) {
        Some(p) => p,
        None => {
            return None;
        },
    };
    let cs = crate::text::chars_of(path.as_str());
    let mut k: usize = cs.len();
    while k > 0 && cs[k - 1] != '.'
        invariant
            k <= cs@.len(),
            forall|q: int| k <= q < cs@.len() ==> cs@[q] != '.',
        decreases k,
    {
        k = k - 1;
    }
    if k == 0 {
        proof {
            assert(!(exists|j: int| 0 <= j < cs@.len() && cs@[j] == '.'));
        }
        return None;
    }
    let dot = k - 1;
    proof {
        let c = choose|j: int| 0 <= j < cs@.len() && cs@[j] == '.' && forall|q: int| j < q < cs@.len() ==> cs@[q] != '.';
        assert(c == dot) by {
            if c < dot {
                assert(cs@[dot as int] == '.');
            } else if c > dot {
                assert(cs@[c] == '.');
            }
        }
    }
    let mut e: Vec<char> = Vec::new();
    let mut i: usize = k;
    while i < cs.len()
        invariant
            k <= i <= cs@.len(),
            e@ == cs@.subrange(k as int, i as int).map_values(|c: char| lower_char(c)),
        decreases cs@.len() - i,
    {
        e.push(lower(cs[i]));
        proof {
            assert(cs@.subrange(k as int, i + 1).map_values(|c: char| lower_char(c)) =~= cs@.subrange(
                k as int,
                i as int,
            ).map_values(|c: char| lower_char(c)).push(lower_char(cs@[i as int])));
        }
        i = i + 1;
    }
    if is_word3(&e, 'm', '4', 's') || is_word3(&e, 'm', '4', 'a') || is_word3(&e, 'm', 'p', '4') {
        let mp4 = ['m', 'p', '4'];
        let r = crate::text::string_of(mp4.as_slice(), 0, 3);
        proof {
            assert(mp4@ =~= seq!['m', 'p', '4']);
            assert(mp4@.subrange(0, 3) =~= seq!['m', 'p', '4']);
        }
        Some(r)
    } else {
        let r = crate::text::string_of(e.as_slice(), 0, e.len());
        proof {
            assert(e@.subrange(0, e@.len() as int) =~= e@);
        }
        Some(r)
    }
}

} // verus!
