//! Kana-kanji conversion: greedy longest-match segmentation, whole-reading
//! candidates and interactive segment boundary adjustment.

use vstd::prelude::*;
use vstd::string::StringExecFns;
use crate::dictionary::{push_unique, push_unique_exec, Dictionary};
use crate::text::{chars_of, string_from_chars};

verus! {

/// One span of a reading, with its conversion candidates.
#[derive(Debug, Clone)]
pub struct Segment {
    /// Reading (hiragana) of this span.
    pub reading: String,
    /// Start position in the whole reading, in characters.
    pub start: usize,
    /// Length of this span, in characters.
    pub length: usize,
    /// Conversion candidates, preferred first.
    pub candidates: Vec<String>,
}

/// Whole-reading candidates together with the segmentation they came from.
#[derive(Debug, Clone)]
pub struct ConversionResult {
    /// Candidates for the whole reading, preferred first.
    pub combined_candidates: Vec<String>,
    /// The segments of the reading.
    pub segments: Vec<Segment>,
}

/// Which way a segment boundary moves.
#[derive(Debug, Clone, Copy, PartialEq, Eq, Structural)]
pub enum AdjustDirection {
    /// The segment gives its last character to the next one.
    Shrink,
    /// The segment takes the first character of the next one.
    Extend,
}

/// The observable content of a segment.
pub open spec fn seg_view(s: Segment) -> (Seq<char>, usize, usize, Seq<Seq<char>>) {
    (s.reading@, s.start, s.length, s.candidates.deep_view())
}

/// The observable content of each segment.
pub open spec fn seg_views(segs: Seq<Segment>) -> Seq<(Seq<char>, usize, usize, Seq<Seq<char>>)> {
    segs.map_values(|s: Segment| seg_view(s))
}

/// The (start, length) pair of each segment.
pub open spec fn spans_of(segs: Seq<Segment>) -> Seq<(int, int)> {
    segs.map_values(|s: Segment| (s.start as int, s.length as int))
}

/// The readings of the segments, concatenated in order.
pub open spec fn concat_readings(segs: Seq<Segment>) -> Seq<char>
    decreases segs.len(),
{
    if segs.len() == 0 {
        seq![]
    } else {
        concat_readings(segs.drop_last()) + segs.last().reading@
    }
}

/// The sum of the segment lengths.
pub open spec fn lengths_sum(segs: Seq<Segment>) -> int
    decreases segs.len(),
{
    if segs.len() == 0 {
        0
    } else {
        lengths_sum(segs.drop_last()) + segs.last().length
    }
}

/// Length of the longest prefix of `r[pos..]` of at most `len` characters
/// that is a key of `m`, or 0.
pub open spec fn match_len(m: Map<Seq<char>, Seq<Seq<char>>>, r: Seq<char>, pos: int, len: int) -> int
    decreases len,
{
    if len <= 0 {
        0
    } else if m.contains_key(r.subrange(pos, pos + len)) {
        len
    } else {
        match_len(m, r, pos, len - 1)
    }
}

/// The spans of greedy longest-match segmentation of `r[pos..]`.
pub open spec fn greedy_spans(m: Map<Seq<char>, Seq<Seq<char>>>, r: Seq<char>, pos: int) -> Seq<(int, int)>
    decreases r.len() - pos via greedy_spans_decreases
{
    if pos >= r.len() {
        seq![]
    } else {
        let l = match_len(m, r, pos, r.len() - pos);
        let step = if l >= 1 {
            l
        } else {
            1
        };
        seq![(pos, step)] + greedy_spans(m, r, pos + step)
    }
}

#[via_fn]
proof fn greedy_spans_decreases(m: Map<Seq<char>, Seq<Seq<char>>>, r: Seq<char>, pos: int) {
    lemma_match_len_bounds(m, r, pos, r.len() - pos);
}

proof fn lemma_match_len_bounds(m: Map<Seq<char>, Seq<Seq<char>>>, r: Seq<char>, pos: int, len: int)
    ensures
        0 <= match_len(m, r, pos, len),
        len >= 0 ==> match_len(m, r, pos, len) <= len,
        match_len(m, r, pos, len) > 0 ==> m.contains_key(
            r.subrange(pos, pos + match_len(m, r, pos, len)),
        ),
    decreases len,
{
    if len > 0 {
        lemma_match_len_bounds(m, r, pos, len - 1);
    }
}

/// The preferred candidate of a segment, or its reading if it has none.
pub open spec fn first_or_reading(s: Segment) -> Seq<char> {
    if s.candidates@.len() > 0 {
        s.candidates@[0]@
    } else {
        s.reading@
    }
}

/// The preferred candidates of the segments, concatenated in order.
pub open spec fn concat_firsts(segs: Seq<Segment>) -> Seq<char>
    decreases segs.len(),
{
    if segs.len() == 0 {
        seq![]
    } else {
        concat_firsts(segs.drop_last()) + first_or_reading(segs.last())
    }
}

/// Whether the boundary after segment `index` can move in `dir`: a next
/// segment exists, and the segment that gives a character keeps one.
pub open spec fn can_adjust_spec(segs: Seq<Segment>, index: int, dir: AdjustDirection) -> bool {
    &&& 0 <= index
    &&& index + 1 < segs.len()
    &&& match dir {
        AdjustDirection::Shrink => segs[index].length > 1,
        AdjustDirection::Extend => segs[index + 1].length > 1,
    }
}

/// End position of segment `k` once the boundary after segment `index` has
/// moved one character in `dir`.
pub open spec fn moved_bound(segs: Seq<Segment>, index: int, dir: AdjustDirection, k: int) -> int {
    lengths_sum(segs.take(k + 1)) + if k == index {
        match dir {
            AdjustDirection::Shrink => -1int,
            AdjustDirection::Extend => 1int,
        }
    } else {
        0int
    }
}

/// The spans that consecutive end positions `bounds` cut, starting at
/// `start`; an end that does not pass the current start gives no span.
pub open spec fn spans_from_bounds(bounds: Seq<usize>, start: int) -> Seq<(int, int)>
    decreases bounds.len(),
{
    if bounds.len() == 0 {
        seq![]
    } else if bounds[0] <= start {
        spans_from_bounds(bounds.drop_first(), start)
    } else {
        seq![(start, bounds[0] - start)] + spans_from_bounds(bounds.drop_first(), bounds[0] as int)
    }
}

/// The bounds after moving the boundary after segment `index` in `dir`.
pub open spec fn moved_bounds(segs: Seq<Segment>, index: int, dir: AdjustDirection) -> Seq<usize> {
    Seq::new(segs.len(), |k: int| moved_bound(segs, index, dir, k) as usize)
}

proof fn lemma_lengths_sum_take(segs: Seq<Segment>, k: int)
    requires
        0 <= k < segs.len(),
    ensures
        lengths_sum(segs.take(k + 1)) == lengths_sum(segs.take(k)) + segs[k].length,
{
    assert(segs.take(k + 1).drop_last() =~= segs.take(k));
}

proof fn lemma_lengths_sum_mono(segs: Seq<Segment>, j: int, k: int)
    requires
        0 <= j <= k <= segs.len(),
    ensures
        lengths_sum(segs.take(j)) <= lengths_sum(segs.take(k)),
    decreases k - j,
{
    if j < k {
        lemma_lengths_sum_take(segs, k - 1);
        lemma_lengths_sum_mono(segs, j, k - 1);
    }
}

proof fn lemma_moved_bound_range(segs: Seq<Segment>, index: int, dir: AdjustDirection, k: int)
    requires
        can_adjust_spec(segs, index, dir),
        0 <= k < segs.len(),
    ensures
        0 <= moved_bound(segs, index, dir, k) <= lengths_sum(segs),
{
    assert(segs.take(segs.len() as int) =~= segs);
    assert(segs.take(0) =~= seq![]);
    lemma_lengths_sum_mono(segs, 0, k + 1);
    lemma_lengths_sum_mono(segs, k + 1, segs.len() as int);
    if k == index {
        lemma_lengths_sum_take(segs, k);
        lemma_lengths_sum_mono(segs, 0, k);
        lemma_lengths_sum_take(segs, k + 1);
        lemma_lengths_sum_mono(segs, k + 2, segs.len() as int);
    }
}

/// A copy of a segment.
fn copy_segment(s: &Segment) -> (r: Segment)
    ensures
        seg_view(r) == seg_view(*s),
{
    let candidates = s.candidates.clone();
    assert(candidates@ =~= s.candidates@);
    Segment { reading: s.reading.clone(), start: s.start, length: s.length, candidates }
}

/// A copy of a list of segments.
fn copy_segments(segs: &[Segment]) -> (r: Vec<Segment>)
    ensures
        seg_views(r@) == seg_views(segs@),
{
    let mut out: Vec<Segment> = Vec::new();
    let mut i: usize = 0;
    while i < segs.len()
        invariant
            i <= segs@.len(),
            out@.len() == i,
            forall|j: int| 0 <= j < i ==> seg_view(#[trigger] out@[j]) == seg_view(segs@[j]),
        decreases segs@.len() - i,
    {
        out.push(copy_segment(&segs[i]));
        i += 1;
    }
    assert(seg_views(out@) =~= seg_views(segs@));
    out
}

/// Each segment starts where the previous ones end, and none is empty.
pub open spec fn contiguous(segs: Seq<Segment>) -> bool {
    forall|k: int|
        0 <= k < segs.len() ==> (#[trigger] segs[k]).start == lengths_sum(segs.take(k))
            && segs[k].length > 0
}

/// Where the span cut by `bounds[k]` begins.
pub open spec fn bound_before(bounds: Seq<usize>, start: int, k: int) -> int {
    if k == 0 {
        start
    } else {
        bounds[k - 1] as int
    }
}

proof fn lemma_spans_strict(bounds: Seq<usize>, start: int)
    requires
        forall|k: int| 0 <= k < bounds.len() ==> bound_before(bounds, start, k) < #[trigger] bounds[k],
    ensures
        spans_from_bounds(bounds, start).len() == bounds.len(),
        forall|k: int|
            0 <= k < bounds.len() ==> #[trigger] spans_from_bounds(bounds, start)[k] == (
                bound_before(bounds, start, k),
                bounds[k] - bound_before(bounds, start, k),
            ),
    decreases bounds.len(),
{
    if bounds.len() > 0 {
        let rest = bounds.drop_first();
        assert forall|k: int| 0 <= k < rest.len() implies bound_before(rest, bounds[0] as int, k) < #[trigger] rest[k] by {
            assert(rest[k] == bounds[k + 1]);
        }
        lemma_spans_strict(rest, bounds[0] as int);
        assert forall|k: int| 0 <= k < bounds.len() implies #[trigger] spans_from_bounds(bounds, start)[k] == (
            bound_before(bounds, start, k),
            bounds[k] - bound_before(bounds, start, k),
        ) by {
            if k > 0 {
                assert(rest[k - 1] == bounds[k]);
                assert(bound_before(rest, bounds[0] as int, k - 1) == bound_before(bounds, start, k));
            }
        }
    }
}

/// Segments whose spans are cut by increasing `bounds` from 0 have length
/// sums that reach each bound in turn.
proof fn lemma_lengths_reach_bounds(segs: Seq<Segment>, bounds: Seq<usize>, k: int)
    requires
        segs.len() == bounds.len(),
        0 <= k < segs.len(),
        forall|j: int| 0 <= j < segs.len() ==> (#[trigger] segs[j]).length == bounds[j] - bound_before(bounds, 0, j),
    ensures
        lengths_sum(segs.take(k + 1)) == bounds[k],
    decreases k,
{
    lemma_lengths_sum_take(segs, k);
    if k > 0 {
        lemma_lengths_reach_bounds(segs, bounds, k - 1);
    } else {
        assert(segs.take(0) =~= seq![]);
    }
}

/// Kana-kanji converter over an optional dictionary.
pub struct Converter {
    dictionary: Option<Dictionary>,
}

impl Converter {
    /// The dictionary the converter consults.
    pub closed spec fn lexicon(&self) -> Option<Dictionary> {
        self.dictionary
    }

    /// The dictionary, if any, is well formed.
    pub open spec fn wf(&self) -> bool {
        self.lexicon() matches Some(d) ==> d.wf()
    }

    /// No dictionary, or an empty one: a reading is passed through whole.
    pub open spec fn pass_through(&self) -> bool {
        match self.lexicon() {
            Some(d) => d.nasi() == Map::<Seq<char>, Seq<Seq<char>>>::empty() && d.ari() == Map::<
                Seq<char>,
                Seq<Seq<char>>,
            >::empty(),
            None => true,
        }
    }

    /// Candidates of a span: its okuri-nasi candidates followed by the span
    /// itself, or the span alone.
    pub open spec fn candidates_for(&self, s: Seq<char>) -> Seq<Seq<char>> {
        match self.lexicon() {
            Some(d) => d.with_fallback(s),
            None => seq![s],
        }
    }

    /// The spans into which `segment_with_info` cuts `r`.
    pub open spec fn spans_for(&self, r: Seq<char>) -> Seq<(int, int)> {
        if r.len() == 0 {
            seq![]
        } else if self.pass_through() {
            seq![(0, r.len() as int)]
        } else {
            greedy_spans(self.lexicon()->0.nasi(), r, 0)
        }
    }

    /// `segs` are the spans `spans` of `r`, each with its candidates.
    pub open spec fn describes(&self, segs: Seq<Segment>, r: Seq<char>, spans: Seq<(int, int)>) -> bool {
        &&& spans_of(segs) == spans
        &&& forall|i: int|
            0 <= i < segs.len() ==> {
                &&& (#[trigger] segs[i]).reading@ == r.subrange(
                    segs[i].start as int,
                    segs[i].start + segs[i].length,
                )
                &&& segs[i].candidates.deep_view() == self.candidates_for(segs[i].reading@)
            }
    }

    /// Creates a converter over an optional dictionary.
    pub fn new(dictionary: Option<Dictionary>) -> (c: Converter)
        requires
            dictionary matches Some(d) ==> d.wf(),
        ensures
            c.wf(),
            c.lexicon() == dictionary,
    {
        Converter { dictionary }
    }

    /// Whether a dictionary is loaded.
    pub fn has_dictionary(&self) -> (r: bool)
        ensures
            r == self.lexicon() is Some,
    {
        self.dictionary.is_some()
    }

    /// Splits a reading into segments: greedy longest match over the
    /// okuri-nasi table, one character where nothing matches, or the whole
    /// reading as one segment when there is no dictionary entry at all.
    pub fn segment_with_info(&self, reading: &str) -> (r: Vec<Segment>)
        requires
            self.wf(),
        ensures
            self.describes(r@, reading@, self.spans_for(reading@)),
            concat_readings(r@) == reading@,
            lengths_sum(r@) == reading@.len(),
            contiguous(r@),
    {
        let chars = chars_of(reading);
        let n = chars.len();
        if n == 0 {
            let r: Vec<Segment> = Vec::new();
            assert(concat_readings(r@) =~= reading@);
            assert(spans_of(r@) =~= seq![]);
            return r;
        }
        let dict = match &self.dictionary {
            Some(d) => if d.is_empty() {
                None
            } else {
                Some(d)
            },
            None => None,
        };
        let d = match dict {
            Some(d) => d,
            None => {
                let r = vec![Segment {
                    reading: String::from_str(reading),
                    start: 0,
                    length: n,
                    candidates: vec![String::from_str(reading)],
                }];
                proof {
                    if let Some(d) = self.lexicon() {
                        assert(!d.nasi().contains_key(reading@));
                    }
                    assert(r@[0].candidates.deep_view() =~= seq![reading@]);
                    assert(reading@.subrange(0, n as int) =~= reading@);
                    assert(r@.drop_last() =~= seq![]);
                    assert(concat_readings(r@.drop_last()) =~= seq![]);
                    assert(lengths_sum(r@.drop_last()) == 0);
                    assert(concat_readings(r@) =~= reading@);
                    assert(r@.take(0) =~= seq![]);
                    assert(spans_of(r@) =~= seq![(0int, n as int)]);
                }
                return r;
            },
        };
        let ghost m = d.nasi();
        let ghost rs = reading@;
        proof {
            assert(!self.pass_through());
        }
        let mut segments: Vec<Segment> = Vec::new();
        let mut pos: usize = 0;
        while pos < n
            invariant
                n == chars@.len(),
                chars@ == rs,
                rs == reading@,
                self.wf(),
                self.lexicon() == Some(*d),
                m == d.nasi(),
                pos <= n,
                spans_of(segments@) + greedy_spans(m, rs, pos as int) == greedy_spans(m, rs, 0),
                concat_readings(segments@) == rs.take(pos as int),
                lengths_sum(segments@) == pos,
                forall|i: int| 0 <= i < segments@.len() ==> {
                    &&& (#[trigger] segments@[i]).reading@ == rs.subrange(
                        segments@[i].start as int,
                        segments@[i].start + segments@[i].length,
                    )
                    &&& segments@[i].candidates.deep_view() == self.candidates_for(segments@[i].reading@)
                    &&& segments@[i].length > 0
                    &&& segments@[i].start == lengths_sum(segments@.take(i))
                },
            decreases n - pos,
        {
            let mut end: usize = n;
            let mut found: usize = 0;
            while end > pos && found == 0
                invariant
                    n == chars@.len(),
                    chars@ == rs,
                    pos < n,
                    pos <= end <= n,
                    found == 0 ==> match_len(m, rs, pos as int, n - pos) == match_len(
                        m,
                        rs,
                        pos as int,
                        end - pos,
                    ),
                    found > 0 ==> found == match_len(m, rs, pos as int, n - pos),
                    m == d.nasi(),
                    d.wf(),
                decreases end - pos + (if found == 0 { 1int } else { 0 }),
            {
                let sub = string_from_chars(&chars[pos..end]);
                if d.lookup(sub.as_str()).is_some() {
                    found = end - pos;
                } else {
                    end -= 1;
                }
            }
            proof {
                lemma_match_len_bounds(m, rs, pos as int, n - pos);
            }
            let len: usize = if found == 0 { 1 } else { found };
            let seg_reading = string_from_chars(&chars[pos..pos + len]);
            let candidates = d.lookup_with_fallback(seg_reading.as_str());
            let ghost before = segments@;
            segments.push(Segment { reading: seg_reading, start: pos, length: len, candidates });
            proof {
                assert(segments@.drop_last() == before);
                assert(rs.take(pos as int) + rs.subrange(pos as int, pos + len) =~= rs.take(pos + len));
                assert(spans_of(segments@) =~= spans_of(before).push((pos as int, len as int)));
                assert(greedy_spans(m, rs, pos as int) == seq![(pos as int, len as int)] + greedy_spans(m, rs, pos + len));
                assert(spans_of(segments@) + greedy_spans(m, rs, pos + len) =~= spans_of(before) + greedy_spans(m, rs, pos as int));
                assert forall|i: int| 0 <= i < segments@.len() implies {
                    &&& (#[trigger] segments@[i]).reading@ == rs.subrange(
                        segments@[i].start as int,
                        segments@[i].start + segments@[i].length,
                    )
                    &&& segments@[i].candidates.deep_view() == self.candidates_for(segments@[i].reading@)
                    &&& segments@[i].length > 0
                    &&& segments@[i].start == lengths_sum(segments@.take(i))
                } by {
                    if i < before.len() {
                        assert(segments@[i] == before[i]);
                        assert(segments@.take(i) =~= before.take(i));
                    } else {
                        assert(segments@.take(i) =~= before);
                    }
                }
            }
            pos = pos + len;
        }
        proof {
            assert(rs.take(n as int) =~= rs);
            assert(greedy_spans(m, rs, n as int) =~= seq![]);
            assert(spans_of(segments@) =~= greedy_spans(m, rs, 0));
        }
        segments
    }

    /// What `convert_with_segments` returns for `r`: nothing for an empty
    /// reading; otherwise the segmentation of `r`, and as whole-reading
    /// candidates the concatenated preferred candidates followed by `r`
    /// itself unless equal.
    pub open spec fn converted(&self, r: Seq<char>, res: ConversionResult) -> bool {
        if r.len() == 0 {
            res.combined_candidates@.len() == 0 && res.segments@.len() == 0
        } else {
            &&& self.describes(res.segments@, r, self.spans_for(r))
            &&& concat_readings(res.segments@) == r
            &&& res.combined_candidates.deep_view() == push_unique(
                seq![concat_firsts(res.segments@)],
                r,
            )
        }
    }

    /// Converts a whole reading, keeping its segmentation.
    pub fn convert_with_segments(&self, reading: &str) -> (r: ConversionResult)
        requires
            self.wf(),
        ensures
            self.converted(reading@, r),
    {
        if reading.is_empty() {
            let r = ConversionResult { combined_candidates: Vec::new(), segments: Vec::new() };
            return r;
        }
        let segments = self.segment_with_info(reading);
        let mut combined = String::new();
        let mut i: usize = 0;
        while i < segments.len()
            invariant
                i <= segments@.len(),
                combined@ == concat_firsts(segments@.take(i as int)),
            decreases segments@.len() - i,
        {
            let seg = &segments[i];
            if seg.candidates.len() > 0 {
                combined.append(seg.candidates[0].as_str());
            } else {
                combined.append(seg.reading.as_str());
            }
            assert(segments@.take(i + 1).drop_last() =~= segments@.take(i as int));
            i += 1;
        }
        assert(segments@.take(i as int) =~= segments@);
        let mut combined_candidates = vec![combined];
        assert(combined_candidates.deep_view() =~= seq![concat_firsts(segments@)]);
        push_unique_exec(&mut combined_candidates, String::from_str(reading));
        ConversionResult { combined_candidates, segments }
    }

    /// What `adjust_segment` returns: when the move is allowed, segments
    /// rebuilt from the moved boundaries with fresh candidates; otherwise
    /// the input unchanged.
    pub open spec fn adjusted(
        &self,
        r: Seq<char>,
        segs: Seq<Segment>,
        index: int,
        dir: AdjustDirection,
        out: Seq<Segment>,
    ) -> bool {
        if can_adjust_spec(segs, index, dir) {
            self.describes(out, r, spans_from_bounds(moved_bounds(segs, index, dir), 0))
        } else {
            seg_views(out) == seg_views(segs)
        }
    }

    /// Whether the boundary after segment `index` can move in `direction`.
    fn can_adjust(&self, segments: &[Segment], index: usize, direction: AdjustDirection) -> (r: bool)
        requires
            index < segments@.len(),
        ensures
            r == can_adjust_spec(segments@, index as int, direction),
    {
        if index >= segments.len() - 1 {
            return false;
        }
        match direction {
            AdjustDirection::Shrink => segments[index].length > 1,
            AdjustDirection::Extend => segments[index + 1].length > 1,
        }
    }

    /// Moves the boundary after segment `segment_index` by one character:
    /// `Shrink` gives that segment's last character to the next segment,
    /// `Extend` takes the next segment's first character. Every segment is
    /// then rebuilt from the reading with fresh candidates. A move that is
    /// not allowed returns the segments unchanged.
    pub fn adjust_segment(
        &self,
        reading: &str,
        current_segments: &[Segment],
        segment_index: usize,
        direction: AdjustDirection,
    ) -> (r: Vec<Segment>)
        requires
            self.wf(),
            lengths_sum(current_segments@) <= reading@.len(),
        ensures
            self.adjusted(reading@, current_segments@, segment_index as int, direction, r@),
    {
        let chars = chars_of(reading);
        if segment_index >= current_segments.len() {
            return copy_segments(current_segments);
        }
        if !self.can_adjust(current_segments, segment_index, direction) {
            return copy_segments(current_segments);
        }
        let n = chars.len();
        assert(lengths_sum(current_segments@) <= n);
        let new_boundaries = match direction {
            AdjustDirection::Shrink => self.calculate_shrink_boundaries(current_segments, segment_index),
            AdjustDirection::Extend => self.calculate_extend_boundaries(current_segments, segment_index),
        };
        proof {
            assert forall|k: int| 0 <= k < new_boundaries@.len() implies new_boundaries@[k] <= chars@.len() by {
                lemma_moved_bound_range(current_segments@, segment_index as int, direction, k);
            }
        }
        self.rebuild_segments_from_boundaries(chars.as_slice(), new_boundaries.as_slice())
    }

    /// End positions of the segments after segment `index` has given its
    /// last character to the next one.
    fn calculate_shrink_boundaries(&self, segments: &[Segment], index: usize) -> (r: Vec<usize>)
        requires
            index + 1 < segments@.len(),
            segments@[index as int].length > 1,
            lengths_sum(segments@) <= usize::MAX,
        ensures
            r@ == moved_bounds(segments@, index as int, AdjustDirection::Shrink),
    {
        let mut boundaries: Vec<usize> = Vec::new();
        let mut pos: usize = 0;
        let mut i: usize = 0;
        while i < segments.len()
            invariant
                index + 1 < segments@.len(),
                segments@[index as int].length > 1,
                lengths_sum(segments@) <= usize::MAX,
                i <= segments@.len(),
                boundaries@.len() == i,
                forall|k: int| 0 <= k < i ==> boundaries@[k] == moved_bound(segments@, index as int, AdjustDirection::Shrink, k),
                pos == lengths_sum(segments@.take(i as int)) + (if i == index + 1 { -1int } else { 0int }),
            decreases segments@.len() - i,
        {
            let seg = &segments[i];
            proof {
                lemma_lengths_sum_take(segments@, i as int);
                lemma_lengths_sum_mono(segments@, i + 1, segments@.len() as int);
                assert(segments@.take(segments@.len() as int) =~= segments@);
            }
            if i == index {
                pos += seg.length - 1;
            } else if i == index + 1 {
                pos += seg.length + 1;
            } else {
                pos += seg.length;
            }
            boundaries.push(pos);
            i += 1;
        }
        assert(boundaries@ =~= moved_bounds(segments@, index as int, AdjustDirection::Shrink));
        boundaries
    }

    /// End positions of the segments after segment `index` has taken the
    /// first character of the next one.
    fn calculate_extend_boundaries(&self, segments: &[Segment], index: usize) -> (r: Vec<usize>)
        requires
            index + 1 < segments@.len(),
            segments@[index + 1].length > 1,
            lengths_sum(segments@) <= usize::MAX,
        ensures
            r@ == moved_bounds(segments@, index as int, AdjustDirection::Extend),
    {
        let mut boundaries: Vec<usize> = Vec::new();
        let mut pos: usize = 0;
        let mut i: usize = 0;
        while i < segments.len()
            invariant
                index + 1 < segments@.len(),
                segments@[index + 1].length > 1,
                lengths_sum(segments@) <= usize::MAX,
                i <= segments@.len(),
                boundaries@.len() == i,
                forall|k: int| 0 <= k < i ==> boundaries@[k] == moved_bound(segments@, index as int, AdjustDirection::Extend, k),
                pos == lengths_sum(segments@.take(i as int)) + (if i == index + 1 { 1int } else { 0int }),
            decreases segments@.len() - i,
        {
            let seg = &segments[i];
            proof {
                lemma_lengths_sum_take(segments@, i as int);
                lemma_lengths_sum_mono(segments@, i + 1, segments@.len() as int);
                assert(segments@.take(segments@.len() as int) =~= segments@);
                if i == index {
                    lemma_lengths_sum_take(segments@, i + 1);
                    lemma_lengths_sum_mono(segments@, i + 2, segments@.len() as int);
                }
            }
            if i == index {
                pos += seg.length + 1;
            } else if i == index + 1 {
                pos += seg.length - 1;
            } else {
                pos += seg.length;
            }
            boundaries.push(pos);
            i += 1;
        }
        assert(boundaries@ =~= moved_bounds(segments@, index as int, AdjustDirection::Extend));
        boundaries
    }

    /// Cuts `chars` at the end positions `boundaries` and gives each piece
    /// fresh candidates; an end that does not pass the previous one is
    /// skipped.
    fn rebuild_segments_from_boundaries(&self, chars: &[char], boundaries: &[usize]) -> (r: Vec<Segment>)
        requires
            self.wf(),
            forall|k: int| 0 <= k < boundaries@.len() ==> boundaries@[k] <= chars@.len(),
        ensures
            self.describes(r@, chars@, spans_from_bounds(boundaries@, 0)),
    {
        let mut segments: Vec<Segment> = Vec::new();
        let mut start: usize = 0;
        let mut k: usize = 0;
        assert(boundaries@.subrange(0, boundaries@.len() as int) =~= boundaries@);
        assert(spans_of(segments@) =~= seq![]);
        assert(spans_of(segments@) + spans_from_bounds(boundaries@, 0) =~= spans_from_bounds(boundaries@, 0));
        while k < boundaries.len()
            invariant
                self.wf(),
                forall|j: int| 0 <= j < boundaries@.len() ==> boundaries@[j] <= chars@.len(),
                k <= boundaries@.len(),
                start <= chars@.len(),
                spans_of(segments@) + spans_from_bounds(boundaries@.subrange(k as int, boundaries@.len() as int), start as int)
                    == spans_from_bounds(boundaries@, 0),
                forall|i: int| 0 <= i < segments@.len() ==> {
                    &&& (#[trigger] segments@[i]).reading@ == chars@.subrange(
                        segments@[i].start as int,
                        segments@[i].start + segments@[i].length,
                    )
                    &&& segments@[i].candidates.deep_view() == self.candidates_for(segments@[i].reading@)
                },
            decreases boundaries@.len() - k,
        {
            let end = boundaries[k];
            let ghost rest = boundaries@.subrange(k as int, boundaries@.len() as int);
            assert(rest.drop_first() =~= boundaries@.subrange(k + 1, boundaries@.len() as int));
            if start >= chars.len() || end <= start {
                k += 1;
            } else {
                let seg_reading = string_from_chars(&chars[start..end]);
                let candidates = match &self.dictionary {
                    Some(dict) => dict.lookup_with_fallback(seg_reading.as_str()),
                    None => {
                        let c = vec![seg_reading.clone()];
                        assert(c.deep_view() =~= seq![seg_reading@]);
                        c
                    },
                };
                let ghost before = segments@;
                segments.push(Segment { reading: seg_reading, start, length: end - start, candidates });
                proof {
                    assert(spans_of(segments@) =~= spans_of(before).push((start as int, end - start)));
                    assert(spans_of(segments@) + spans_from_bounds(boundaries@.subrange(k + 1, boundaries@.len() as int), end as int)
                        =~= spans_of(before) + spans_from_bounds(rest, start as int));
                    assert forall|i: int| 0 <= i < segments@.len() implies {
                        &&& (#[trigger] segments@[i]).reading@ == chars@.subrange(
                            segments@[i].start as int,
                            segments@[i].start + segments@[i].length,
                        )
                        &&& segments@[i].candidates.deep_view() == self.candidates_for(segments@[i].reading@)
                    } by {
                        if i < before.len() {
                            assert(segments@[i] == before[i]);
                        }
                    }
                }
                start = end;
                k += 1;
            }
        }
        assert(boundaries@.subrange(k as int, boundaries@.len() as int) =~= seq![]);
        assert(spans_of(segments@) =~= spans_from_bounds(boundaries@, 0));
        segments
    }
}

impl Default for Converter {
    fn default() -> (c: Converter)
        ensures
            c.wf(),
            c.lexicon() is None,
    {
        Converter::new(None)
    }
}

/// Whether the segment lengths add up to at most `n`.
pub fn lengths_fit(segs: &[Segment], n: usize) -> (r: bool)
    ensures
        r == (lengths_sum(segs@) <= n),
{
    let mut total: usize = 0;
    let mut i: usize = 0;
    while i < segs.len()
        invariant
            i <= segs@.len(),
            total == lengths_sum(segs@.take(i as int)),
            total <= n,
        decreases segs@.len() - i,
    {
        proof {
            lemma_lengths_sum_take(segs@, i as int);
        }
        if segs[i].length > n - total {
            proof {
                lemma_lengths_sum_mono(segs@, i + 1, segs@.len() as int);
                assert(segs@.take(segs@.len() as int) =~= segs@);
            }
            return false;
        }
        total = total + segs[i].length;
        i += 1;
    }
    assert(segs@.take(i as int) =~= segs@);
    true
}

/// The whole-reading candidates when a neural source answered: its
/// candidates first, then each dictionary candidate not already present.
pub open spec fn merged(neural: Option<Seq<Seq<char>>>, dictionary: Seq<Seq<char>>) -> Seq<Seq<char>> {
    match neural {
        Some(z) => crate::dictionary::append_unique(z, dictionary),
        None => dictionary,
    }
}

/// The candidates of an optional answer, as sequences of characters.
pub open spec fn candidates_view(answer: Option<Vec<String>>) -> Option<Seq<Seq<char>>> {
    match answer {
        Some(z) => Some(z.deep_view()),
        None => None,
    }
}

/// Merges the candidates of an optional neural source with the dictionary
/// candidates; without a neural answer the dictionary candidates stand.
pub fn merge_candidates(neural: Option<Vec<String>>, dictionary: Vec<String>) -> (r: Vec<String>)
    ensures
        r.deep_view() == merged(candidates_view(neural), dictionary.deep_view()),
{
    match neural {
        Some(mut result) => {
            let ghost z = result.deep_view();
            let ghost d = dictionary.deep_view();
            let mut i: usize = 0;
            while i < dictionary.len()
                invariant
                    i <= dictionary@.len(),
                    d == dictionary.deep_view(),
                    result.deep_view() == crate::dictionary::append_unique(z, d.take(i as int)),
                decreases dictionary@.len() - i,
            {
                assert(d.take(i + 1).drop_last() =~= d.take(i as int));
                assert(d[i as int] == dictionary@[i as int]@);
                push_unique_exec(&mut result, dictionary[i].clone());
                i += 1;
            }
            assert(d.take(i as int) =~= d);
            result
        },
        None => dictionary,
    }
}

/// Moving the boundary after the last segment is never allowed: the
/// segments come back unchanged, in either direction.
pub proof fn lemma_adjust_last_is_no_op(
    conv: Converter,
    r: Seq<char>,
    segs: Seq<Segment>,
    dir: AdjustDirection,
    out: Seq<Segment>,
)
    requires
        segs.len() > 0,
        conv.adjusted(r, segs, segs.len() - 1, dir, out),
    ensures
        seg_views(out) == seg_views(segs),
{
}

proof fn lemma_shrink_bound_at(segs: Seq<Segment>, index: int, k: int)
    requires
        lengths_sum(segs) <= usize::MAX,
        contiguous(segs),
        can_adjust_spec(segs, index, AdjustDirection::Shrink),
        0 <= k < segs.len(),
    ensures
        moved_bound(segs, index, AdjustDirection::Shrink, k) == lengths_sum(segs.take(k + 1)) - (if k
            == index {
            1int
        } else {
            0int
        }),
        0 <= moved_bound(segs, index, AdjustDirection::Shrink, k) <= lengths_sum(segs),
        k > 0 ==> moved_bound(segs, index, AdjustDirection::Shrink, k - 1) < moved_bound(
            segs,
            index,
            AdjustDirection::Shrink,
            k,
        ),
        k == 0 ==> 0 < moved_bound(segs, index, AdjustDirection::Shrink, k),
{
    lemma_moved_bound_range(segs, index, AdjustDirection::Shrink, k);
    lemma_lengths_sum_take(segs, k);
    assert(segs[k].length > 0);
    if k == 0 {
        assert(segs.take(0) =~= seq![]);
    }
}

proof fn lemma_shrink_bounds(segs: Seq<Segment>, index: int)
    requires
        lengths_sum(segs) <= usize::MAX,
        contiguous(segs),
        can_adjust_spec(segs, index, AdjustDirection::Shrink),
    ensures
        forall|k: int|
            0 <= k < segs.len() ==> #[trigger] moved_bounds(segs, index, AdjustDirection::Shrink)[k] as int
                == lengths_sum(segs.take(k + 1)) - (if k == index {
                1int
            } else {
                0int
            }),
        forall|k: int|
            0 <= k < segs.len() ==> bound_before(moved_bounds(segs, index, AdjustDirection::Shrink), 0, k)
                < #[trigger] moved_bounds(segs, index, AdjustDirection::Shrink)[k],
{
    let n = segs.len() as int;
    let b1 = moved_bounds(segs, index, AdjustDirection::Shrink);
    assert forall|k: int| 0 <= k < n implies #[trigger] b1[k] as int == lengths_sum(segs.take(k + 1)) - (
    if k == index {
        1int
    } else {
        0int
    }) by {
        lemma_shrink_bound_at(segs, index, k);
    }
    assert forall|k: int| 0 <= k < n implies bound_before(b1, 0, k) < #[trigger] b1[k] by {
        lemma_shrink_bound_at(segs, index, k);
        if k > 0 {
            lemma_shrink_bound_at(segs, index, k - 1);
        }
    }
}

proof fn lemma_after_shrink(segs: Seq<Segment>, index: int, mid: Seq<Segment>)
    requires
        lengths_sum(segs) <= usize::MAX,
        contiguous(segs),
        can_adjust_spec(segs, index, AdjustDirection::Shrink),
        spans_of(mid) == spans_from_bounds(moved_bounds(segs, index, AdjustDirection::Shrink), 0),
    ensures
        can_adjust_spec(mid, index, AdjustDirection::Extend),
        moved_bounds(mid, index, AdjustDirection::Extend).len() == segs.len(),
        forall|k: int|
            0 <= k < segs.len() ==> #[trigger] moved_bounds(mid, index, AdjustDirection::Extend)[k] as int
                == lengths_sum(segs.take(k + 1)),
{
    let n = segs.len() as int;
    let b1 = moved_bounds(segs, index, AdjustDirection::Shrink);
    lemma_shrink_bounds(segs, index);
    lemma_spans_strict(b1, 0);
    assert(mid.len() == n) by {
        assert(spans_of(mid).len() == mid.len());
    }
    assert forall|j: int| 0 <= j < n implies (#[trigger] mid[j]).length == b1[j] - bound_before(b1, 0, j) by {
        assert(spans_of(mid)[j] == spans_from_bounds(b1, 0)[j]);
    }
    assert forall|k: int| 0 <= k < n implies lengths_sum(#[trigger] mid.take(k + 1)) == b1[k] by {
        lemma_lengths_reach_bounds(mid, b1, k);
    }
    assert(can_adjust_spec(mid, index, AdjustDirection::Extend)) by {
        lemma_lengths_sum_take(segs, index + 1);
        assert(b1[index + 1] - b1[index] > 1);
    }
    let b2 = moved_bounds(mid, index, AdjustDirection::Extend);
    assert(lengths_sum(mid) <= usize::MAX) by {
        assert(mid.take(n) =~= mid);
    }
    assert forall|k: int| 0 <= k < n implies #[trigger] b2[k] as int == lengths_sum(segs.take(k + 1)) by {
        lemma_moved_bound_range(mid, index, AdjustDirection::Extend, k);
        assert(lengths_sum(mid.take(k + 1)) == b1[k]);
    }
}

proof fn lemma_restored_bound_at(segs: Seq<Segment>, b2: Seq<usize>, k: int)
    requires
        contiguous(segs),
        b2.len() == segs.len(),
        forall|j: int| 0 <= j < segs.len() ==> #[trigger] b2[j] as int == lengths_sum(segs.take(j + 1)),
        0 <= k < segs.len(),
    ensures
        bound_before(b2, 0, k) == segs[k].start,
        b2[k] - bound_before(b2, 0, k) == segs[k].length,
        segs[k].length > 0,
{
    lemma_lengths_sum_take(segs, k);
    assert(segs[k].start == lengths_sum(segs.take(k)));
    if k == 0 {
        assert(segs.take(0) =~= seq![]);
    } else {
        assert(b2[k - 1] as int == lengths_sum(segs.take(k - 1 + 1)));
    }
}

proof fn lemma_spans_restored(segs: Seq<Segment>, b2: Seq<usize>, back: Seq<Segment>)
    requires
        contiguous(segs),
        b2.len() == segs.len(),
        forall|k: int| 0 <= k < segs.len() ==> #[trigger] b2[k] as int == lengths_sum(segs.take(k + 1)),
        spans_of(back) == spans_from_bounds(b2, 0),
    ensures
        spans_of(back) == spans_of(segs),
{
    let n = segs.len() as int;
    assert forall|k: int| 0 <= k < n implies bound_before(b2, 0, k) < #[trigger] b2[k] by {
        lemma_restored_bound_at(segs, b2, k);
    }
    lemma_spans_strict(b2, 0);
    assert forall|k: int| 0 <= k < n implies #[trigger] spans_of(back)[k] == spans_of(segs)[k] by {
        assert(spans_of(back)[k] == spans_from_bounds(b2, 0)[k]);
        lemma_restored_bound_at(segs, b2, k);
    }
    assert(spans_of(back) =~= spans_of(segs));
}

/// Shrinking a segment and then extending it again restores every
/// segment's start and length.
pub proof fn lemma_shrink_then_extend_restores(
    conv: Converter,
    r: Seq<char>,
    segs: Seq<Segment>,
    index: int,
    mid: Seq<Segment>,
    back: Seq<Segment>,
)
    requires
        contiguous(segs),
        lengths_sum(segs) == r.len(),
        r.len() <= usize::MAX,
        can_adjust_spec(segs, index, AdjustDirection::Shrink),
        conv.adjusted(r, segs, index, AdjustDirection::Shrink, mid),
        conv.adjusted(r, mid, index, AdjustDirection::Extend, back),
    ensures
        spans_of(back) == spans_of(segs),
{
    lemma_after_shrink(segs, index, mid);
    lemma_spans_restored(segs, moved_bounds(mid, index, AdjustDirection::Extend), back);
}

/// Without any dictionary entry, a non-empty reading converts to a single
/// segment covering it whose only candidate is the reading itself, and the
/// reading is the only whole-reading candidate.
pub proof fn lemma_pass_through_conversion(conv: Converter, r: Seq<char>, res: ConversionResult)
    requires
        conv.pass_through(),
        r.len() > 0,
        conv.converted(r, res),
    ensures
        res.segments@.len() == 1,
        res.segments@[0].start == 0,
        res.segments@[0].length == r.len(),
        res.segments@[0].reading@ == r,
        res.segments@[0].candidates.deep_view() == seq![r],
        res.combined_candidates.deep_view() == seq![r],
{
    let segs = res.segments@;
    assert(spans_of(segs).len() == 1);
    assert(spans_of(segs)[0] == (0int, r.len() as int));
    assert(r.subrange(0, r.len() as int) =~= r);
    if let Some(d) = conv.lexicon() {
        assert(!d.nasi().contains_key(r));
    }
    assert(segs.drop_last() =~= seq![]);
    assert(segs[0].candidates.deep_view() =~= seq![r]);
    assert(segs[0].candidates@.len() == 1);
    assert(segs[0].candidates.deep_view()[0] == segs[0].candidates@[0]@);
    assert(concat_firsts(segs.drop_last()) =~= seq![]);
    assert(concat_firsts(segs) =~= r);
    assert(seq![r].contains(r)) by {
        assert(seq![r][0] == r);
    }
}

} // verus!
