//! Requests and responses exchanged with an input method client, and the
//! dispatch of a request to the converter.

use vstd::prelude::*;
use vstd::string::StringExecFns;
use crate::converter::{
    candidates_view, lengths_fit, lengths_sum, merge_candidates, merged, AdjustDirection, ConversionResult,
    Converter, Segment,
};
use crate::text::chars_of;

verus! {

/// A segment as sent by the client in an adjustment request.
#[derive(Debug, Clone)]
pub struct SegmentInput {
    pub reading: String,
    pub start: usize,
    pub length: usize,
    pub candidates: Vec<String>,
}

/// Options of a conversion request.
#[derive(Debug, Clone)]
pub struct ConvertOptions {
    /// Whether the conversion is a live preview.
    pub live: bool,
}

impl Default for ConvertOptions {
    fn default() -> (r: ConvertOptions)
        ensures
            !r.live,
    {
        ConvertOptions { live: false }
    }
}

/// A segment as sent back to the client.
#[derive(Debug, Clone)]
pub struct SegmentInfo {
    pub reading: String,
    pub start: usize,
    pub length: usize,
    pub candidates: Vec<String>,
}

/// The info carries the segment's reading, position and candidates.
pub open spec fn info_matches(i: SegmentInfo, s: Segment) -> bool {
    &&& i.reading@ == s.reading@
    &&& i.start == s.start
    &&& i.length == s.length
    &&& i.candidates.deep_view() == s.candidates.deep_view()
}

/// Each info carries the segment at the same index.
pub open spec fn infos_match(infos: Seq<SegmentInfo>, segs: Seq<Segment>) -> bool {
    &&& infos.len() == segs.len()
    &&& forall|k: int| 0 <= k < infos.len() ==> info_matches(#[trigger] infos[k], segs[k])
}

impl From<Segment> for SegmentInfo {
    fn from(seg: Segment) -> (r: SegmentInfo)
        ensures
            r.reading == seg.reading,
            r.start == seg.start,
            r.length == seg.length,
            r.candidates == seg.candidates,
    {
        SegmentInfo {
            reading: seg.reading,
            start: seg.start,
            length: seg.length,
            candidates: seg.candidates,
        }
    }
}

impl vstd::std_specs::convert::FromSpecImpl<Segment> for SegmentInfo {
    open spec fn obeys_from_spec() -> bool {
        true
    }

    open spec fn from_spec(seg: Segment) -> SegmentInfo {
        SegmentInfo {
            reading: seg.reading,
            start: seg.start,
            length: seg.length,
            candidates: seg.candidates,
        }
    }
}

impl SegmentInput {
    /// The segment that the client described.
    pub fn into_segment(self) -> (r: Segment)
        ensures
            r.reading == self.reading,
            r.start == self.start,
            r.length == self.length,
            r.candidates == self.candidates,
    {
        Segment {
            reading: self.reading,
            start: self.start,
            length: self.length,
            candidates: self.candidates,
        }
    }
}

/// A request from the client.
#[derive(Debug)]
pub enum Request {
    Init { seq: u64, session_id: Option<String> },
    Convert {
        seq: u64,
        session_id: String,
        reading: String,
        cursor: Option<usize>,
        options: Option<ConvertOptions>,
    },
    Commit { seq: u64, session_id: String, reading: String, candidate: String },
    Shutdown { seq: u64, session_id: Option<String> },
    AdjustSegment {
        seq: u64,
        session_id: String,
        reading: String,
        segments: Vec<SegmentInput>,
        segment_index: usize,
        direction: String,
    },
}

/// A response to the client.
#[derive(Debug)]
pub enum Response {
    InitResult { seq: u64, session_id: String, version: String, has_dictionary: bool },
    ConvertResult {
        seq: u64,
        session_id: String,
        candidates: Vec<String>,
        segments: Vec<SegmentInfo>,
    },
    AdjustSegmentResult { seq: u64, session_id: String, segments: Vec<SegmentInfo> },
    CommitResult { seq: u64, session_id: String, success: bool },
    ShutdownResult { seq: u64 },
    Error { seq: u64, session_id: Option<String>, error: String },
}

/// The direction that a request names: `shrink` or `extend`.
pub open spec fn direction_named(name: Seq<char>) -> Option<AdjustDirection> {
    if name == "shrink"@ {
        Some(AdjustDirection::Shrink)
    } else if name == "extend"@ {
        Some(AdjustDirection::Extend)
    } else {
        None
    }
}

/// Parses the direction of an adjustment request.
pub fn parse_direction(name: &str) -> (r: Option<AdjustDirection>)
    ensures
        r == direction_named(name@),
{
    let cs = chars_of(name);
    let shrink = chars_of("shrink");
    let extend = chars_of("extend");
    if chars_equal(&cs, &shrink) {
        Some(AdjustDirection::Shrink)
    } else if chars_equal(&cs, &extend) {
        proof {
            reveal_strlit("shrink");
            reveal_strlit("extend");
            assert(extend@[0] != "shrink"@[0]);
        }
        Some(AdjustDirection::Extend)
    } else {
        None
    }
}

/// Whether two character sequences are equal.
fn chars_equal(a: &Vec<char>, b: &Vec<char>) -> (r: bool)
    ensures
        r == (a@ == b@),
{
    if a.len() != b.len() {
        return false;
    }
    let mut i: usize = 0;
    while i < a.len()
        invariant
            a@.len() == b@.len(),
            i <= a@.len(),
            forall|k: int| 0 <= k < i ==> a@[k] == b@[k],
        decreases a@.len() - i,
    {
        if a[i] != b[i] {
            return false;
        }
        i += 1;
    }
    assert(a@ =~= b@);
    true
}

/// The text of the error for an unknown direction.
pub open spec fn invalid_direction_message(direction: Seq<char>) -> Seq<char> {
    "Invalid direction: "@ + direction
}

/// The text of the error for segments longer than the reading.
pub open spec fn segments_too_long_message() -> Seq<char> {
    "Segments exceed the reading"@
}

/// The items of `v` in reverse order.
fn reversed<T>(v: Vec<T>) -> (r: Vec<T>)
    ensures
        r@.len() == v@.len(),
        forall|k: int| 0 <= k < v@.len() ==> r@[k] == v@[v@.len() - 1 - k],
{
    let ghost orig = v@;
    let mut src = v;
    let mut out: Vec<T> = Vec::new();
    while src.len() > 0
        invariant
            out@.len() + src@.len() == orig.len(),
            src@ == orig.take(src@.len() as int),
            forall|k: int| 0 <= k < out@.len() ==> out@[k] == orig[orig.len() - 1 - k],
        decreases src@.len(),
    {
        let ghost before = src@;
        let x = src.pop().unwrap();
        assert(src@ =~= orig.take(src@.len() as int));
        out.push(x);
    }
    out
}

/// Wraps segments for the response.
fn infos_of(segs: Vec<Segment>) -> (r: Vec<SegmentInfo>)
    ensures
        infos_match(r@, segs@),
{
    let ghost orig = segs@;
    let mut out: Vec<SegmentInfo> = Vec::new();
    let mut rest = reversed(segs);
    while rest.len() > 0
        invariant
            out@.len() + rest@.len() == orig.len(),
            forall|k: int| 0 <= k < rest@.len() ==> rest@[k] == orig[orig.len() - 1 - k],
            forall|k: int| 0 <= k < out@.len() ==> info_matches(#[trigger] out@[k], orig[k]),
        decreases rest@.len(),
    {
        let s = rest.pop().unwrap();
        assert(s == orig[out@.len() as int]);
        out.push(SegmentInfo::from(s));
    }
    out
}

/// `r` answers an `init`.
pub open spec fn is_init_result(
    r: Response,
    seq: u64,
    session: Seq<char>,
    version: Seq<char>,
    has_dictionary: bool,
) -> bool {
    match r {
        Response::InitResult { seq: s, session_id, version: v, has_dictionary: h } => s == seq
            && session_id@ == session && v@ == version && h == has_dictionary,
        _ => false,
    }
}

/// `r` answers a `convert` of `reading` by `conv`, merged with what a
/// neural source answered.
pub open spec fn is_convert_result(
    r: Response,
    seq: u64,
    session: Seq<char>,
    conv: Converter,
    reading: Seq<char>,
    neural: Option<Seq<Seq<char>>>,
) -> bool {
    match r {
        Response::ConvertResult { seq: s, session_id, candidates, segments } => s == seq
            && session_id@ == session && exists|res: ConversionResult|
            conv.converted(reading, res) && #[trigger] infos_match(segments@, res.segments@)
                && candidates.deep_view() == merged(neural, res.combined_candidates.deep_view()),
        _ => false,
    }
}

/// The segments that the client sent.
pub open spec fn inputs_as_segments(inputs: Seq<SegmentInput>) -> Seq<Segment> {
    inputs.map_values(|i: SegmentInput| Segment {
        reading: i.reading,
        start: i.start,
        length: i.length,
        candidates: i.candidates,
    })
}

/// `r` answers an adjustment of `segs` by `conv`.
pub open spec fn is_adjust_result(
    r: Response,
    seq: u64,
    session: Seq<char>,
    conv: Converter,
    reading: Seq<char>,
    segs: Seq<Segment>,
    index: int,
    dir: AdjustDirection,
) -> bool {
    match r {
        Response::AdjustSegmentResult { seq: s, session_id, segments } => s == seq && session_id@
            == session && exists|out: Seq<Segment>|
            conv.adjusted(reading, segs, index, dir, out) && #[trigger] infos_match(segments@, out),
        _ => false,
    }
}

/// The server state: the converter and the version it reports.
pub struct Server {
    converter: Converter,
    version: String,
}

impl Server {
    /// The converter requests go to.
    pub closed spec fn converter(&self) -> Converter {
        self.converter
    }

    /// The version reported on `init`.
    pub closed spec fn version(&self) -> Seq<char> {
        self.version@
    }

    /// The converter is well formed.
    pub open spec fn wf(&self) -> bool {
        self.converter().wf()
    }

    /// A server over a converter, reporting `version`.
    pub fn with_converter(converter: Converter, version: String) -> (s: Server)
        requires
            converter.wf(),
        ensures
            s.wf(),
            s.converter() == converter,
            s.version() == version@,
    {
        Server { converter, version }
    }

    /// Answers a request. `new_session_id` names the session of an `init`
    /// that brings none; `neural` holds what a neural source answered for a
    /// `convert`, if anything.
    pub fn handle_request(&self, request: Request, new_session_id: String, neural: Option<Vec<String>>) -> (r: Response)
        requires
            self.wf(),
        ensures
            match request {
                Request::Init { seq, session_id } => is_init_result(
                    r,
                    seq,
                    match session_id {
                        Some(x) => x@,
                        None => new_session_id@,
                    },
                    self.version(),
                    self.converter().lexicon() is Some,
                ),
                _ => true,
            },
            match request {
                Request::Convert { seq, session_id, reading, .. } => is_convert_result(
                    r,
                    seq,
                    session_id@,
                    self.converter(),
                    reading@,
                    candidates_view(neural),
                ),
                _ => true,
            },
            match request {
                Request::Commit { seq, session_id, .. } => r matches Response::CommitResult {
                    seq: s,
                    session_id: sid,
                    success: ok,
                } && s == seq && sid@ == session_id@ && ok,
                _ => true,
            },
            match request {
                Request::Shutdown { seq, .. } => r matches Response::ShutdownResult { seq: s } && s
                    == seq,
                _ => true,
            },
            match request {
                Request::AdjustSegment { seq, session_id, reading, segments, segment_index, direction } =>
                    match direction_named(direction@) {
                    None => r matches Response::Error { seq: s, session_id: sid, error: e } && s == seq
                        && sid == Some(session_id) && e@ == invalid_direction_message(
                        direction@,
                    ),
                    Some(dir) => if lengths_sum(inputs_as_segments(segments@)) <= reading@.len() {
                        is_adjust_result(
                            r,
                            seq,
                            session_id@,
                            self.converter(),
                            reading@,
                            inputs_as_segments(segments@),
                            segment_index as int,
                            dir,
                        )
                    } else {
                        r matches Response::Error { seq: s, session_id: sid, error: e } && s == seq
                            && sid == Some(session_id) && e@ == segments_too_long_message()
                    },
                },
                _ => true,
            },
    {
        match request {
            Request::Init { seq, session_id } => {
                let session_id = match session_id {
                    Some(x) => x,
                    None => new_session_id,
                };
                let version = self.version.clone();
                let has_dictionary = self.converter.has_dictionary();
                assert(version@ == self.version());
                assert(has_dictionary == (self.converter().lexicon() is Some));
                let ghost sid = session_id@;
                let resp = Response::InitResult { seq, session_id, version, has_dictionary };
                assert(is_init_result(resp, seq, sid, self.version(), self.converter().lexicon() is Some));
                resp
            },
            Request::Convert { seq, session_id, reading, .. } => {
                let result = self.converter.convert_with_segments(reading.as_str());
                let ghost res = result;
                let ConversionResult { combined_candidates, segments } = result;
                let ghost nv = candidates_view(neural);
                let candidates = merge_candidates(neural, combined_candidates);
                let infos = infos_of(segments);
                assert(infos_match(infos@, res.segments@));
                assert(self.converter().converted(reading@, res));
                assert(candidates.deep_view() == merged(nv, res.combined_candidates.deep_view()));
                let ghost sid = session_id@;
                assert(exists|x: ConversionResult|
                    self.converter().converted(reading@, x) && #[trigger] infos_match(infos@, x.segments@)
                        && candidates.deep_view() == merged(nv, x.combined_candidates.deep_view()));
                let resp = Response::ConvertResult { seq, session_id, candidates, segments: infos };
                assert(resp matches Response::ConvertResult { seq: s, .. } && s == seq);
                assert(resp matches Response::ConvertResult { session_id: x, .. } && x@ == sid);
                assert(resp matches Response::ConvertResult { segments: x, .. } && x == infos);
                assert(is_convert_result(resp, seq, sid, self.converter(), reading@, nv));
                resp
            },
            Request::Commit { seq, session_id, .. } => Response::CommitResult {
                seq,
                session_id,
                success: true,
            },
            Request::Shutdown { seq, .. } => Response::ShutdownResult { seq },
            Request::AdjustSegment { seq, session_id, reading, segments, segment_index, direction } => {
                let dir = match parse_direction(direction.as_str()) {
                    Some(d) => d,
                    None => {
                        let mut error = String::from_str("Invalid direction: ");
                        error.append(direction.as_str());
                        return Response::Error { seq, session_id: Some(session_id), error };
                    },
                };
                let ghost inputs = segments@;
                let ghost current_spec = inputs_as_segments(inputs);
                let mut current: Vec<Segment> = Vec::new();
                let mut rest = reversed(segments);
                while rest.len() > 0
                    invariant
                        current@.len() + rest@.len() == inputs.len(),
                        current_spec.len() == inputs.len(),
                        forall|k: int| 0 <= k < inputs.len() ==> #[trigger] current_spec[k] == (Segment {
                            reading: inputs[k].reading,
                            start: inputs[k].start,
                            length: inputs[k].length,
                            candidates: inputs[k].candidates,
                        }),
                        forall|k: int| 0 <= k < rest@.len() ==> rest@[k] == inputs[inputs.len() - 1 - k],
                        forall|k: int| 0 <= k < current@.len() ==> #[trigger] current@[k] == current_spec[k],
                    decreases rest@.len(),
                {
                    let input = rest.pop().unwrap();
                    assert(input == inputs[current@.len() as int]);
                    current.push(input.into_segment());
                }
                assert(current@ =~= current_spec);
                let n = chars_of(reading.as_str()).len();
                if !lengths_fit(current.as_slice(), n) {
                    let error = String::from_str("Segments exceed the reading");
                    return Response::Error { seq, session_id: Some(session_id), error };
                }
                let new_segments = self.converter.adjust_segment(
                    reading.as_str(),
                    current.as_slice(),
                    segment_index,
                    dir,
                );
                let ghost out = new_segments@;
                let infos = infos_of(new_segments);
                assert(infos_match(infos@, out));
                let ghost sid = session_id@;
                let resp = Response::AdjustSegmentResult { seq, session_id, segments: infos };
                assert(resp matches Response::AdjustSegmentResult { segments: x, .. } && x == infos);
                assert(is_adjust_result(resp, seq, sid, self.converter(), reading@, current_spec, segment_index as int, dir));
                resp
            },
        }
    }
}

} // verus!
