//! The stream reader: caps the captured byte stream, splits it into
//! newline-delimited records, decodes each record through the event
//! format's own decoder, and extracts the diagnostics.

use vstd::prelude::*;

use crate::diag::{Diagnostic, DiagView, RawEvent, RawEventView, StreamError};

verus! {

/// The hard bound on how much of the captured stream is read; excess is
/// silently truncated.
pub const STREAM_CAP: usize = 10000000;

/// The capped prefix of the raw stream.
pub open spec fn spec_capped(raw: Seq<u8>) -> Seq<u8> {
    if raw.len() <= STREAM_CAP {
        raw
    } else {
        raw.take(STREAM_CAP as int)
    }
}

/// Keeps at most the first `STREAM_CAP` bytes of the stream.
pub fn truncate_stream(raw: &Vec<u8>) -> (r: Vec<u8>)
    ensures
        r@ == spec_capped(raw@),
{
    let cap: usize = if raw.len() < STREAM_CAP {
        raw.len()
    } else {
        STREAM_CAP
    };
    let mut out: Vec<u8> = Vec::new();
    let mut i: usize = 0;
    while i < cap
        invariant
            0 <= i <= cap,
            cap <= raw@.len(),
            cap == if raw@.len() <= STREAM_CAP {
                raw@.len() as int
            } else {
                STREAM_CAP as int
            },
            out@ =~= raw@.take(i as int),
        decreases cap - i,
    {
        out.push(raw[i]);
        i = i + 1;
    }
    proof {
        if raw@.len() <= STREAM_CAP {
            assert(raw@.take(raw@.len() as int) =~= raw@);
        }
    }
    out
}

/// The newline-delimited records of the byte stream, in order, without
/// their terminators.
pub open spec fn spec_lines(b: Seq<u8>) -> Seq<Seq<u8>>
    decreases b.len(),
    via spec_lines_decreases
{
    if b.len() == 0 {
        Seq::<Seq<u8>>::empty()
    } else {
        match b.index_of_first(10u8) {
            None => seq![b],
            Some(i) => seq![b.take(i)] + spec_lines(b.skip(i + 1)),
        }
    }
}

#[via_fn]
proof fn spec_lines_decreases(b: Seq<u8>) {
    b.index_of_first_ensures(10u8);
}

proof fn lemma_lines_step(b: Seq<u8>, pos: int, j: int)
    requires
        0 <= pos <= j <= b.len(),
        forall|k: int| pos <= k < j ==> b[k] != 10u8,
        j < b.len() ==> b[j] == 10u8,
    ensures
        pos == b.len() ==> spec_lines(b.skip(pos)) == Seq::<Seq<u8>>::empty(),
        pos < b.len() && j == b.len() ==> spec_lines(b.skip(pos)) == seq![b.subrange(pos, j)],
        pos < b.len() && j < b.len() ==> spec_lines(b.skip(pos)) == seq![b.subrange(pos, j)]
            + spec_lines(b.skip(j + 1)),
{
    let s = b.skip(pos);
    s.index_of_first_ensures(10u8);
    if pos == b.len() {
        assert(s.len() == 0);
    } else if j == b.len() {
        assert(forall|k: int| 0 <= k < s.len() ==> s[k] == b[pos + k]);
        if s.contains(10u8) {
            let w = choose|w: int| 0 <= w < s.len() && s[w] == 10u8;
            assert(b[pos + w] != 10u8);
            assert(false);
        }
        assert(s.index_of_first(10u8) is None);
        assert(seq![s] =~= seq![b.subrange(pos, j)]);
    } else {
        assert(forall|k: int| 0 <= k < s.len() ==> s[k] == b[pos + k]);
        assert(s[j - pos] == 10u8);
        assert(s.contains(10u8)) by {
            assert(s[j - pos] == 10u8);
        }
        assert(s.index_of_first(10u8) is Some);
        let w = match s.index_of_first(10u8) {
            Some(w) => w,
            None => 0,
        };
        assert(s[w] == 10u8);
        if w < j - pos {
            assert(b[pos + w] != 10u8);
            assert(false);
        }
        if j - pos < w {
            assert(s[j - pos] != 10u8);
            assert(false);
        }
        assert(w == j - pos);
        assert(s.take(w) =~= b.subrange(pos, j));
        assert(s.skip(w + 1) =~= b.skip(j + 1));
    }
}

/// Splits the capped stream into its newline-delimited records.
pub fn split_lines(bytes: &Vec<u8>) -> (r: Vec<Vec<u8>>)
    ensures
        r.deep_view() == spec_lines(bytes@),
{
    let n = bytes.len();
    let mut out: Vec<Vec<u8>> = Vec::new();
    let mut pos: usize = 0;
    proof {
        assert(bytes@.skip(0) =~= bytes@);
        assert(out.deep_view() + spec_lines(bytes@) =~= spec_lines(bytes@));
    }
    while pos < n
        invariant
            0 <= pos <= n,
            n == bytes@.len(),
            out.deep_view() + spec_lines(bytes@.skip(pos as int)) == spec_lines(bytes@),
        decreases n - pos,
    {
        let ghost out0 = out.deep_view();
        let mut j: usize = pos;
        while j < n
            invariant
                pos <= j <= n,
                n == bytes@.len(),
                forall|k: int| pos <= k < j ==> bytes@[k] != 10u8,
            ensures
                pos <= j <= n,
                forall|k: int| pos <= k < j ==> bytes@[k] != 10u8,
                j < n ==> bytes@[j as int] == 10u8,
            decreases n - j,
        {
            if bytes[j] == 10u8 {
                break ;
            }
            j = j + 1;
        }
        let sl = vstd::slice::slice_subrange(bytes.as_slice(), pos, j);
        let line = vstd::slice::slice_to_vec(sl);
        assert(line@ == bytes@.subrange(pos as int, j as int));
        proof {
            assert(line.deep_view() =~= line@);
        }
        out.push(line);
        proof {
            lemma_lines_step(bytes@, pos as int, j as int);
            assert(out.deep_view() =~= out0.push(bytes@.subrange(pos as int, j as int)));
        }
        if j < n {
            pos = j + 1;
            proof {
                assert(out.deep_view() + spec_lines(bytes@.skip(pos as int)) =~= spec_lines(
                    bytes@,
                ));
            }
        } else {
            pos = n;
            proof {
                assert(bytes@.skip(pos as int).len() == 0);
                assert(out.deep_view() + spec_lines(bytes@.skip(pos as int)) =~= spec_lines(
                    bytes@,
                ));
            }
        }
    }
    proof {
        assert(bytes@.skip(pos as int).len() == 0);
        assert(out.deep_view() =~= spec_lines(bytes@));
    }
    out
}

/// What the event format's decoder yields for one record line: a typed
/// event, or nothing when the line cannot be decoded. The result is a
/// function of the line alone.
pub uninterp spec fn event_of_line(line: Seq<u8>) -> Option<RawEventView>;

/// Relies on cargo_metadata::Message::parse_stream: decodes one line of
/// the build tool's structured output into a message; compiler messages
/// carry the package identifier, the rendered text and the code, every
/// other recognized or unrecognized record kind is tolerated and
/// carried as `Other`, and a line the reader cannot decode yields
/// nothing.
#[verifier::external_body]
fn parse_event_line(line: &Vec<u8>) -> (r: Option<RawEvent>)
    ensures
        match r {
            Some(ev) => event_of_line(line@) == Some(ev@),
            None => event_of_line(line@) is None,
        },
{
    match cargo_metadata::Message::parse_stream(line.as_slice()).next() {
        Some(Ok(cargo_metadata::Message::CompilerMessage(m))) => Some(RawEvent::Message {
            package_id: m.package_id.repr,
            rendered: m.message.rendered,
            code: match m.message.code {
                Some(c) => Some(crate::diag::DiagnosticCode { code: c.code, explanation: c.explanation }),
                None => None,
            },
        }),
        Some(Ok(_)) => Some(RawEvent::Other),
        Some(Err(_)) => None,
        None => None,
    }
}

/// The events of the record lines, in order: empty lines are skipped,
/// and an undecodable line fails the whole run.
pub open spec fn spec_parse_lines(lines: Seq<Seq<u8>>) -> Result<Seq<RawEventView>, StreamError>
    decreases lines.len(),
{
    if lines.len() == 0 {
        Ok(Seq::<RawEventView>::empty())
    } else if lines[0].len() == 0 {
        spec_parse_lines(lines.drop_first())
    } else {
        match event_of_line(lines[0]) {
            None => Err(StreamError::MalformedRecord),
            Some(ev) => match spec_parse_lines(lines.drop_first()) {
                Err(e) => Err(e),
                Ok(rest) => Ok(seq![ev] + rest),
            },
        }
    }
}

/// Decodes every non-empty record line, aborting on the first line that
/// cannot be decoded.
pub fn parse_lines(lines: &Vec<Vec<u8>>) -> (r: Result<Vec<RawEvent>, StreamError>)
    ensures
        match r {
            Ok(evs) => spec_parse_lines(lines.deep_view()) == Ok::<Seq<RawEventView>, StreamError>(
                evs.deep_view(),
            ),
            Err(e) => spec_parse_lines(lines.deep_view()) == Err::<
                Seq<RawEventView>,
                StreamError,
            >(e),
        },
{
    let ghost ls = lines.deep_view();
    let n = lines.len();
    let mut out: Vec<RawEvent> = Vec::new();
    let mut i: usize = 0;
    proof {
        assert(ls.skip(0) =~= ls);
    }
    while i < n
        invariant
            0 <= i <= n,
            n == lines@.len(),
            ls == lines.deep_view(),
            ls.len() == n,
            spec_parse_lines(ls) == match spec_parse_lines(ls.skip(i as int)) {
                Ok(rest) => Ok::<Seq<RawEventView>, StreamError>(out.deep_view() + rest),
                Err(e) => Err::<Seq<RawEventView>, StreamError>(e),
            },
        decreases n - i,
    {
        let ghost sfx = ls.skip(i as int);
        proof {
            assert(sfx[0] == ls[i as int]);
            assert(sfx.drop_first() =~= ls.skip(i + 1));
            assert(ls[i as int] == lines@[i as int].deep_view());
            assert(ls[i as int] =~= lines@[i as int]@);
        }
        if lines[i].len() == 0 {
            i = i + 1;
            continue ;
        }
        match parse_event_line(&lines[i]) {
            None => {
                return Err(StreamError::MalformedRecord);
            },
            Some(ev) => {
                let ghost out0 = out.deep_view();
                out.push(ev);
                proof {
                    assert(out.deep_view() =~= out0.push(ev@));
                    assert forall|rest: Seq<RawEventView>| true implies out0 + (seq![ev@] + rest)
                        =~= out.deep_view() + rest by {}
                }
                i = i + 1;
            },
        }
    }
    proof {
        assert(ls.skip(n as int).len() == 0);
        assert(out.deep_view() + Seq::<RawEventView>::empty() =~= out.deep_view());
    }
    Ok(out)
}

/// The diagnostics of an event sequence, in order: extraction applied
/// to every event, the build tool's own summary lines dropped, and the
/// first extraction error failing the whole run.
pub open spec fn spec_extract_all(evs: Seq<RawEventView>) -> Result<Seq<DiagView>, StreamError>
    decreases evs.len(),
{
    if evs.len() == 0 {
        Ok(Seq::<DiagView>::empty())
    } else {
        match crate::diag::spec_extract_event(evs[0]) {
            Err(e) => Err(e),
            Ok(opt) => match spec_extract_all(evs.drop_first()) {
                Err(e) => Err(e),
                Ok(rest) => Ok(
                    match opt {
                        Some(d) => if !crate::diag::spec_is_noise(d) {
                            seq![d] + rest
                        } else {
                            rest
                        },
                        None => rest,
                    },
                ),
            },
        }
    }
}

/// Extracts the diagnostics of the decoded events, dropping the build
/// tool's own summary lines and failing on the first malformed message.
pub fn extract_all(events: &Vec<RawEvent>) -> (r: Result<Vec<Diagnostic>, StreamError>)
    ensures
        match r {
            Ok(v) => spec_extract_all(events.deep_view()) == Ok::<Seq<DiagView>, StreamError>(
                v.deep_view(),
            ),
            Err(e) => spec_extract_all(events.deep_view()) == Err::<Seq<DiagView>, StreamError>(e),
        },
{
    let ghost evs = events.deep_view();
    let n = events.len();
    let mut out: Vec<Diagnostic> = Vec::new();
    let mut i: usize = 0;
    proof {
        assert(evs.skip(0) =~= evs);
    }
    while i < n
        invariant
            0 <= i <= n,
            n == events@.len(),
            evs == events.deep_view(),
            evs.len() == n,
            spec_extract_all(evs) == match spec_extract_all(evs.skip(i as int)) {
                Ok(rest) => Ok::<Seq<DiagView>, StreamError>(out.deep_view() + rest),
                Err(e) => Err::<Seq<DiagView>, StreamError>(e),
            },
        decreases n - i,
    {
        let ghost sfx = evs.skip(i as int);
        proof {
            assert(sfx[0] == evs[i as int]);
            assert(sfx.drop_first() =~= evs.skip(i + 1));
            assert(evs[i as int] == events@[i as int].deep_view());
        }
        match crate::diag::extract_event(&events[i]) {
            Err(e) => {
                return Err(e);
            },
            Ok(None) => {
                i = i + 1;
            },
            Ok(Some(d)) => {
                if crate::diag::diagnostic_is_noise(&d) {
                    i = i + 1;
                } else {
                    let ghost out0 = out.deep_view();
                    out.push(d);
                    proof {
                        assert(out.deep_view() =~= out0.push(d@));
                        assert forall|rest: Seq<DiagView>| true implies out0 + (seq![d@] + rest)
                            =~= out.deep_view() + rest by {}
                    }
                    i = i + 1;
                }
            },
        }
    }
    proof {
        assert(evs.skip(n as int).len() == 0);
        assert(out.deep_view() + Seq::<DiagView>::empty() =~= out.deep_view());
    }
    Ok(out)
}

/// Whatever the events were, a successful extraction never yields a
/// diagnostic whose identity ends with the noise suffix: the build
/// tool's own summary line is excluded from every group, whichever
/// component it came from.
pub proof fn lemma_extracted_has_no_noise(evs: Seq<RawEventView>, ds: Seq<DiagView>)
    requires
        spec_extract_all(evs) == Ok::<Seq<DiagView>, StreamError>(ds),
    ensures
        forall|i: int| 0 <= i < ds.len() ==> !crate::diag::spec_is_noise(#[trigger] ds[i]),
    decreases evs.len(),
{
    if evs.len() == 0 {
    } else {
        match crate::diag::spec_extract_event(evs[0]) {
            Err(e) => {
                assert(false);
            },
            Ok(opt) => {
                match spec_extract_all(evs.drop_first()) {
                    Err(e) => {
                        assert(false);
                    },
                    Ok(rest) => {
                        lemma_extracted_has_no_noise(evs.drop_first(), rest);
                        match opt {
                            Some(d) => {
                                if !crate::diag::spec_is_noise(d) {
                                    assert(ds == seq![d] + rest);
                                    assert forall|i: int|
                                        0 <= i < ds.len() implies !crate::diag::spec_is_noise(
                                        #[trigger] ds[i],
                                    ) by {
                                        if i > 0 {
                                            assert(ds[i] == rest[i - 1]);
                                        }
                                    }
                                } else {
                                    assert(ds == rest);
                                }
                            },
                            None => {
                                assert(ds == rest);
                            },
                        }
                    },
                }
            },
        }
    }
}

/// What the whole reader yields for a raw captured stream: the stream
/// is capped, split into records, decoded, and its diagnostics
/// extracted and filtered.
pub open spec fn spec_ingest(raw: Seq<u8>) -> Result<Seq<DiagView>, StreamError> {
    match spec_parse_lines(spec_lines(spec_capped(raw))) {
        Err(e) => Err(e),
        Ok(evs) => spec_extract_all(evs),
    }
}

/// Reads a captured byte stream end to end: caps it, splits it into
/// records, decodes every record, and extracts the filtered
/// diagnostics; any undecodable record or malformed message fails the
/// run.
pub fn ingest_stream(raw: &Vec<u8>) -> (r: Result<Vec<Diagnostic>, StreamError>)
    ensures
        match r {
            Ok(v) => spec_ingest(raw@) == Ok::<Seq<DiagView>, StreamError>(v.deep_view()),
            Err(e) => spec_ingest(raw@) == Err::<Seq<DiagView>, StreamError>(e),
        },
{
    let capped = truncate_stream(raw);
    let lines = split_lines(&capped);
    match parse_lines(&lines) {
        Err(e) => Err(e),
        Ok(evs) => extract_all(&evs),
    }
}

} // verus!
