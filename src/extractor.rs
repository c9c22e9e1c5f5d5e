//! The field-tracking extractor: a state machine over the lines of an
//! exported capture that assembles one record per UDP payload.
use vstd::prelude::*;
use crate::numeric::{decode_payload, decode_payload_in, parse_port, parse_unsigned_in};
use crate::text::{chars_of, contains, find_from, lemma_find_iff_contains, locate_value, value_after};

verus! {

/// The line that opens a frame.
pub open spec fn frame_marker() -> Seq<char> {
    "\"frame\": {"@
}

/// The start of a payload value.
pub open spec fn payload_marker() -> Seq<char> {
    "\"udp.payload\": \""@
}

pub open spec fn src_port_marker() -> Seq<char> {
    "\"udp.srcport\": \""@
}

pub open spec fn dst_port_marker() -> Seq<char> {
    "\"udp.dstport\": \""@
}

pub open spec fn src_addr_marker() -> Seq<char> {
    "\"ip.src\": \""@
}

pub open spec fn dst_addr_marker() -> Seq<char> {
    "\"ip.dst\": \""@
}

pub open spec fn time_marker() -> Seq<char> {
    "\"frame.time_relative\": \""@
}

/// The marker of tracked field `k`, counted from 0 in the order source
/// port, destination port, source address, destination address, time.
pub open spec fn field_marker(k: int) -> Seq<char> {
    if k == 0 {
        src_port_marker()
    } else if k == 1 {
        dst_port_marker()
    } else if k == 2 {
        src_addr_marker()
    } else if k == 3 {
        dst_addr_marker()
    } else {
        time_marker()
    }
}

/// The text last captured for each of the five tracked fields, if any.
pub struct Slots {
    pub src_port: Option<Seq<char>>,
    pub dst_port: Option<Seq<char>>,
    pub src_addr: Option<Seq<char>>,
    pub dst_addr: Option<Seq<char>>,
    pub time: Option<Seq<char>>,
}

impl Slots {
    /// No field captured.
    pub open spec fn empty() -> Slots {
        Slots { src_port: None, dst_port: None, src_addr: None, dst_addr: None, time: None }
    }

    /// The slot of tracked field `k`, numbered as `field_marker` numbers them.
    pub open spec fn slot(self, k: int) -> Option<Seq<char>> {
        if k == 0 {
            self.src_port
        } else if k == 1 {
            self.dst_port
        } else if k == 2 {
            self.src_addr
        } else if k == 3 {
            self.dst_addr
        } else {
            self.time
        }
    }

    /// All five fields captured.
    pub open spec fn complete(self) -> bool {
        &&& self.src_port is Some
        &&& self.dst_port is Some
        &&& self.src_addr is Some
        &&& self.dst_addr is Some
        &&& self.time is Some
    }
}

/// A record as a mathematical value. The time is kept as the text that the
/// export gives for it.
pub struct Record {
    pub payload: Seq<u8>,
    pub src_port: u16,
    pub dst_port: u16,
    pub src_addr: Seq<char>,
    pub dst_addr: Seq<char>,
    pub time: Seq<char>,
}

/// A captured port text that is no decimal `u16`.
#[derive(Clone, Copy, Debug, PartialEq, Eq, Structural)]
pub enum FieldError {
    SrcPort,
    DstPort,
}

/// Whether `line` opens a new frame.
pub open spec fn is_boundary(line: Seq<char>) -> bool {
    contains(line, frame_marker())
}

/// The payload bytes that `line` carries: its payload value, when there is
/// one and it decodes.
pub open spec fn line_payload(line: Seq<char>) -> Option<Seq<u8>> {
    match value_after(line, payload_marker()) {
        Some(t) => decode_payload(t),
        None => None,
    }
}

/// Whether `line`, seen with slots `s`, completes a record.
pub open spec fn emits(s: Slots, line: Seq<char>) -> bool {
    !is_boundary(line) && line_payload(line) is Some && s.complete()
}

/// A slot after a line in which its marker gave `found`.
pub open spec fn overwrite(slot: Option<Seq<char>>, found: Option<Seq<char>>) -> Option<
    Seq<char>,
> {
    if found is Some {
        found
    } else {
        slot
    }
}

/// The slots after every field marker of `line` has been looked for.
pub open spec fn scan_fields(s: Slots, line: Seq<char>) -> Slots {
    Slots {
        src_port: overwrite(s.src_port, value_after(line, src_port_marker())),
        dst_port: overwrite(s.dst_port, value_after(line, dst_port_marker())),
        src_addr: overwrite(s.src_addr, value_after(line, src_addr_marker())),
        dst_addr: overwrite(s.dst_addr, value_after(line, dst_addr_marker())),
        time: overwrite(s.time, value_after(line, time_marker())),
    }
}

/// The slots after `line`: cleared by a frame boundary and by a record,
/// else updated from the line's field markers.
pub open spec fn next_slots(s: Slots, line: Seq<char>) -> Slots {
    if is_boundary(line) || emits(s, line) {
        Slots::empty()
    } else {
        scan_fields(s, line)
    }
}

/// The record made of `payload` and the complete slots `s`, or the first
/// port among them that does not parse.
pub open spec fn record_of(s: Slots, payload: Seq<u8>) -> Result<Record, FieldError> {
    match parse_port(s.src_port->Some_0) {
        None => Err(FieldError::SrcPort),
        Some(sp) => match parse_port(s.dst_port->Some_0) {
            None => Err(FieldError::DstPort),
            Some(dp) => Ok(
                Record {
                    payload,
                    src_port: sp,
                    dst_port: dp,
                    src_addr: s.src_addr->Some_0,
                    dst_addr: s.dst_addr->Some_0,
                    time: s.time->Some_0,
                },
            ),
        },
    }
}

/// What `line`, seen with slots `s`, gives: a record, nothing, or an error.
pub open spec fn step_output(s: Slots, line: Seq<char>) -> Result<Option<Record>, FieldError> {
    if emits(s, line) {
        match record_of(s, line_payload(line)->Some_0) {
            Ok(r) => Ok(Some(r)),
            Err(e) => Err(e),
        }
    } else {
        Ok(None)
    }
}

/// One extracted UDP datagram. `time` is the relative capture time as the
/// export writes it.
pub struct Data {
    pub data: Vec<u8>,
    pub src_port: u16,
    pub dst_port: u16,
    pub src_addr: String,
    pub dst_addr: String,
    pub time: String,
}

impl View for Data {
    type V = Record;

    open spec fn view(&self) -> Record {
        Record {
            payload: self.data@,
            src_port: self.src_port,
            dst_port: self.dst_port,
            src_addr: self.src_addr@,
            dst_addr: self.dst_addr@,
            time: self.time@,
        }
    }
}

/// The value of a step's result.
pub open spec fn output_view(r: Result<Option<Data>, FieldError>) -> Result<Option<Record>, FieldError> {
    match r {
        Ok(Some(d)) => Ok(Some(d@)),
        Ok(None) => Ok(None),
        Err(e) => Err(e),
    }
}

/// The marker strings, as characters.
struct Markers {
    frame: Vec<char>,
    payload: Vec<char>,
    src_port: Vec<char>,
    dst_port: Vec<char>,
    src_addr: Vec<char>,
    dst_addr: Vec<char>,
    time: Vec<char>,
}

/// The state of one pass over the lines of an export.
pub struct Extractor {
    src_port: Option<String>,
    dst_port: Option<String>,
    src_addr: Option<String>,
    dst_addr: Option<String>,
    time: Option<String>,
    markers: Markers,
}

pub open spec fn text_of(slot: Option<String>) -> Option<Seq<char>> {
    match slot {
        Some(t) => Some(t@),
        None => None,
    }
}

impl View for Extractor {
    type V = Slots;

    closed spec fn view(&self) -> Slots {
        Slots {
            src_port: text_of(self.src_port),
            dst_port: text_of(self.dst_port),
            src_addr: text_of(self.src_addr),
            dst_addr: text_of(self.dst_addr),
            time: text_of(self.time),
        }
    }
}

/// The decimal port that `t` writes, as `parse_port` reads it.
fn port_of(t: &String) -> (r: Option<u16>)
    ensures
        r == parse_port(t@),
{
    let c = chars_of(t.as_str());
    assert(c@.subrange(0, c@.len() as int) =~= c@);
    match parse_unsigned_in(&c, 0, c.len(), 10, 0xffff) {
        Some(v) => Some(v as u16),
        None => None,
    }
}

/// The value in `line` after `marker`, up to the next double quote.
fn value_in(line: &str, chars: &Vec<char>, marker: &Vec<char>) -> (r: Option<String>)
    requires
        chars@ == line@,
    ensures
        text_of(r) == value_after(line@, marker@),
{
    match locate_value(chars, marker) {
        Some((a, b)) => Some(line.substring_char(a, b).to_owned()),
        None => None,
    }
}

impl Extractor {
    /// Well-formed: the markers hold the marker strings.
    pub closed spec fn wf(&self) -> bool {
        &&& self.markers.frame@ == frame_marker()
        &&& self.markers.payload@ == payload_marker()
        &&& self.markers.src_port@ == src_port_marker()
        &&& self.markers.dst_port@ == dst_port_marker()
        &&& self.markers.src_addr@ == src_addr_marker()
        &&& self.markers.dst_addr@ == dst_addr_marker()
        &&& self.markers.time@ == time_marker()
    }

    /// An extractor with all five slots empty.
    pub fn new() -> (r: Extractor)
        ensures
            r.wf(),
            r@ == Slots::empty(),
    {
        Extractor {
            src_port: None,
            dst_port: None,
            src_addr: None,
            dst_addr: None,
            time: None,
            markers: Markers {
                frame: chars_of("\"frame\": {"),
                payload: chars_of("\"udp.payload\": \""),
                src_port: chars_of("\"udp.srcport\": \""),
                dst_port: chars_of("\"udp.dstport\": \""),
                src_addr: chars_of("\"ip.src\": \""),
                dst_addr: chars_of("\"ip.dst\": \""),
                time: chars_of("\"frame.time_relative\": \""),
            },
        }
    }

    fn clear(&mut self)
        requires
            old(self).wf(),
        ensures
            final(self).wf(),
            final(self)@ == Slots::empty(),
    {
        self.src_port = None;
        self.dst_port = None;
        self.src_addr = None;
        self.dst_addr = None;
        self.time = None;
    }

    /// Processes one line: a frame boundary clears the slots; a payload that
    /// decodes, seen with all five slots filled, gives a record and clears
    /// them; otherwise each field marker on the line overwrites its slot.
    /// A captured port that is no decimal `u16` ends the record with an error.
    pub fn feed(&mut self, line: &str) -> (r: Result<Option<Data>, FieldError>)
        requires
            old(self).wf(),
        ensures
            final(self).wf(),
            final(self)@ == next_slots(old(self)@, line@),
            output_view(r) == step_output(old(self)@, line@),
    {
        let chars = chars_of(line);
        assert(chars@.subrange(0, chars@.len() as int) =~= chars@);
        proof {
            lemma_find_iff_contains(line@, frame_marker());
        }
        if find_from(&chars, 0, &self.markers.frame).is_some() {
            self.clear();
            return Ok(None);
        }
        match locate_value(&chars, &self.markers.payload) {
            Some((a, b)) => {
                assert(chars@.subrange(a as int, b as int) == line@.subrange(a as int, b as int));
                match decode_payload_in(&chars, a, b) {
                    Some(bytes) => {
                        if self.src_port.is_some() && self.dst_port.is_some()
                            && self.src_addr.is_some() && self.dst_addr.is_some()
                            && self.time.is_some() {
                            let sp = self.src_port.take().unwrap();
                            let dp = self.dst_port.take().unwrap();
                            let sa = self.src_addr.take().unwrap();
                            let da = self.dst_addr.take().unwrap();
                            let tm = self.time.take().unwrap();
                            let src_port = match port_of(&sp) {
                                Some(p) => p,
                                None => {
                                    return Err(FieldError::SrcPort);
                                },
                            };
                            let dst_port = match port_of(&dp) {
                                Some(p) => p,
                                None => {
                                    return Err(FieldError::DstPort);
                                },
                            };
                            return Ok(
                                Some(
                                    Data {
                                        data: bytes,
                                        src_port,
                                        dst_port,
                                        src_addr: sa,
                                        dst_addr: da,
                                        time: tm,
                                    },
                                ),
                            );
                        }
                    },
                    None => {},
                }
            },
            None => {},
        }
        let v = value_in(line, &chars, &self.markers.src_port);
        if v.is_some() {
            self.src_port = v;
        }
        let v = value_in(line, &chars, &self.markers.dst_port);
        if v.is_some() {
            self.dst_port = v;
        }
        let v = value_in(line, &chars, &self.markers.src_addr);
        if v.is_some() {
            self.src_addr = v;
        }
        let v = value_in(line, &chars, &self.markers.dst_addr);
        if v.is_some() {
            self.dst_addr = v;
        }
        let v = value_in(line, &chars, &self.markers.time);
        if v.is_some() {
            self.time = v;
        }
        Ok(None)
    }
}

/// `rs` followed by the records of `rest`, or the error of `rest`.
pub open spec fn prepend(rs: Seq<Record>, rest: Result<Seq<Record>, FieldError>) -> Result<
    Seq<Record>,
    FieldError,
> {
    match rest {
        Ok(more) => Ok(rs + more),
        Err(e) => Err(e),
    }
}

/// The record of a step, as a sequence of zero or one record.
pub open spec fn records_of(o: Option<Record>) -> Seq<Record> {
    match o {
        Some(r) => seq![r],
        None => Seq::empty(),
    }
}

/// What a pass over `lines`, started with slots `s`, gives: the records in
/// the order of their payload lines, or the first error, which ends the pass.
pub open spec fn extract_from(s: Slots, lines: Seq<Seq<char>>) -> Result<Seq<Record>, FieldError>
    decreases lines.len(),
{
    if lines.len() == 0 {
        Ok(Seq::empty())
    } else {
        match step_output(s, lines[0]) {
            Err(e) => Err(e),
            Ok(o) => prepend(records_of(o), extract_from(next_slots(s, lines[0]), lines.drop_first())),
        }
    }
}

/// What a pass over `lines` gives from the start.
pub open spec fn extract_all(lines: Seq<Seq<char>>) -> Result<Seq<Record>, FieldError> {
    extract_from(Slots::empty(), lines)
}

/// The text of each line.
pub open spec fn lines_view(lines: Seq<String>) -> Seq<Seq<char>> {
    lines.map_values(|l: String| l@)
}

/// The value of each record.
pub open spec fn records_view(v: Seq<Data>) -> Seq<Record> {
    v.map_values(|d: Data| d@)
}

/// The value of a pass's result.
pub open spec fn result_view(r: Result<Vec<Data>, FieldError>) -> Result<Seq<Record>, FieldError> {
    match r {
        Ok(v) => Ok(records_view(v@)),
        Err(e) => Err(e),
    }
}

/// Runs one extractor over `lines` and collects its records, stopping at
/// the first port that does not parse.
pub fn read_buf(lines: &Vec<String>) -> (r: Result<Vec<Data>, FieldError>)
    ensures
        result_view(r) == extract_all(lines_view(lines@)),
{
    let ghost all = lines_view(lines@);
    let mut ex = Extractor::new();
    let mut out: Vec<Data> = Vec::new();
    let mut i: usize = 0;
    assert(all.skip(0) =~= all);
    assert(records_view(out@) =~= Seq::<Record>::empty());
    assert(Seq::<Record>::empty() + Seq::<Record>::empty() =~= Seq::<Record>::empty());
    while i < lines.len()
        invariant
            i <= lines@.len(),
            all == lines_view(lines@),
            ex.wf(),
            extract_all(all) == prepend(records_view(out@), extract_from(ex@, all.skip(i as int))),
        decreases lines@.len() - i,
    {
        let ghost before = ex@;
        let ghost rest = all.skip(i as int);
        assert(rest[0] == lines@[i as int]@);
        assert(rest.drop_first() =~= all.skip(i + 1));
        let got = ex.feed(lines[i].as_str());
        match got {
            Err(e) => {
                return Err(e);
            },
            Ok(o) => {
                let ghost seen = records_view(out@);
                match o {
                    Some(d) => {
                        out.push(d);
                        assert(records_view(out@) =~= seen + seq![d@]);
                    },
                    None => {
                        assert(records_view(out@) =~= seen + Seq::<Record>::empty());
                    },
                }
                assert(extract_all(all) == prepend(records_view(out@), extract_from(ex@, all.skip(i + 1)))) by {
                    match extract_from(ex@, all.skip(i + 1)) {
                        Ok(more) => {
                            assert(records_view(out@) + more =~= seen + (records_of(output_view(got)->Ok_0) + more));
                        },
                        Err(_) => {},
                    }
                }
            },
        }
        i = i + 1;
    }
    assert(all.skip(i as int) =~= Seq::<Seq<char>>::empty());
    assert(records_view(out@) + Seq::<Record>::empty() =~= records_view(out@));
    Ok(out)
}

} // verus!
